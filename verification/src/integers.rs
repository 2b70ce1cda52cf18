//! Whole numbers as a number type of the engine.
//!
//! `i64` computes exactly as long as every result stays strictly inside
//! its range. A result beyond the range becomes the end of the range on
//! that side, and the two ends do not count as finite, so that a run on
//! values that have left the range is stopped like one on values that are
//! not numbers. Division rounds towards zero, so a mean of whole numbers
//! is the rounded mean.

use crate::memory::Primitive;
use vstd::prelude::*;

verus! {

/// The value kept within the range of `i64`.
pub open spec fn saturated(v: int) -> i64 {
    if v > i64::MAX {
        i64::MAX
    } else if v < i64::MIN {
        i64::MIN
    } else {
        v as i64
    }
}

/// The quotient of `x` by `d`, rounded towards zero.
pub open spec fn quotient(x: int, d: int) -> int
    recommends
        d != 0,
{
    if x == 0 {
        0
    } else if x > 0 && d > 0 {
        x / d
    } else if x < 0 && d < 0 {
        (x * -1) / (d * -1)
    } else if x < 0 {
        ((x * -1) / d) * -1
    } else {
        (x / (d * -1)) * -1
    }
}

impl Primitive for i64 {
    open spec fn zero_spec() -> i64 {
        0
    }

    open spec fn from_count_spec(n: usize) -> i64 {
        saturated(n as int)
    }

    open spec fn plus_spec(self, rhs: i64) -> i64 {
        saturated(self + rhs)
    }

    open spec fn minus_spec(self, rhs: i64) -> i64 {
        saturated(self - rhs)
    }

    open spec fn times_spec(self, rhs: i64) -> i64 {
        saturated(self * rhs)
    }

    /// Division by zero gives the lower end of the range for a negative
    /// dividend and the upper end for any other.
    open spec fn divide_spec(self, rhs: i64) -> i64 {
        if rhs == 0 {
            if self < 0 {
                i64::MIN
            } else {
                i64::MAX
            }
        } else {
            saturated(quotient(self as int, rhs as int))
        }
    }

    open spec fn less_spec(self, rhs: i64) -> bool {
        self < rhs
    }

    open spec fn is_finite_spec(self) -> bool {
        i64::MIN < self < i64::MAX
    }

    fn zero() -> (r: i64) {
        0
    }

    fn from_count(n: usize) -> (r: i64) {
        let wide = n as u64;
        if wide > i64::MAX as u64 {
            i64::MAX
        } else {
            wide as i64
        }
    }

    fn plus(self, rhs: i64) -> (r: i64) {
        match self.checked_add(rhs) {
            Some(v) => v,
            None => if rhs > 0 {
                i64::MAX
            } else {
                i64::MIN
            },
        }
    }

    fn minus(self, rhs: i64) -> (r: i64) {
        match self.checked_sub(rhs) {
            Some(v) => v,
            None => if rhs < 0 {
                i64::MAX
            } else {
                i64::MIN
            },
        }
    }

    fn times(self, rhs: i64) -> (r: i64) {
        match self.checked_mul(rhs) {
            Some(v) => v,
            None => {
                proof {
                    let (a, b) = (self as int, rhs as int);
                    assert((a > 0 && b > 0) || (a < 0 && b < 0) ==> a * b > 0) by (nonlinear_arith);
                    assert((a > 0 && b < 0) || (a < 0 && b > 0) ==> a * b < 0) by (nonlinear_arith);
                    assert(a == 0 || b == 0 ==> a * b == 0) by (nonlinear_arith);
                }
                if (self > 0) == (rhs > 0) {
                    i64::MAX
                } else {
                    i64::MIN
                }
            },
        }
    }

    fn divide(self, rhs: i64) -> (r: i64) {
        if rhs == 0 {
            if self < 0 {
                i64::MIN
            } else {
                i64::MAX
            }
        } else {
            match self.checked_div(rhs) {
                Some(v) => v,
                None => {
                    proof {
                        lemma_quotient_bounds(self as int, rhs as int);
                    }
                    i64::MAX
                },
            }
        }
    }

    fn less(self, rhs: i64) -> (r: bool) {
        self < rhs
    }

    fn is_finite(self) -> (r: bool) {
        i64::MIN < self && self < i64::MAX
    }
}

/// A quotient is no further from zero than its dividend.
pub proof fn lemma_quotient_bounds(x: int, d: int)
    requires
        d != 0,
    ensures
        x >= 0 ==> -x <= quotient(x, d) <= x,
        x < 0 ==> x <= quotient(x, d) <= -x,
{
    let ax = if x < 0 {
        -x
    } else {
        x
    };
    let ad = if d < 0 {
        -d
    } else {
        d
    };
    assert(0 <= ax / ad <= ax) by (nonlinear_arith)
        requires
            ax >= 0,
            ad >= 1,
    ;
    assert(x * -1 == -x);
    assert(d * -1 == -d);
}

} // verus!
