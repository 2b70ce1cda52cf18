//! The built-in dissimilarity measures.

use crate::api::DistanceFunction;
use crate::memory::Primitive;
use vstd::prelude::*;

verus! {

/// Sum of a sequence, added up from left to right, starting from zero.
pub open spec fn sum_spec<T: Primitive>(s: Seq<T>) -> T
    decreases s.len(),
{
    if s.len() == 0 {
        T::zero_spec()
    } else {
        sum_spec(s.drop_last()).plus_spec(s.last())
    }
}

/// The squared difference of two values.
pub open spec fn squared_difference<T: Primitive>(a: T, b: T) -> T {
    a.minus_spec(b).times_spec(a.minus_spec(b))
}

/// The squared difference of two values, divided by their sum where that
/// sum is above zero, and zero elsewhere.
pub open spec fn balanced_difference<T: Primitive>(a: T, b: T) -> T {
    if T::zero_spec().less_spec(a.plus_spec(b)) {
        squared_difference(a, b).divide_spec(a.plus_spec(b))
    } else {
        T::zero_spec()
    }
}

/// Squared Euclidean distance: the sum over all lanes of the squared
/// difference. The square root is left out, since only the order of
/// distances matters.
#[derive(Clone, Copy, Debug)]
pub struct EuclideanDistance;

impl<T: Primitive> DistanceFunction<T> for EuclideanDistance {
    open spec fn distance_spec(&self, a: Seq<T>, b: Seq<T>) -> T {
        sum_spec(Seq::new(a.len(), |i: int| squared_difference(a[i], b[i])))
    }

    fn distance(&self, a: &[T], b: &[T]) -> (d: T) {
        let ghost terms = Seq::new(a@.len(), |i: int| squared_difference(a@[i], b@[i]));
        let mut acc = T::zero();
        let mut i: usize = 0;
        while i < a.len()
            invariant
                i <= a@.len(),
                a@.len() == b@.len(),
                terms == Seq::new(a@.len(), |i: int| squared_difference(a@[i], b@[i])),
                acc == sum_spec(terms.take(i as int)),
            decreases a@.len() - i,
        {
            let diff = a[i].minus(b[i]);
            proof {
                assert(terms.take(i + 1).drop_last() =~= terms.take(i as int));
            }
            acc = acc.plus(diff.times(diff));
            i += 1;
        }
        proof {
            assert(terms.take(a@.len() as int) =~= terms);
        }
        acc
    }
}

/// A distance between histograms: the sum over all lanes of the squared
/// difference of the two counts divided by their sum. Lanes whose counts do
/// not add up to more than zero, the padding among them, contribute nothing.
#[derive(Clone, Copy, Debug)]
pub struct HistogramDistance;

impl<T: Primitive> DistanceFunction<T> for HistogramDistance {
    open spec fn distance_spec(&self, a: Seq<T>, b: Seq<T>) -> T {
        sum_spec(Seq::new(a.len(), |i: int| balanced_difference(a[i], b[i])))
    }

    fn distance(&self, a: &[T], b: &[T]) -> (d: T) {
        let ghost terms = Seq::new(a@.len(), |i: int| balanced_difference(a@[i], b@[i]));
        let mut acc = T::zero();
        let mut i: usize = 0;
        while i < a.len()
            invariant
                i <= a@.len(),
                a@.len() == b@.len(),
                terms == Seq::new(a@.len(), |i: int| balanced_difference(a@[i], b@[i])),
                acc == sum_spec(terms.take(i as int)),
            decreases a@.len() - i,
        {
            let total = a[i].plus(b[i]);
            let term = if T::zero().less(total) {
                let diff = a[i].minus(b[i]);
                diff.times(diff).divide(total)
            } else {
                T::zero()
            };
            proof {
                assert(terms.take(i + 1).drop_last() =~= terms.take(i as int));
            }
            acc = acc.plus(term);
            i += 1;
        }
        proof {
            assert(terms.take(a@.len() as int) =~= terms);
        }
        acc
    }
}

} // verus!
