//! Numeric primitives and lane-aligned row storage.
//!
//! Samples and centroids are stored as dense matrices whose rows are padded
//! with zeros up to the next multiple of the lane width (the *stride*).

use vstd::prelude::*;

verus! {

/// The scalar operations the clustering engine needs from its element type.
///
/// Every executable operation is paired with a specification function of the
/// same arguments. An implementation promises only that each operation is a
/// function of its arguments; no algebraic law is assumed, so the engine's
/// contracts hold for rounding arithmetic as well as for exact arithmetic.
pub trait Primitive: Copy + Send + Sync {
    /// Value of [`Primitive::zero`].
    spec fn zero_spec() -> Self;

    /// Value of [`Primitive::from_count`].
    spec fn from_count_spec(n: usize) -> Self;

    /// Value of [`Primitive::plus`].
    spec fn plus_spec(self, rhs: Self) -> Self;

    /// Value of [`Primitive::minus`].
    spec fn minus_spec(self, rhs: Self) -> Self;

    /// Value of [`Primitive::times`].
    spec fn times_spec(self, rhs: Self) -> Self;

    /// Value of [`Primitive::divide`].
    spec fn divide_spec(self, rhs: Self) -> Self;

    /// Value of [`Primitive::less`].
    spec fn less_spec(self, rhs: Self) -> bool;

    /// Value of [`Primitive::is_finite`].
    spec fn is_finite_spec(self) -> bool;

    /// The additive identity.
    fn zero() -> (r: Self)
        ensures
            r == Self::zero_spec(),
    ;

    /// The value that stands for a count of `n` items.
    fn from_count(n: usize) -> (r: Self)
        ensures
            r == Self::from_count_spec(n),
    ;

    /// Sum.
    fn plus(self, rhs: Self) -> (r: Self)
        ensures
            r == self.plus_spec(rhs),
    ;

    /// Difference.
    fn minus(self, rhs: Self) -> (r: Self)
        ensures
            r == self.minus_spec(rhs),
    ;

    /// Product.
    fn times(self, rhs: Self) -> (r: Self)
        ensures
            r == self.times_spec(rhs),
    ;

    /// Quotient. Must return for every divisor, zero included.
    fn divide(self, rhs: Self) -> (r: Self)
        ensures
            r == self.divide_spec(rhs),
    ;

    /// Strict comparison.
    fn less(self, rhs: Self) -> (r: bool)
        ensures
            r == self.less_spec(rhs),
    ;

    /// Whether the value is an ordinary number (neither infinite nor undefined).
    fn is_finite(self) -> (r: bool)
        ensures
            r == self.is_finite_spec(),
    ;
}

/// A run of `n` zeros.
pub open spec fn zeros<T: Primitive>(n: nat) -> Seq<T> {
    Seq::new(n, |i: int| T::zero_spec())
}

/// `dims` rounded up to the next multiple of `lanes`.
pub open spec fn stride_spec(dims: nat, lanes: nat) -> nat
    recommends
        lanes > 0,
{
    if dims % lanes == 0 {
        dims
    } else {
        (dims + (lanes - dims % lanes)) as nat
    }
}

/// The stride is the least multiple of the lane width that holds `dims` values.
pub proof fn lemma_stride_is_least_multiple(dims: nat, lanes: nat)
    requires
        lanes > 0,
    ensures
        stride_spec(dims, lanes) % lanes == 0,
        dims <= stride_spec(dims, lanes) < dims + lanes,
{
    let rem = dims % lanes;
    if rem != 0 {
        let q = dims / lanes;
        assert(dims == q * lanes + rem) by {
            vstd::arithmetic::div_mod::lemma_fundamental_div_mod(dims as int, lanes as int);
            vstd::arithmetic::mul::lemma_mul_is_commutative(q as int, lanes as int);
        }
        assert(dims + (lanes - rem) == (q + 1) * lanes) by (nonlinear_arith)
            requires
                dims == q * lanes + rem,
        ;
        vstd::arithmetic::div_mod::lemma_mod_multiples_basic((q + 1) as int, lanes as int);
    }
}

/// Computes the stride for rows of `dims` values at the given lane width.
///
/// Returns `None` when the lane width is zero or the stride does not fit in
/// a machine word.
pub fn padded_width(dims: usize, lanes: usize) -> (r: Option<usize>)
    ensures
        r is Some <==> lanes > 0 && stride_spec(dims as nat, lanes as nat) <= usize::MAX,
        r is Some ==> r->0 == stride_spec(dims as nat, lanes as nat),
{
    if lanes == 0 {
        return None;
    }
    let rem: usize = dims % lanes;
    if rem == 0 {
        Some(dims)
    } else {
        dims.checked_add(lanes - rem)
    }
}

/// Offsets of row `r` inside a buffer of `rows` rows of width `stride`.
pub proof fn lemma_row_bounds(r: int, rows: int, stride: int)
    requires
        0 <= r < rows,
        0 <= stride,
    ensures
        0 <= r * stride,
        r * stride + stride == (r + 1) * stride,
        (r + 1) * stride <= rows * stride,
{
    assert(r * stride + stride == (r + 1) * stride) by (nonlinear_arith);
    assert(0 <= r * stride) by (nonlinear_arith)
        requires
            0 <= r,
            0 <= stride,
    ;
    assert((r + 1) * stride <= rows * stride) by (nonlinear_arith)
        requires
            r + 1 <= rows,
            0 <= stride,
    ;
}

/// A dense matrix stored row after row, every row `stride` values wide.
pub struct StrideBuffer<T> {
    /// The values, `rows * stride` of them.
    pub bfr: Vec<T>,
    /// Width of a row.
    pub stride: usize,
    /// Number of rows.
    pub rows: usize,
}

impl<T> View for StrideBuffer<T> {
    type V = Seq<Seq<T>>;

    /// The matrix as a sequence of rows.
    open spec fn view(&self) -> Seq<Seq<T>> {
        Seq::new(
            self.rows as nat,
            |r: int| self.bfr@.subrange(r * self.stride, r * self.stride + self.stride),
        )
    }
}

impl<T: Primitive> StrideBuffer<T> {
    /// The buffer holds exactly `rows` rows of `stride` values.
    pub open spec fn wf(&self) -> bool {
        self.bfr@.len() == self.rows * self.stride
    }

    /// Every value from column `dims` on is zero.
    pub open spec fn padded_from(&self, dims: nat) -> bool {
        forall|r: int, j: int|
            0 <= r < self.rows && dims <= j < self.stride ==> #[trigger] self@[r][j]
                == T::zero_spec()
    }

    /// Each row of a well-formed buffer is `stride` wide, and its values are
    /// those of the flat buffer at the row's offset.
    pub proof fn lemma_view(&self)
        requires
            self.wf(),
        ensures
            self@.len() == self.rows,
            forall|r: int| 0 <= r < self.rows ==> (#[trigger] self@[r]).len() == self.stride,
            forall|r: int, j: int|
                0 <= r < self.rows && 0 <= j < self.stride ==> #[trigger] self@[r][j]
                    == self.bfr@[r * self.stride + j],
    {
        assert forall|r: int| 0 <= r < self.rows implies (#[trigger] self@[r]).len()
            == self.stride && (forall|j: int|
            0 <= j < self.stride ==> self@[r][j] == self.bfr@[r * self.stride + j]) by {
            lemma_row_bounds(r, self.rows as int, self.stride as int);
        }
    }

    /// An empty buffer for rows of the given width.
    pub fn empty(stride: usize) -> (r: Self)
        ensures
            r.wf(),
            r.stride == stride,
            r.rows == 0,
            r@ == Seq::<Seq<T>>::empty(),
    {
        let r = StrideBuffer { bfr: Vec::new(), stride, rows: 0 };
        assert(r@ =~= Seq::<Seq<T>>::empty());
        r
    }

    /// A buffer of `rows` rows filled with zeros, or `None` when
    /// `rows * stride` does not fit in a machine word.
    pub fn zeroed(rows: usize, stride: usize) -> (r: Option<Self>)
        ensures
            r is Some <==> rows * stride <= usize::MAX,
            r is Some ==> {
                &&& r->0.wf()
                &&& r->0.rows == rows
                &&& r->0.stride == stride
                &&& r->0@ == Seq::new(rows as nat, |i: int| zeros::<T>(stride as nat))
            },
    {
        let total = match rows.checked_mul(stride) {
            Some(t) => t,
            None => {
                return None;
            },
        };
        let mut bfr: Vec<T> = Vec::new();
        let mut i: usize = 0;
        while i < total
            invariant
                i <= total,
                bfr@.len() == i,
                forall|j: int| 0 <= j < i ==> bfr@[j] == T::zero_spec(),
            decreases total - i,
        {
            bfr.push(T::zero());
            i += 1;
        }
        let r = StrideBuffer { bfr, stride, rows };
        proof {
            r.lemma_view();
            assert forall|q: int| 0 <= q < rows implies #[trigger] r@[q] == zeros::<T>(
                stride as nat,
            ) by {
                lemma_row_bounds(q, rows as int, stride as int);
                assert(r@[q] =~= zeros::<T>(stride as nat));
            }
            assert(r@ =~= Seq::new(rows as nat, |i: int| zeros::<T>(stride as nat)));
        }
        Some(r)
    }

    /// Row `r` as a slice.
    pub fn nth(&self, r: usize) -> (out: &[T])
        requires
            self.wf(),
            r < self.rows,
        ensures
            out@ == self@[r as int],
    {
        proof {
            lemma_row_bounds(r as int, self.rows as int, self.stride as int);
            assert(self.bfr@.len() == self.bfr.len());
        }
        let start = r * self.stride;
        vstd::slice::slice_subrange(self.bfr.as_slice(), start, start + self.stride)
    }

    /// The value in row `r`, column `j`.
    pub fn get(&self, r: usize, j: usize) -> (out: T)
        requires
            self.wf(),
            r < self.rows,
            j < self.stride,
        ensures
            out == self@[r as int][j as int],
    {
        proof {
            lemma_row_bounds(r as int, self.rows as int, self.stride as int);
            assert(self.bfr@.len() == self.bfr.len());
        }
        self.bfr[r * self.stride + j]
    }

    /// Overwrites the value in row `r`, column `j`.
    pub fn set(&mut self, r: usize, j: usize, value: T)
        requires
            old(self).wf(),
            r < old(self).rows,
            j < old(self).stride,
        ensures
            final(self).wf(),
            final(self).rows == old(self).rows,
            final(self).stride == old(self).stride,
            final(self)@ == old(self)@.update(r as int, old(self)@[r as int].update(j as int, value)),
    {
        proof {
            lemma_row_bounds(r as int, self.rows as int, self.stride as int);
            assert(self.bfr@.len() == self.bfr.len());
        }
        let idx = r * self.stride + j;
        self.bfr.set(idx, value);
        proof {
            let stride = self.stride as int;
            let before = old(self)@;
            let after = self@;
            assert forall|q: int| 0 <= q < self.rows implies #[trigger] after[q] == before.update(
                r as int,
                before[r as int].update(j as int, value),
            )[q] by {
                lemma_row_bounds(q, self.rows as int, stride);
                if q < r {
                    assert((q + 1) * stride <= r * stride) by (nonlinear_arith)
                        requires
                            q + 1 <= r,
                            0 <= stride,
                    ;
                    assert(after[q] =~= before[q]);
                } else if q > r {
                    assert((r + 1) * stride <= q * stride) by (nonlinear_arith)
                        requires
                            r + 1 <= q,
                            0 <= stride,
                    ;
                    assert(after[q] =~= before[q]);
                } else {
                    assert(after[q] =~= before[r as int].update(j as int, value));
                }
            }
            assert(after =~= before.update(r as int, before[r as int].update(j as int, value)));
        }
    }

    /// Appends one row: the first `dims` values of `values`, then zeros up
    /// to the stride.
    pub fn push_row(&mut self, values: &[T], dims: usize)
        requires
            old(self).wf(),
            dims <= values@.len(),
            dims <= old(self).stride,
            old(self).rows < usize::MAX,
            (old(self).rows + 1) * old(self).stride <= usize::MAX,
        ensures
            final(self).wf(),
            final(self).rows == old(self).rows + 1,
            final(self).stride == old(self).stride,
            final(self)@ == old(self)@.push(
                values@.take(dims as int) + zeros::<T>((old(self).stride - dims) as nat),
            ),
    {
        let ghost start = self.bfr@;
        let stride = self.stride;
        let mut j: usize = 0;
        proof {
            lemma_row_bounds(self.rows as int, self.rows + 1, stride as int);
        }
        while j < dims
            invariant
                j <= dims <= stride,
                dims <= values@.len(),
                self.stride == stride,
                self.rows == old(self).rows,
                start.len() + stride <= usize::MAX,
                self.bfr@ == start + values@.take(j as int),
            decreases dims - j,
        {
            self.bfr.push(values[j]);
            proof {
                assert(self.bfr@ =~= start + values@.take(j + 1));
            }
            j += 1;
        }
        while j < stride
            invariant
                dims <= j <= stride,
                self.stride == stride,
                self.rows == old(self).rows,
                start.len() + stride <= usize::MAX,
                self.bfr@ == start + values@.take(dims as int) + zeros::<T>((j - dims) as nat),
            decreases stride - j,
        {
            self.bfr.push(T::zero());
            proof {
                assert(self.bfr@ =~= start + values@.take(dims as int) + zeros::<T>(
                    (j + 1 - dims) as nat,
                ));
            }
            j += 1;
        }
        self.rows = self.rows + 1;
        proof {
            let row = values@.take(dims as int) + zeros::<T>((stride - dims) as nat);
            let before = old(self)@;
            let after = self@;
            assert forall|q: int| 0 <= q < self.rows implies #[trigger] after[q] == before.push(
                row,
            )[q] by {
                lemma_row_bounds(q, self.rows as int, stride as int);
                if q < old(self).rows {
                    lemma_row_bounds(q, old(self).rows as int, stride as int);
                    assert(after[q] =~= before[q]);
                } else {
                    assert(after[q] =~= row);
                }
            }
            assert(after =~= before.push(row));
        }
    }

    /// Overwrites row `r` with the first `dims` values of `values`, followed
    /// by zeros up to the stride.
    pub fn set_nth(&mut self, r: usize, values: &[T], dims: usize)
        requires
            old(self).wf(),
            r < old(self).rows,
            dims <= values@.len(),
            dims <= old(self).stride,
        ensures
            final(self).wf(),
            final(self).rows == old(self).rows,
            final(self).stride == old(self).stride,
            final(self)@ == old(self)@.update(
                r as int,
                values@.take(dims as int) + zeros::<T>((old(self).stride - dims) as nat),
            ),
    {
        let stride = self.stride;
        let ghost target = values@.take(dims as int) + zeros::<T>((stride - dims) as nat);
        let mut j: usize = 0;
        proof {
            self.lemma_view();
        }
        while j < stride
            invariant
                j <= stride,
                dims <= stride,
                dims <= values@.len(),
                r < self.rows,
                self.wf(),
                self.stride == stride,
                self.rows == old(self).rows,
                target == values@.take(dims as int) + zeros::<T>((stride - dims) as nat),
                self@.len() == old(self)@.len(),
                forall|q: int| 0 <= q < self.rows && q != r ==> self@[q] == old(self)@[q],
                self@[r as int].len() == stride,
                forall|i: int| 0 <= i < j ==> self@[r as int][i] == target[i],
            decreases stride - j,
        {
            let value = if j < dims {
                values[j]
            } else {
                T::zero()
            };
            let ghost prev = self@;
            self.set(r, j, value);
            proof {
                assert(prev[r as int].update(j as int, value).len() == stride);
            }
            j += 1;
        }
        proof {
            assert(self@[r as int] =~= target);
            assert(self@ =~= old(self)@.update(r as int, target));
        }
    }
}

/// The rows of a sequence of blocks, block after block.
pub open spec fn block_rows<T>(blocks: Seq<StrideBuffer<T>>) -> Seq<Seq<T>>
    decreases blocks.len(),
{
    if blocks.len() == 0 {
        Seq::empty()
    } else {
        block_rows(blocks.drop_last()) + blocks.last()@
    }
}

/// Row `i` of a flat `dims`-wide matrix, padded with zeros to `stride` values.
pub open spec fn padded_row<T: Primitive>(samples: Seq<T>, i: int, dims: nat, stride: nat) -> Seq<
    T,
> {
    samples.subrange(i * dims, i * dims + dims) + zeros::<T>((stride - dims) as nat)
}

} // verus!
