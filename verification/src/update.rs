//! The update phase: frequencies and centroid means from the assignments.

use crate::api::{consistent, count_of, lemma_block_row_at, lemma_block_rows_prefix};
use crate::api::lemma_block_rows_take;
use crate::api::{frequencies_of, lemma_consistent_frequencies};
use crate::api::{lemma_count_bound, lemma_count_push};
use crate::api::{DistanceFunction, KMeans, KMeansState};
use crate::distances::sum_spec;
use crate::memory::{block_rows, Primitive, StrideBuffer};
use rayon::iter::{IndexedParallelIterator, IntoParallelRefIterator, ParallelIterator};
use vstd::prelude::*;

verus! {

/// What one value adds to the sum of cluster `c`: the value itself, or,
/// where divisors are given, the value divided by the cluster's divisor.
pub open spec fn term<T: Primitive>(value: T, divisors: Option<Seq<T>>, c: int) -> T {
    match divisors {
        Some(w) => value.divide_spec(w[c]),
        None => value,
    }
}

/// `init` and, added to it in row order, what those of the first `n` rows
/// that are assigned to cluster `c` add to dimension `d`.
pub open spec fn cluster_sum_from<T: Primitive>(
    init: T,
    rows: Seq<Seq<T>>,
    assignments: Seq<usize>,
    divisors: Option<Seq<T>>,
    c: int,
    d: int,
    n: nat,
) -> T
    decreases n,
{
    if n == 0 {
        init
    } else {
        let before = cluster_sum_from(init, rows, assignments, divisors, c, d, (n - 1) as nat);
        if assignments[n - 1] == c {
            before.plus_spec(term(rows[n - 1][d], divisors, c))
        } else {
            before
        }
    }
}

/// The sum, in row order and starting from zero, of what the first `n`
/// rows add to dimension `d` of cluster `c`.
pub open spec fn cluster_sum<T: Primitive>(
    rows: Seq<Seq<T>>,
    assignments: Seq<usize>,
    divisors: Option<Seq<T>>,
    c: int,
    d: int,
    n: nat,
) -> T {
    cluster_sum_from(T::zero_spec(), rows, assignments, divisors, c, d, n)
}

/// Summing the first `start` rows and going on from there through the
/// next `n` rows is summing the first `start + n` rows.
pub proof fn lemma_cluster_sum_continues<T: Primitive>(
    rows: Seq<Seq<T>>,
    assignments: Seq<usize>,
    divisors: Option<Seq<T>>,
    c: int,
    d: int,
    start: nat,
    m: nat,
    n: nat,
)
    requires
        n <= m,
        start + m <= rows.len(),
        start + m <= assignments.len(),
    ensures
        cluster_sum_from(
            cluster_sum(rows, assignments, divisors, c, d, start),
            rows.subrange(start as int, (start + m) as int),
            assignments.subrange(start as int, (start + m) as int),
            divisors,
            c,
            d,
            n,
        ) == cluster_sum(rows, assignments, divisors, c, d, start + n),
    decreases n,
{
    if n > 0 {
        lemma_cluster_sum_continues(rows, assignments, divisors, c, d, start, m, (n - 1) as nat);
    }
}

/// The divisors as a sequence, where there are any.
pub open spec fn divisors_view<T>(divisors: Option<&Vec<T>>) -> Option<Seq<T>> {
    match divisors {
        Some(w) => Some(w@),
        None => None,
    }
}

/// The assignments of the rows of block `b`.
pub open spec fn block_part<T>(blocks: Seq<StrideBuffer<T>>, assignments: Seq<usize>, b: int) -> Seq<
    usize,
> {
    assignments.subrange(
        block_rows(blocks.take(b)).len() as int,
        block_rows(blocks.take(b + 1)).len() as int,
    )
}

/// The sum that block `b` works out on its own for dimension `d` of
/// cluster `c`: its rows of that cluster, added up in order from zero.
pub open spec fn block_sum<T: Primitive>(
    blocks: Seq<StrideBuffer<T>>,
    assignments: Seq<usize>,
    b: int,
    c: int,
    d: int,
) -> T {
    cluster_sum(blocks[b]@, block_part(blocks, assignments, b), None, c, d, blocks[b]@.len())
}

/// The sum of all samples of cluster `c` in dimension `d`: the sums of
/// the blocks, added up in block order from zero.
pub open spec fn merged_sum<T: Primitive>(
    blocks: Seq<StrideBuffer<T>>,
    assignments: Seq<usize>,
    c: int,
    d: int,
) -> T {
    sum_spec(Seq::new(blocks.len(), |b: int| block_sum(blocks, assignments, b, c, d)))
}

/// The centroids after an update: a cluster without samples keeps its
/// centroid; any other centroid becomes, in each of the `dims` dimensions,
/// the sum of its samples divided by their number. Padding stays as it was.
pub open spec fn updated_centroids<T: Primitive>(
    blocks: Seq<StrideBuffer<T>>,
    assignments: Seq<usize>,
    centroids: Seq<Seq<T>>,
    dims: nat,
) -> Seq<Seq<T>> {
    Seq::new(
        centroids.len(),
        |c: int|
            if count_of(assignments, c as usize) == 0 {
                centroids[c]
            } else {
                Seq::new(
                    centroids[c].len(),
                    |d: int|
                        if d < dims {
                            merged_sum(blocks, assignments, c, d).divide_spec(
                                T::from_count_spec(count_of(assignments, c as usize) as usize),
                            )
                        } else {
                            centroids[c][d]
                        },
                )
            },
    )
}

/// Counts the samples of each of `k` clusters.
pub fn tally(assignments: &Vec<usize>, k: usize) -> (frequency: Vec<usize>)
    requires
        forall|i: int| 0 <= i < assignments@.len() ==> #[trigger] assignments@[i] < k,
    ensures
        consistent(assignments@, frequency@, k as nat),
{
    let mut frequency: Vec<usize> = Vec::new();
    let mut c: usize = 0;
    while c < k
        invariant
            c <= k,
            frequency@.len() == c,
            forall|q: int| 0 <= q < c ==> frequency@[q] == 0,
        decreases k - c,
    {
        frequency.push(0usize);
        c += 1;
    }
    let mut i: usize = 0;
    while i < assignments.len()
        invariant
            i <= assignments@.len(),
            frequency@.len() == k,
            forall|q: int| 0 <= q < assignments@.len() ==> #[trigger] assignments@[q] < k,
            forall|q: int|
                0 <= q < k ==> #[trigger] frequency@[q] == count_of(
                    assignments@.take(i as int),
                    q as usize,
                ),
        decreases assignments@.len() - i,
    {
        let a = assignments[i];
        proof {
            let before = assignments@.take(i as int);
            assert(assignments@.take(i + 1) =~= before.push(a));
            lemma_count_bound(before, a);
            assert forall|q: usize| q < k implies #[trigger] count_of(before.push(a), q)
                == count_of(before, q) + if a == q {
                1nat
            } else {
                0nat
            } by {
                lemma_count_push(before, a, q);
            }
        }
        let raised = frequency[a] + 1;
        frequency.set(a, raised);
        i += 1;
    }
    proof {
        assert(assignments@.take(i as int) =~= assignments@);
    }
    frequency
}

/// Adds every row of the block into the row of `sums` that belongs to the
/// cluster of the row, in row order; with divisors, each value is first
/// divided by the divisor of its cluster.
pub fn add_block<T: Primitive>(
    sums: &mut StrideBuffer<T>,
    block: &StrideBuffer<T>,
    part: &[usize],
    divisors: Option<&Vec<T>>,
    dims: usize,
)
    requires
        old(sums).wf(),
        block.wf(),
        block.stride == old(sums).stride,
        dims <= block.stride,
        part@.len() == block.rows,
        forall|i: int| 0 <= i < part@.len() ==> #[trigger] part@[i] < old(sums).rows,
        divisors matches Some(w) ==> w@.len() == old(sums).rows,
    ensures
        final(sums).wf(),
        final(sums).rows == old(sums).rows,
        final(sums).stride == old(sums).stride,
        forall|c: int, d: int|
            0 <= c < old(sums).rows && 0 <= d < old(sums).stride ==> #[trigger] final(sums)@[c][d]
                == if d < dims {
                cluster_sum_from(
                    old(sums)@[c][d],
                    block@,
                    part@,
                    divisors_view(divisors),
                    c,
                    d,
                    block.rows as nat,
                )
            } else {
                old(sums)@[c][d]
            },
{
    let k = sums.rows;
    let stride = sums.stride;
    let ghost weights = divisors_view(divisors);
    let ghost start = sums@;
    proof {
        sums.lemma_view();
        block.lemma_view();
    }
    let mut j: usize = 0;
    while j < block.rows
        invariant
            block.wf(),
            block.stride == stride,
            dims <= stride,
            part@.len() == block.rows,
            forall|i: int| 0 <= i < part@.len() ==> #[trigger] part@[i] < k,
            weights == divisors_view(divisors),
            divisors matches Some(w) ==> w@.len() == k,
            forall|q: int| 0 <= q < block.rows ==> (#[trigger] block@[q]).len() == stride,
            j <= block.rows,
            sums.wf(),
            sums.rows == k,
            sums.stride == stride,
            start.len() == k,
            forall|c: int| 0 <= c < k ==> (#[trigger] start[c]).len() == stride,
            forall|c: int, d: int|
                0 <= c < k && 0 <= d < stride ==> #[trigger] sums@[c][d] == if d < dims {
                    cluster_sum_from(start[c][d], block@, part@, weights, c, d, j as nat)
                } else {
                    start[c][d]
                },
        decreases block.rows - j,
    {
        let c = part[j];
        let row = block.nth(j);
        let mut d: usize = 0;
        while d < dims
            invariant
                d <= dims <= stride,
                c < k,
                c == part@[j as int],
                j < part@.len(),
                row@ == block@[j as int],
                row@.len() == stride,
                weights == divisors_view(divisors),
                divisors matches Some(w) ==> w@.len() == k,
                sums.wf(),
                sums.rows == k,
                sums.stride == stride,
                forall|cc: int, dd: int|
                    0 <= cc < k && 0 <= dd < stride ==> #[trigger] sums@[cc][dd] == if dd < dims {
                        cluster_sum_from(
                            start[cc][dd],
                            block@,
                            part@,
                            weights,
                            cc,
                            dd,
                            if cc == c && dd < d {
                                (j + 1) as nat
                            } else {
                                j as nat
                            },
                        )
                    } else {
                        start[cc][dd]
                    },
            decreases dims - d,
        {
            let value = match divisors {
                Some(w) => row[d].divide(w[c]),
                None => row[d],
            };
            let sum = sums.get(c, d).plus(value);
            proof {
                sums.lemma_view();
            }
            sums.set(c, d, sum);
            proof {
                sums.lemma_view();
            }
            d += 1;
        }
        j += 1;
    }
}

/// Adds every sample into the row of its cluster, in sample order and
/// starting from zero; with divisors, each value is first divided by the
/// divisor of its cluster.
pub fn accumulate<T: Primitive, D: DistanceFunction<T>>(
    kmean: &KMeans<T, D>,
    assignments: &Vec<usize>,
    k: usize,
    divisors: Option<&Vec<T>>,
) -> (sums: StrideBuffer<T>)
    requires
        kmean.wf(),
        0 < k <= kmean.sample_cnt,
        assignments@.len() == kmean.sample_cnt,
        forall|i: int| 0 <= i < assignments@.len() ==> #[trigger] assignments@[i] < k,
        divisors matches Some(w) ==> w@.len() == k,
    ensures
        sums.wf(),
        sums.rows == k,
        sums.stride == kmean.stride,
        sums.padded_from(kmean.sample_dims as nat),
        forall|c: int, d: int|
            0 <= c < k && 0 <= d < kmean.sample_dims ==> #[trigger] sums@[c][d] == cluster_sum(
                kmean.rows(),
                assignments@,
                divisors_view(divisors),
                c,
                d,
                kmean.sample_cnt as nat,
            ),
{
    proof {
        assert(k * kmean.stride <= kmean.sample_cnt * kmean.stride) by (nonlinear_arith)
            requires
                k <= kmean.sample_cnt,
                0 <= kmean.stride,
        ;
    }
    let mut sums = match StrideBuffer::<T>::zeroed(k, kmean.stride) {
        Some(s) => s,
        None => {
            assert(false);
            StrideBuffer::empty(kmean.stride)
        },
    };
    let dims = kmean.sample_dims;
    let ghost rows = kmean.rows();
    let ghost weights = divisors_view(divisors);
    let mut start: usize = 0;
    let mut b: usize = 0;
    proof {
        sums.lemma_view();
    }
    while b < kmean.p_samples.len()
        invariant
            kmean.wf(),
            0 < k <= kmean.sample_cnt,
            dims == kmean.sample_dims,
            rows == kmean.rows(),
            weights == divisors_view(divisors),
            assignments@.len() == kmean.sample_cnt,
            forall|i: int| 0 <= i < assignments@.len() ==> #[trigger] assignments@[i] < k,
            divisors matches Some(w) ==> w@.len() == k,
            b <= kmean.p_samples@.len(),
            start == block_rows(kmean.p_samples@.take(b as int)).len(),
            start <= kmean.sample_cnt,
            sums.wf(),
            sums.rows == k,
            sums.stride == kmean.stride,
            forall|c: int, d: int|
                0 <= c < k && 0 <= d < kmean.stride ==> #[trigger] sums@[c][d] == if d < dims {
                    cluster_sum(rows, assignments@, weights, c, d, start as nat)
                } else {
                    T::zero_spec()
                },
        decreases kmean.p_samples@.len() - b,
    {
        let block = &kmean.p_samples[b];
        proof {
            lemma_block_rows_take(kmean.p_samples@, b as int);
            lemma_block_rows_prefix(kmean.p_samples@, b + 1);
            sums.lemma_view();
        }
        let part = vstd::slice::slice_subrange(
            assignments.as_slice(),
            start,
            start + block.rows,
        );
        let ghost before = sums@;
        add_block(&mut sums, block, part, divisors, dims);
        proof {
            let upto = block_rows(kmean.p_samples@.take(b + 1));
            assert(rows.subrange(start as int, start + block.rows) =~= block@) by {
                assert forall|i: int| 0 <= i < block.rows implies rows[start + i] == block@[i] by {
                    lemma_block_row_at(kmean.p_samples@, b as int, i);
                }
            }
            assert forall|c: int, d: int| 0 <= c < k && 0 <= d < dims implies #[trigger] sums@[c][d]
                == cluster_sum(rows, assignments@, weights, c, d, (start + block.rows) as nat) by {
                lemma_cluster_sum_continues(
                    rows,
                    assignments@,
                    weights,
                    c,
                    d,
                    start as nat,
                    block.rows as nat,
                    block.rows as nat,
                );
            }
        }
        start = start + block.rows;
        b += 1;
    }
    proof {
        assert(kmean.p_samples@.take(b as int) =~= kmean.p_samples@);
        sums.lemma_view();
    }
    sums
}

/// The assignments of each block's rows, as slices of all assignments.
pub fn split<'a, T: Primitive, D: DistanceFunction<T>>(
    kmean: &KMeans<T, D>,
    assignments: &'a Vec<usize>,
) -> (parts: Vec<&'a [usize]>)
    requires
        kmean.wf(),
        assignments@.len() == kmean.sample_cnt,
    ensures
        parts@.len() == kmean.p_samples@.len(),
        forall|b: int|
            0 <= b < parts@.len() ==> (#[trigger] parts@[b])@ == block_part(
                kmean.p_samples@,
                assignments@,
                b,
            ),
{
    let mut parts: Vec<&'a [usize]> = Vec::new();
    let mut start: usize = 0;
    let mut b: usize = 0;
    while b < kmean.p_samples.len()
        invariant
            kmean.wf(),
            assignments@.len() == kmean.sample_cnt,
            b <= kmean.p_samples@.len(),
            start == block_rows(kmean.p_samples@.take(b as int)).len(),
            start <= kmean.sample_cnt,
            parts@.len() == b,
            forall|q: int|
                0 <= q < b ==> (#[trigger] parts@[q])@ == block_part(
                    kmean.p_samples@,
                    assignments@,
                    q,
                ),
        decreases kmean.p_samples@.len() - b,
    {
        let rows = kmean.p_samples[b].rows;
        proof {
            lemma_block_rows_take(kmean.p_samples@, b as int);
            lemma_block_rows_prefix(kmean.p_samples@, b + 1);
        }
        let part = vstd::slice::slice_subrange(assignments.as_slice(), start, start + rows);
        parts.push(part);
        start = start + rows;
        b += 1;
    }
    parts
}

/// The sums that one block works out on its own: every row added into
/// the row of its cluster, in order and starting from zero.
pub fn sum_block<T: Primitive>(block: &StrideBuffer<T>, part: &[usize], k: usize, dims: usize) -> (sums:
    StrideBuffer<T>)
    requires
        block.wf(),
        dims <= block.stride,
        k * block.stride <= usize::MAX,
        part@.len() == block.rows,
        forall|i: int| 0 <= i < part@.len() ==> #[trigger] part@[i] < k,
    ensures
        sums.wf(),
        sums.rows == k,
        sums.stride == block.stride,
        forall|c: int, d: int|
            0 <= c < k && 0 <= d < block.stride ==> #[trigger] sums@[c][d] == if d < dims {
                cluster_sum(block@, part@, None, c, d, block.rows as nat)
            } else {
                T::zero_spec()
            },
{
    let mut sums = match StrideBuffer::<T>::zeroed(k, block.stride) {
        Some(s) => s,
        None => {
            assert(false);
            StrideBuffer::empty(block.stride)
        },
    };
    proof {
        sums.lemma_view();
    }
    add_block(&mut sums, block, part, None, dims);
    sums
}

/// Runs [`sum_block`] on every block with its part of the assignments,
/// the blocks spread over the worker threads of rayon's global pool
/// (`par_iter().zip(..).map(..).collect()`).
///
/// Trusted: rayon pairs block `b` with part `b`, hands every pair to the
/// closure exactly once and collects the results in the order of the
/// blocks, so that result `b` is what [`sum_block`] returns for block `b`.
/// The call panics only where the thread pool cannot be started.
#[verifier::external_body]
fn sum_blocks<T: Primitive>(
    blocks: &Vec<StrideBuffer<T>>,
    parts: &Vec<&[usize]>,
    k: usize,
    dims: usize,
) -> (r: Vec<StrideBuffer<T>>)
    requires
        parts@.len() == blocks@.len(),
        forall|b: int|
            0 <= b < blocks@.len() ==> {
                &&& (#[trigger] blocks@[b]).wf()
                &&& dims <= blocks@[b].stride
                &&& k * blocks@[b].stride <= usize::MAX
                &&& parts@[b]@.len() == blocks@[b].rows
                &&& forall|i: int| 0 <= i < parts@[b]@.len() ==> #[trigger] parts@[b]@[i] < k
            },
    ensures
        r@.len() == blocks@.len(),
        forall|b: int|
            0 <= b < blocks@.len() ==> {
                &&& (#[trigger] r@[b]).wf()
                &&& r@[b].rows == k
                &&& r@[b].stride == blocks@[b].stride
                &&& forall|c: int, d: int|
                    0 <= c < k && 0 <= d < blocks@[b].stride ==> #[trigger] r@[b]@[c][d] == if d
                        < dims {
                        cluster_sum(blocks@[b]@, parts@[b]@, None, c, d, blocks@[b].rows as nat)
                    } else {
                        T::zero_spec()
                    }
            },
{
    blocks.par_iter().zip(parts.par_iter()).map(|(block, part)| sum_block(block, part, k, dims)).collect()
}

/// Adds up the sums of the blocks, value by value, in block order and
/// starting from zero.
pub fn merge<T: Primitive>(partials: &Vec<StrideBuffer<T>>, k: usize, stride: usize, dims: usize) -> (sums:
    StrideBuffer<T>)
    requires
        dims <= stride,
        k * stride <= usize::MAX,
        forall|b: int|
            0 <= b < partials@.len() ==> (#[trigger] partials@[b]).wf() && partials@[b].rows == k
                && partials@[b].stride == stride,
    ensures
        sums.wf(),
        sums.rows == k,
        sums.stride == stride,
        forall|c: int, d: int|
            0 <= c < k && 0 <= d < stride ==> #[trigger] sums@[c][d] == if d < dims {
                sum_spec(Seq::new(partials@.len(), |b: int| partials@[b]@[c][d]))
            } else {
                T::zero_spec()
            },
{
    let mut sums = match StrideBuffer::<T>::zeroed(k, stride) {
        Some(s) => s,
        None => {
            assert(false);
            StrideBuffer::empty(stride)
        },
    };
    proof {
        sums.lemma_view();
    }
    let mut b: usize = 0;
    while b < partials.len()
        invariant
            dims <= stride,
            b <= partials@.len(),
            forall|q: int|
                0 <= q < partials@.len() ==> (#[trigger] partials@[q]).wf() && partials@[q].rows
                    == k && partials@[q].stride == stride,
            sums.wf(),
            sums.rows == k,
            sums.stride == stride,
            forall|c: int, d: int|
                0 <= c < k && 0 <= d < stride ==> #[trigger] sums@[c][d] == if d < dims {
                    sum_spec(Seq::new(b as nat, |q: int| partials@[q]@[c][d]))
                } else {
                    T::zero_spec()
                },
        decreases partials@.len() - b,
    {
        let partial = &partials[b];
        let ghost before = sums@;
        let mut c: usize = 0;
        proof {
            sums.lemma_view();
        }
        while c < k
            invariant
                dims <= stride,
                c <= k,
                partial.wf(),
                partial.rows == k,
                partial.stride == stride,
                sums.wf(),
                sums.rows == k,
                sums.stride == stride,
                before.len() == k,
                forall|cc: int| 0 <= cc < k ==> (#[trigger] before[cc]).len() == stride,
                forall|cc: int, d: int|
                    0 <= cc < k && 0 <= d < stride ==> #[trigger] sums@[cc][d] == if cc < c && d
                        < dims {
                        before[cc][d].plus_spec(partial@[cc][d])
                    } else {
                        before[cc][d]
                    },
            decreases k - c,
        {
            let mut d: usize = 0;
            while d < dims
                invariant
                    d <= dims <= stride,
                    c < k,
                    partial.wf(),
                    partial.rows == k,
                    partial.stride == stride,
                    sums.wf(),
                    sums.rows == k,
                    sums.stride == stride,
                    before.len() == k,
                    forall|cc: int| 0 <= cc < k ==> (#[trigger] before[cc]).len() == stride,
                    forall|cc: int, dd: int|
                        0 <= cc < k && 0 <= dd < stride ==> #[trigger] sums@[cc][dd] == if (cc < c
                            && dd < dims) || (cc == c && dd < d) {
                            before[cc][dd].plus_spec(partial@[cc][dd])
                        } else {
                            before[cc][dd]
                        },
                decreases dims - d,
            {
                let sum = sums.get(c, d).plus(partial.get(c, d));
                proof {
                    sums.lemma_view();
                }
                sums.set(c, d, sum);
                proof {
                    sums.lemma_view();
                }
                d += 1;
            }
            c += 1;
        }
        proof {
            assert forall|cc: int, d: int| 0 <= cc < k && 0 <= d < dims implies #[trigger] sums@[cc][d]
                == sum_spec(Seq::new((b + 1) as nat, |q: int| partials@[q]@[cc][d])) by {
                let longer = Seq::new((b + 1) as nat, |q: int| partials@[q]@[cc][d]);
                let shorter = Seq::new(b as nat, |q: int| partials@[q]@[cc][d]);
                assert(longer.drop_last() =~= shorter);
                assert(longer.last() == partial@[cc][d]);
            }
        }
        b += 1;
    }
    sums
}

/// Sums up the samples of every cluster: the blocks sum up their samples
/// in parallel, and the sums of the blocks are merged in block order.
pub fn merged_sums<T: Primitive, D: DistanceFunction<T>>(
    kmean: &KMeans<T, D>,
    assignments: &Vec<usize>,
    k: usize,
) -> (sums: StrideBuffer<T>)
    requires
        kmean.wf(),
        0 < k <= kmean.sample_cnt,
        assignments@.len() == kmean.sample_cnt,
        forall|i: int| 0 <= i < assignments@.len() ==> #[trigger] assignments@[i] < k,
    ensures
        sums.wf(),
        sums.rows == k,
        sums.stride == kmean.stride,
        forall|c: int, d: int|
            0 <= c < k && 0 <= d < kmean.stride ==> #[trigger] sums@[c][d] == if d
                < kmean.sample_dims {
                merged_sum(kmean.p_samples@, assignments@, c, d)
            } else {
                T::zero_spec()
            },
{
    let dims = kmean.sample_dims;
    let stride = kmean.stride;
    proof {
        assert(k * stride <= kmean.sample_cnt * stride) by (nonlinear_arith)
            requires
                k <= kmean.sample_cnt,
                0 <= stride,
        ;
    }
    let parts = split(kmean, assignments);
    proof {
        assert forall|b: int| 0 <= b < kmean.p_samples@.len() implies parts@[b]@.len()
            == (#[trigger] kmean.p_samples@[b]).rows && (forall|i: int|
            0 <= i < parts@[b]@.len() ==> #[trigger] parts@[b]@[i] < k) by {
            lemma_block_rows_take(kmean.p_samples@, b);
            lemma_block_rows_prefix(kmean.p_samples@, b + 1);
        }
    }
    let partials = sum_blocks(&kmean.p_samples, &parts, k, dims);
    let sums = merge(&partials, k, stride, dims);
    proof {
        assert forall|c: int, d: int| 0 <= c < k && 0 <= d < dims implies #[trigger] sums@[c][d]
            == merged_sum(kmean.p_samples@, assignments@, c, d) by {
            let ours = Seq::new(partials@.len(), |b: int| partials@[b]@[c][d]);
            let theirs = Seq::new(
                kmean.p_samples@.len(),
                |b: int| block_sum(kmean.p_samples@, assignments@, b, c, d),
            );
            assert forall|b: int| 0 <= b < ours.len() implies ours[b] == theirs[b] by {
                assert(partials@[b].wf());
                assert(parts@[b]@ == block_part(kmean.p_samples@, assignments@, b));
                assert(kmean.p_samples@[b]@.len() == kmean.p_samples@[b].rows);
            }
            assert(ours =~= theirs);
        }
    }
    sums
}

/// Counts the samples of every cluster anew and moves every centroid that
/// has samples to the mean of its samples.
///
/// The frequencies that the state holds on entry are not read.
pub fn update_centroids<T: Primitive, D: DistanceFunction<T>>(
    kmean: &KMeans<T, D>,
    state: &mut KMeansState<T>,
)
    requires
        kmean.wf(),
        0 < old(state).k <= kmean.sample_cnt,
        old(state).centroids_fit(kmean),
        old(state).assignments@.len() == kmean.sample_cnt,
        forall|i: int|
            0 <= i < old(state).assignments@.len() ==> #[trigger] old(state).assignments@[i] < old(
                state,
            ).k,
    ensures
        final(state).wf(kmean),
        final(state)@.k == old(state)@.k,
        final(state)@.distsum == old(state)@.distsum,
        final(state)@.assignments == old(state)@.assignments,
        final(state)@.frequency == frequencies_of(old(state)@.assignments, old(state)@.k),
        final(state)@.centroids == updated_centroids(
            kmean.p_samples@,
            old(state)@.assignments,
            old(state)@.centroids,
            kmean.sample_dims as nat,
        ),
{
    let k = state.k;
    let dims = kmean.sample_dims;
    state.centroid_frequency = tally(&state.assignments, k);
    proof {
        lemma_consistent_frequencies(state.assignments@, state.centroid_frequency@, k as nat);
    }
    let sums = merged_sums(kmean, &state.assignments, k);
    let ghost target = updated_centroids(
        kmean.p_samples@,
        state.assignments@,
        state.centroids@,
        dims as nat,
    );
    proof {
        state.centroids.lemma_view();
    }
    let mut c: usize = 0;
    while c < k
        invariant
            c <= k,
            k == state.k,
            dims == kmean.sample_dims,
            0 < dims <= kmean.stride,
            state.k == old(state).k,
            state.distsum == old(state).distsum,
            state.assignments == old(state).assignments,
            state.centroid_frequency@ == frequencies_of(old(state).assignments@, k as nat),
            consistent(state.assignments@, state.centroid_frequency@, k as nat),
            state.centroids.wf(),
            state.centroids.rows == k,
            state.centroids.stride == kmean.stride,
            old(state).centroids.wf(),
            old(state).centroids.rows == k,
            old(state).centroids.stride == kmean.stride,
            old(state).centroids.padded_from(dims as nat),
            sums.wf(),
            sums.rows == k,
            sums.stride == kmean.stride,
            forall|cc: int, dd: int|
                0 <= cc < k && 0 <= dd < dims ==> #[trigger] sums@[cc][dd] == merged_sum(
                    kmean.p_samples@,
                    state.assignments@,
                    cc,
                    dd,
                ),
            target == updated_centroids(
                kmean.p_samples@,
                old(state).assignments@,
                old(state).centroids@,
                dims as nat,
            ),
            state.centroids@.len() == k,
            forall|cc: int| 0 <= cc < c ==> #[trigger] state.centroids@[cc] == target[cc],
            forall|cc: int| c <= cc < k ==> #[trigger] state.centroids@[cc] == old(state).centroids@[cc],
        decreases k - c,
    {
        let members = state.centroid_frequency[c];
        proof {
            old(state).centroids.lemma_view();
        }
        if members > 0 {
            let divisor = T::from_count(members);
            let mut d: usize = 0;
            while d < dims
                invariant
                    d <= dims <= kmean.stride,
                    c < k,
                    k == state.k,
                    members == count_of(old(state).assignments@, c),
                    members > 0,
                    divisor == T::from_count_spec(members),
                    state.k == old(state).k,
                    state.distsum == old(state).distsum,
                    state.assignments == old(state).assignments,
                    state.centroid_frequency@ == frequencies_of(
                        old(state).assignments@,
                        k as nat,
                    ),
                    state.centroids.wf(),
                    state.centroids.rows == k,
                    state.centroids.stride == kmean.stride,
                    old(state).centroids@.len() == k,
                    old(state).centroids@[c as int].len() == kmean.stride,
                    sums.wf(),
                    sums.rows == k,
                    sums.stride == kmean.stride,
                    forall|cc: int, dd: int|
                        0 <= cc < k && 0 <= dd < dims ==> #[trigger] sums@[cc][dd] == merged_sum(
                            kmean.p_samples@,
                            state.assignments@,
                            cc,
                            dd,
                        ),
                    target == updated_centroids(
                        kmean.p_samples@,
                        old(state).assignments@,
                        old(state).centroids@,
                        dims as nat,
                    ),
                    state.centroids@.len() == k,
                    forall|cc: int| 0 <= cc < c ==> #[trigger] state.centroids@[cc] == target[cc],
                    forall|cc: int|
                        c < cc < k ==> #[trigger] state.centroids@[cc] == old(state).centroids@[cc],
                    state.centroids@[c as int].len() == kmean.stride,
                    forall|dd: int| 0 <= dd < d ==> state.centroids@[c as int][dd] == target[c as int][dd],
                    forall|dd: int|
                        d <= dd < kmean.stride ==> state.centroids@[c as int][dd] == old(
                            state,
                        ).centroids@[c as int][dd],
                decreases dims - d,
            {
                let mean = sums.get(c, d).divide(divisor);
                state.centroids.set(c, d, mean);
                d += 1;
            }
            proof {
                assert(state.centroids@[c as int] =~= target[c as int]);
            }
        }
        c += 1;
    }
    proof {
        assert(state.centroids@ =~= target);
        state.centroids.lemma_view();
        assert(state.centroids.padded_from(dims as nat)) by {
            assert forall|r: int, j: int|
                0 <= r < state.centroids.rows && dims <= j < state.centroids.stride implies #[trigger] state.centroids@[r][j]
                == T::zero_spec() by {
                assert(old(state).centroids@[r][j] == T::zero_spec());
            }
        }
    }
}

} // verus!
