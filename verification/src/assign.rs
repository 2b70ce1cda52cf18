//! The assignment phase: every sample goes to its nearest centroid.

use crate::api::{lemma_block_rows_take, DistanceFunction, KMeans};
use crate::distances::sum_spec;
use crate::memory::{block_rows, Primitive, StrideBuffer};
use rayon::iter::{IntoParallelRefIterator, ParallelIterator};
use vstd::prelude::*;

verus! {

/// The nearest of the first `n` centroids to `row`; among equally near
/// centroids the one with the lowest index.
pub open spec fn nearest_spec<T: Primitive, D: DistanceFunction<T>>(
    dist: &D,
    row: Seq<T>,
    centroids: Seq<Seq<T>>,
    n: nat,
) -> nat
    decreases n,
{
    if n <= 1 {
        0
    } else {
        let best = nearest_spec(dist, row, centroids, (n - 1) as nat);
        if dist.distance_spec(row, centroids[n - 1]).less_spec(
            dist.distance_spec(row, centroids[best as int]),
        ) {
            (n - 1) as nat
        } else {
            best
        }
    }
}

/// The distance from `row` to the nearest of the first `n` centroids.
pub open spec fn nearest_distance<T: Primitive, D: DistanceFunction<T>>(
    dist: &D,
    row: Seq<T>,
    centroids: Seq<Seq<T>>,
    n: nat,
) -> T {
    dist.distance_spec(row, centroids[nearest_spec(dist, row, centroids, n) as int])
}

/// The distances from `row` to each of the first `n` centroids are all finite.
pub open spec fn distances_finite<T: Primitive, D: DistanceFunction<T>>(
    dist: &D,
    row: Seq<T>,
    centroids: Seq<Seq<T>>,
    n: nat,
) -> bool {
    forall|c: int| 0 <= c < n ==> (#[trigger] dist.distance_spec(row, centroids[c])).is_finite_spec()
}

/// The nearest centroid of every row.
pub open spec fn assign_rows<T: Primitive, D: DistanceFunction<T>>(
    dist: &D,
    rows: Seq<Seq<T>>,
    centroids: Seq<Seq<T>>,
    n: nat,
) -> Seq<usize> {
    Seq::new(rows.len(), |i: int| nearest_spec(dist, rows[i], centroids, n) as usize)
}

/// The distance of every row to its nearest centroid.
pub open spec fn row_distances<T: Primitive, D: DistanceFunction<T>>(
    dist: &D,
    rows: Seq<Seq<T>>,
    centroids: Seq<Seq<T>>,
    n: nat,
) -> Seq<T> {
    Seq::new(rows.len(), |i: int| nearest_distance(dist, rows[i], centroids, n))
}

/// Every distance between a row and one of the first `n` centroids is finite.
pub open spec fn rows_finite<T: Primitive, D: DistanceFunction<T>>(
    dist: &D,
    rows: Seq<Seq<T>>,
    centroids: Seq<Seq<T>>,
    n: nat,
) -> bool {
    forall|i: int| 0 <= i < rows.len() ==> #[trigger] distances_finite(dist, rows[i], centroids, n)
}

/// The distance sum of an assignment phase: each block's distances are
/// added up on their own, and the block sums are added up in block order.
pub open spec fn blocks_distsum<T: Primitive, D: DistanceFunction<T>>(
    dist: &D,
    blocks: Seq<StrideBuffer<T>>,
    centroids: Seq<Seq<T>>,
    n: nat,
) -> T
    decreases blocks.len(),
{
    if blocks.len() == 0 {
        T::zero_spec()
    } else {
        blocks_distsum(dist, blocks.drop_last(), centroids, n).plus_spec(
            sum_spec(row_distances(dist, blocks.last()@, centroids, n)),
        )
    }
}

/// The nearest centroid always is one of the centroids searched.
pub proof fn lemma_nearest_in_range<T: Primitive, D: DistanceFunction<T>>(
    dist: &D,
    row: Seq<T>,
    centroids: Seq<Seq<T>>,
    n: nat,
)
    requires
        n > 0,
    ensures
        nearest_spec(dist, row, centroids, n) < n,
    decreases n,
{
    if n > 1 {
        lemma_nearest_in_range(dist, row, centroids, (n - 1) as nat);
    }
}

/// Finds the nearest of the first `n` centroids to `row`: its index, the
/// distance to it, and whether all `n` distances were finite.
pub fn nearest<T: Primitive, D: DistanceFunction<T>>(
    dist: &D,
    row: &[T],
    centroids: &StrideBuffer<T>,
    n: usize,
) -> (r: (usize, T, bool))
    requires
        centroids.wf(),
        0 < n <= centroids.rows,
        row@.len() == centroids.stride,
    ensures
        r.0 == nearest_spec(dist, row@, centroids@, n as nat),
        r.0 < n,
        r.1 == nearest_distance(dist, row@, centroids@, n as nat),
        r.2 == distances_finite(dist, row@, centroids@, n as nat),
{
    proof {
        centroids.lemma_view();
    }
    let mut best: usize = 0;
    let mut best_distance = dist.distance(row, centroids.nth(0));
    let mut finite = best_distance.is_finite();
    let mut c: usize = 1;
    while c < n
        invariant
            centroids.wf(),
            1 <= c <= n <= centroids.rows,
            row@.len() == centroids.stride,
            forall|q: int| 0 <= q < centroids.rows ==> (#[trigger] centroids@[q]).len() == centroids.stride,
            best == nearest_spec(dist, row@, centroids@, c as nat),
            best < c,
            best_distance == dist.distance_spec(row@, centroids@[best as int]),
            finite == distances_finite(dist, row@, centroids@, c as nat),
        decreases n - c,
    {
        let d = dist.distance(row, centroids.nth(c));
        if !d.is_finite() {
            finite = false;
        }
        if d.less(best_distance) {
            best = c;
            best_distance = d;
        }
        c += 1;
    }
    (best, best_distance, finite)
}

/// What the assignment phase finds for a run of rows.
pub struct Assignment<T> {
    /// The nearest centroid of each row.
    pub assignments: Vec<usize>,
    /// The distance of each row to its nearest centroid.
    pub distances: Vec<T>,
    /// The sum of those distances.
    pub distsum: T,
    /// Whether every distance computed on the way was finite.
    pub finite: bool,
}

/// Assigns every row of one block to the nearest of the first `n` centroids.
pub fn assign_block<T: Primitive, D: DistanceFunction<T>>(
    dist: &D,
    block: &StrideBuffer<T>,
    centroids: &StrideBuffer<T>,
    n: usize,
) -> (r: Assignment<T>)
    requires
        block.wf(),
        centroids.wf(),
        block.stride == centroids.stride,
        0 < n <= centroids.rows,
    ensures
        r.assignments@ == assign_rows(dist, block@, centroids@, n as nat),
        r.distances@ == row_distances(dist, block@, centroids@, n as nat),
        r.distsum == sum_spec(r.distances@),
        r.finite == rows_finite(dist, block@, centroids@, n as nat),
{
    proof {
        block.lemma_view();
    }
    let mut assignments: Vec<usize> = Vec::new();
    let mut distances: Vec<T> = Vec::new();
    let mut distsum = T::zero();
    let mut finite = true;
    let mut i: usize = 0;
    while i < block.rows
        invariant
            block.wf(),
            centroids.wf(),
            block.stride == centroids.stride,
            0 < n <= centroids.rows,
            i <= block.rows,
            block@.len() == block.rows,
            forall|q: int| 0 <= q < block.rows ==> (#[trigger] block@[q]).len() == block.stride,
            assignments@ == assign_rows(dist, block@.take(i as int), centroids@, n as nat),
            distances@ == row_distances(dist, block@.take(i as int), centroids@, n as nat),
            distsum == sum_spec(distances@),
            finite == rows_finite(dist, block@.take(i as int), centroids@, n as nat),
        decreases block.rows - i,
    {
        let found = nearest(dist, block.nth(i), centroids, n);
        proof {
            let before = block@.take(i as int);
            let after = block@.take(i + 1);
            assert(after.drop_last() =~= before);
            assert(assignments@.push(found.0) =~= assign_rows(dist, after, centroids@, n as nat));
            assert(distances@.push(found.1) =~= row_distances(dist, after, centroids@, n as nat));
            assert(distances@.push(found.1).drop_last() =~= distances@);
            assert(rows_finite(dist, after, centroids@, n as nat) == (rows_finite(
                dist,
                before,
                centroids@,
                n as nat,
            ) && found.2)) by {
                assert(after[i as int] == block@[i as int]);
                assert forall|q: int| 0 <= q < i implies before[q] == after[q] by {}
                if rows_finite(dist, after, centroids@, n as nat) {
                    assert forall|q: int| 0 <= q < before.len() implies #[trigger] distances_finite(
                        dist,
                        before[q],
                        centroids@,
                        n as nat,
                    ) by {
                        assert(distances_finite(dist, after[q], centroids@, n as nat));
                    }
                    assert(distances_finite(dist, after[i as int], centroids@, n as nat));
                }
            }
        }
        assignments.push(found.0);
        distances.push(found.1);
        distsum = distsum.plus(found.1);
        if !found.2 {
            finite = false;
        }
        i += 1;
    }
    proof {
        assert(block@.take(block.rows as int) =~= block@);
    }
    Assignment { assignments, distances, distsum, finite }
}

/// Runs [`assign_block`] on every block, the blocks spread over the
/// worker threads of rayon's global pool
/// (`par_iter().map(..).collect()`).
///
/// Trusted: rayon hands every block to the closure exactly once and
/// collects the results in the order of the blocks, so that result `b` is
/// what [`assign_block`] returns for block `b`. The call panics only where
/// the thread pool cannot be started.
#[verifier::external_body]
fn assign_blocks<T: Primitive, D: DistanceFunction<T>>(
    dist: &D,
    blocks: &Vec<StrideBuffer<T>>,
    centroids: &StrideBuffer<T>,
    n: usize,
) -> (r: Vec<Assignment<T>>)
    requires
        centroids.wf(),
        0 < n <= centroids.rows,
        forall|b: int|
            0 <= b < blocks@.len() ==> (#[trigger] blocks@[b]).wf() && blocks@[b].stride
                == centroids.stride,
    ensures
        r@.len() == blocks@.len(),
        forall|b: int|
            0 <= b < blocks@.len() ==> {
                &&& (#[trigger] r@[b]).assignments@ == assign_rows(
                    dist,
                    blocks@[b]@,
                    centroids@,
                    n as nat,
                )
                &&& r@[b].distances@ == row_distances(dist, blocks@[b]@, centroids@, n as nat)
                &&& r@[b].distsum == sum_spec(r@[b].distances@)
                &&& r@[b].finite == rows_finite(dist, blocks@[b]@, centroids@, n as nat)
            },
{
    blocks.par_iter().map(|block| assign_block(dist, block, centroids, n)).collect()
}

/// Assigning the rows of two runs one after the other is assigning the
/// rows of their concatenation.
pub proof fn lemma_assign_concat<T: Primitive, D: DistanceFunction<T>>(
    dist: &D,
    first: Seq<Seq<T>>,
    second: Seq<Seq<T>>,
    centroids: Seq<Seq<T>>,
    n: nat,
)
    ensures
        assign_rows(dist, first + second, centroids, n) == assign_rows(dist, first, centroids, n)
            + assign_rows(dist, second, centroids, n),
        row_distances(dist, first + second, centroids, n) == row_distances(
            dist,
            first,
            centroids,
            n,
        ) + row_distances(dist, second, centroids, n),
        rows_finite(dist, first + second, centroids, n) == (rows_finite(dist, first, centroids, n)
            && rows_finite(dist, second, centroids, n)),
{
    let both = first + second;
    assert(assign_rows(dist, both, centroids, n) =~= assign_rows(dist, first, centroids, n)
        + assign_rows(dist, second, centroids, n));
    assert(row_distances(dist, both, centroids, n) =~= row_distances(dist, first, centroids, n)
        + row_distances(dist, second, centroids, n));
    if rows_finite(dist, both, centroids, n) {
        assert forall|i: int| 0 <= i < first.len() implies #[trigger] distances_finite(
            dist,
            first[i],
            centroids,
            n,
        ) by {
            assert(both[i] == first[i]);
            assert(distances_finite(dist, both[i], centroids, n));
        }
        assert forall|i: int| 0 <= i < second.len() implies #[trigger] distances_finite(
            dist,
            second[i],
            centroids,
            n,
        ) by {
            assert(both[i + first.len()] == second[i]);
            assert(distances_finite(dist, both[i + first.len()], centroids, n));
        }
    }
    if rows_finite(dist, first, centroids, n) && rows_finite(dist, second, centroids, n) {
        assert forall|i: int| 0 <= i < both.len() implies #[trigger] distances_finite(
            dist,
            both[i],
            centroids,
            n,
        ) by {
            if i < first.len() {
                assert(distances_finite(dist, first[i], centroids, n));
            } else {
                assert(distances_finite(dist, second[i - first.len()], centroids, n));
            }
        }
    }
}

/// Assigns every sample to the nearest of the first `n` centroids, block
/// by block in parallel, and puts the blocks' results together in order.
pub fn assign_all<T: Primitive, D: DistanceFunction<T>>(
    kmean: &KMeans<T, D>,
    centroids: &StrideBuffer<T>,
    n: usize,
) -> (r: Assignment<T>)
    requires
        kmean.wf(),
        centroids.wf(),
        centroids.stride == kmean.stride,
        0 < n <= centroids.rows,
    ensures
        r.assignments@ == assign_rows(&kmean.distance_fn, kmean.rows(), centroids@, n as nat),
        r.distances@ == row_distances(&kmean.distance_fn, kmean.rows(), centroids@, n as nat),
        r.distsum == blocks_distsum(&kmean.distance_fn, kmean.p_samples@, centroids@, n as nat),
        r.finite == rows_finite(&kmean.distance_fn, kmean.rows(), centroids@, n as nat),
        forall|i: int| 0 <= i < r.assignments@.len() ==> #[trigger] r.assignments@[i] < n,
{
    let dist = &kmean.distance_fn;
    let parts = assign_blocks(dist, &kmean.p_samples, centroids, n);
    let mut assignments: Vec<usize> = Vec::new();
    let mut distances: Vec<T> = Vec::new();
    let mut distsum = T::zero();
    let mut finite = true;
    let mut b: usize = 0;
    while b < parts.len()
        invariant
            b <= parts@.len(),
            parts@.len() == kmean.p_samples@.len(),
            dist == &kmean.distance_fn,
            forall|q: int|
                0 <= q < parts@.len() ==> {
                    &&& (#[trigger] parts@[q]).assignments@ == assign_rows(
                        dist,
                        kmean.p_samples@[q]@,
                        centroids@,
                        n as nat,
                    )
                    &&& parts@[q].distances@ == row_distances(
                        dist,
                        kmean.p_samples@[q]@,
                        centroids@,
                        n as nat,
                    )
                    &&& parts@[q].distsum == sum_spec(parts@[q].distances@)
                    &&& parts@[q].finite == rows_finite(
                        dist,
                        kmean.p_samples@[q]@,
                        centroids@,
                        n as nat,
                    )
                },
            assignments@ == assign_rows(
                dist,
                block_rows(kmean.p_samples@.take(b as int)),
                centroids@,
                n as nat,
            ),
            distances@ == row_distances(
                dist,
                block_rows(kmean.p_samples@.take(b as int)),
                centroids@,
                n as nat,
            ),
            distsum == blocks_distsum(dist, kmean.p_samples@.take(b as int), centroids@, n as nat),
            finite == rows_finite(
                dist,
                block_rows(kmean.p_samples@.take(b as int)),
                centroids@,
                n as nat,
            ),
        decreases parts@.len() - b,
    {
        let part = &parts[b];
        proof {
            let blocks = kmean.p_samples@;
            lemma_block_rows_take(blocks, b as int);
            lemma_assign_concat(
                dist,
                block_rows(blocks.take(b as int)),
                blocks[b as int]@,
                centroids@,
                n as nat,
            );
            assert(blocks.take(b + 1).drop_last() =~= blocks.take(b as int));
        }
        let mut i: usize = 0;
        let ghost kept = assignments@;
        let ghost kept_distances = distances@;
        while i < part.assignments.len()
            invariant
                i <= part.assignments@.len(),
                part.assignments@.len() == part.distances@.len(),
                assignments@ == kept + part.assignments@.take(i as int),
                distances@ == kept_distances + part.distances@.take(i as int),
            decreases part.assignments@.len() - i,
        {
            assignments.push(part.assignments[i]);
            distances.push(part.distances[i]);
            proof {
                assert(assignments@ =~= kept + part.assignments@.take(i + 1));
                assert(distances@ =~= kept_distances + part.distances@.take(i + 1));
            }
            i += 1;
        }
        proof {
            assert(part.assignments@.take(i as int) =~= part.assignments@);
            assert(part.distances@.take(i as int) =~= part.distances@);
        }
        distsum = distsum.plus(part.distsum);
        if !part.finite {
            finite = false;
        }
        b += 1;
    }
    proof {
        assert(kmean.p_samples@.take(b as int) =~= kmean.p_samples@);
        assert forall|i: int| 0 <= i < assignments@.len() implies #[trigger] assignments@[i]
            < n by {
            lemma_nearest_in_range(dist, kmean.rows()[i], centroids@, n as nat);
        }
    }
    Assignment { assignments, distances, distsum, finite }
}

} // verus!
