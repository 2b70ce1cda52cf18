//! The mini-batch variant: every iteration looks at a random subset of the
//! samples only and moves the centroids a step towards them.

use crate::abort_strategy::AbortStrategy;
use crate::api::{frequencies_of, lemma_consistent_frequencies};
use crate::api::{DistanceFunction, KMeans, KMeansError, KMeansResult, KMeansState, StateView};
use crate::assign::{assign_all, assign_rows, blocks_distsum, distances_finite, rows_finite};
use crate::assign::{lemma_nearest_in_range, nearest, nearest_distance, nearest_spec};
use crate::distances::sum_spec;
use crate::memory::{Primitive, StrideBuffer};
use crate::rng::{choose_indices, distinct};
use crate::update::tally;
use rand::rngs::StdRng;
use vstd::prelude::*;

verus! {

/// The nearest centroid of each sample of the batch.
pub open spec fn batch_targets<T: Primitive, D: DistanceFunction<T>>(
    kmean: &KMeans<T, D>,
    centroids: Seq<Seq<T>>,
    batch: Seq<usize>,
) -> Seq<usize> {
    Seq::new(
        batch.len(),
        |j: int|
            nearest_spec(
                &kmean.distance_fn,
                kmean.rows()[batch[j] as int],
                centroids,
                centroids.len(),
            ) as usize,
    )
}

/// The distance of each sample of the batch to its nearest centroid.
pub open spec fn batch_distances<T: Primitive, D: DistanceFunction<T>>(
    kmean: &KMeans<T, D>,
    centroids: Seq<Seq<T>>,
    batch: Seq<usize>,
) -> Seq<T> {
    Seq::new(
        batch.len(),
        |j: int|
            nearest_distance(
                &kmean.distance_fn,
                kmean.rows()[batch[j] as int],
                centroids,
                centroids.len(),
            ),
    )
}

/// Every distance between a sample of the batch and a centroid is finite.
pub open spec fn batch_finite<T: Primitive, D: DistanceFunction<T>>(
    kmean: &KMeans<T, D>,
    centroids: Seq<Seq<T>>,
    batch: Seq<usize>,
) -> bool {
    forall|j: int|
        0 <= j < batch.len() ==> #[trigger] distances_finite(
            &kmean.distance_fn,
            kmean.rows()[batch[j] as int],
            centroids,
            centroids.len(),
        )
}

/// A centroid moved towards a sample: in each of the `dims` dimensions by
/// the difference between sample and centroid, divided by the number of
/// samples the centroid has seen, this one included.
pub open spec fn nudged<T: Primitive>(centroid: Seq<T>, row: Seq<T>, seen: usize, dims: nat) -> Seq<
    T,
> {
    Seq::new(
        centroid.len(),
        |d: int|
            if d < dims {
                centroid[d].plus_spec(
                    row[d].minus_spec(centroid[d]).divide_spec(T::from_count_spec(seen)),
                )
            } else {
                centroid[d]
            },
    )
}

/// The centroids and the running counts after the first `n` samples of the
/// batch have been absorbed, one after the other: each raises the count of
/// its target by one and moves the target's centroid towards itself.
pub open spec fn absorbed<T: Primitive>(
    rows: Seq<Seq<T>>,
    batch: Seq<usize>,
    targets: Seq<usize>,
    centroids: Seq<Seq<T>>,
    counts: Seq<usize>,
    dims: nat,
    n: nat,
) -> (Seq<Seq<T>>, Seq<usize>)
    decreases n,
{
    if n == 0 {
        (centroids, counts)
    } else {
        let before = absorbed(rows, batch, targets, centroids, counts, dims, (n - 1) as nat);
        let c = targets[n - 1] as int;
        let seen = (before.1[c] + 1) as usize;
        (
            before.0.update(c, nudged(before.0[c], rows[batch[n - 1] as int], seen, dims)),
            before.1.update(c, seen),
        )
    }
}

/// The samples of a batch are samples.
pub open spec fn batch_in_range(batch: Seq<usize>, sample_cnt: nat) -> bool {
    forall|j: int| 0 <= j < batch.len() ==> #[trigger] batch[j] < sample_cnt
}

/// Absorbing samples keeps the shape of centroids and counts, and no
/// count grows by more than the number of samples absorbed.
pub proof fn lemma_absorbed_shape<T: Primitive>(
    rows: Seq<Seq<T>>,
    batch: Seq<usize>,
    targets: Seq<usize>,
    centroids: Seq<Seq<T>>,
    counts: Seq<usize>,
    dims: nat,
    stride: nat,
    n: nat,
)
    requires
        n <= batch.len(),
        targets.len() == batch.len(),
        counts.len() == centroids.len(),
        forall|j: int| 0 <= j < targets.len() ==> #[trigger] targets[j] < centroids.len(),
        forall|c: int| 0 <= c < centroids.len() ==> (#[trigger] centroids[c]).len() == stride,
        forall|c: int| 0 <= c < counts.len() ==> #[trigger] counts[c] + batch.len() <= usize::MAX,
    ensures
        absorbed(rows, batch, targets, centroids, counts, dims, n).0.len() == centroids.len(),
        absorbed(rows, batch, targets, centroids, counts, dims, n).1.len() == counts.len(),
        forall|c: int|
            0 <= c < centroids.len() ==> (#[trigger] absorbed(
                rows,
                batch,
                targets,
                centroids,
                counts,
                dims,
                n,
            ).0[c]).len() == stride,
        forall|c: int|
            0 <= c < counts.len() ==> counts[c] <= #[trigger] absorbed(
                rows,
                batch,
                targets,
                centroids,
                counts,
                dims,
                n,
            ).1[c] <= counts[c] + n,
        forall|c: int, d: int|
            0 <= c < centroids.len() && dims <= d < stride ==> #[trigger] absorbed(
                rows,
                batch,
                targets,
                centroids,
                counts,
                dims,
                n,
            ).0[c][d] == centroids[c][d],
    decreases n,
{
    if n > 0 {
        lemma_absorbed_shape(rows, batch, targets, centroids, counts, dims, stride, (n - 1) as nat);
        assert(targets[n - 1] < centroids.len());
    }
}

/// One mini-batch iteration on the centroids and their running counts:
/// the samples of the batch are assigned to their nearest centroids, then
/// absorbed one by one. Returns the sum of the distances found in the
/// assignment.
///
/// Where a distance is not finite, centroids and counts are left as they were.
pub fn batch_step<T: Primitive, D: DistanceFunction<T>>(
    kmean: &KMeans<T, D>,
    centroids: &mut StrideBuffer<T>,
    counts: &mut Vec<usize>,
    batch: &Vec<usize>,
) -> (r: Result<T, KMeansError>)
    requires
        kmean.wf(),
        old(centroids).wf(),
        old(centroids).rows > 0,
        old(centroids).stride == kmean.stride,
        old(counts)@.len() == old(centroids).rows,
        batch_in_range(batch@, kmean.sample_cnt as nat),
        forall|c: int|
            0 <= c < old(counts)@.len() ==> #[trigger] old(counts)@[c] + batch@.len()
                <= usize::MAX,
    ensures
        final(centroids).wf(),
        final(centroids).rows == old(centroids).rows,
        final(centroids).stride == old(centroids).stride,
        final(counts)@.len() == old(counts)@.len(),
        !batch_finite(kmean, old(centroids)@, batch@) ==> {
            &&& r == Err::<T, KMeansError>(KMeansError::NonFiniteDistance)
            &&& final(centroids)@ == old(centroids)@
            &&& final(counts)@ == old(counts)@
        },
        batch_finite(kmean, old(centroids)@, batch@) ==> {
            &&& r == Ok::<T, KMeansError>(sum_spec(batch_distances(kmean, old(centroids)@, batch@)))
            &&& (final(centroids)@, final(counts)@) == absorbed(
                kmean.rows(),
                batch@,
                batch_targets(kmean, old(centroids)@, batch@),
                old(centroids)@,
                old(counts)@,
                kmean.sample_dims as nat,
                batch@.len(),
            )
        },
{
    let k = centroids.rows;
    let dims = kmean.sample_dims;
    let dist = &kmean.distance_fn;
    proof {
        kmean.lemma_rows();
        centroids.lemma_view();
    }
    let mut targets: Vec<usize> = Vec::new();
    let mut distsum = T::zero();
    let mut finite = true;
    let ghost mut distances = Seq::<T>::empty();
    let mut j: usize = 0;
    while j < batch.len()
        invariant
            kmean.wf(),
            centroids.wf(),
            *centroids == *old(centroids),
            *counts == *old(counts),
            k == centroids.rows,
            k > 0,
            centroids@.len() == k,
            centroids.stride == kmean.stride,
            dist == &kmean.distance_fn,
            kmean.rows().len() == kmean.sample_cnt,
            forall|i: int|
                0 <= i < kmean.sample_cnt ==> (#[trigger] kmean.rows()[i]).len() == kmean.stride,
            batch_in_range(batch@, kmean.sample_cnt as nat),
            j <= batch@.len(),
            targets@ == batch_targets(kmean, centroids@, batch@.take(j as int)),
            distances == batch_distances(kmean, centroids@, batch@.take(j as int)),
            distsum == sum_spec(distances),
            finite == batch_finite(kmean, centroids@, batch@.take(j as int)),
        decreases batch@.len() - j,
    {
        let found = nearest(dist, kmean.sample_row(batch[j]), centroids, k);
        proof {
            let before = batch@.take(j as int);
            let after = batch@.take(j + 1);
            assert(after.drop_last() =~= before);
            assert(after[j as int] == batch@[j as int]);
            assert(targets@.push(found.0) =~= batch_targets(kmean, centroids@, after));
            assert(distances.push(found.1) =~= batch_distances(kmean, centroids@, after));
            assert(distances.push(found.1).drop_last() =~= distances);
            assert(batch_finite(kmean, centroids@, after) == (batch_finite(
                kmean,
                centroids@,
                before,
            ) && found.2)) by {
                if batch_finite(kmean, centroids@, after) {
                    assert forall|q: int| 0 <= q < before.len() implies #[trigger] distances_finite(
                        dist,
                        kmean.rows()[before[q] as int],
                        centroids@,
                        centroids@.len(),
                    ) by {
                        assert(before[q] == after[q]);
                        assert(distances_finite(
                            dist,
                            kmean.rows()[after[q] as int],
                            centroids@,
                            centroids@.len(),
                        ));
                    }
                    assert(distances_finite(
                        dist,
                        kmean.rows()[after[j as int] as int],
                        centroids@,
                        centroids@.len(),
                    ));
                }
                if batch_finite(kmean, centroids@, before) && found.2 {
                    assert forall|q: int| 0 <= q < after.len() implies #[trigger] distances_finite(
                        dist,
                        kmean.rows()[after[q] as int],
                        centroids@,
                        centroids@.len(),
                    ) by {
                        if q < j {
                            assert(before[q] == after[q]);
                            assert(distances_finite(
                                dist,
                                kmean.rows()[before[q] as int],
                                centroids@,
                                centroids@.len(),
                            ));
                        }
                    }
                }
            }
            distances = distances.push(found.1);
        }
        targets.push(found.0);
        distsum = distsum.plus(found.1);
        if !found.2 {
            finite = false;
        }
        j += 1;
    }
    proof {
        assert(batch@.take(j as int) =~= batch@);
    }
    if !finite {
        return Err(KMeansError::NonFiniteDistance);
    }
    let ghost rows = kmean.rows();
    let ghost start = centroids@;
    let ghost start_counts = counts@;
    proof {
        assert forall|q: int| 0 <= q < targets@.len() implies #[trigger] targets@[q] < k by {
            lemma_nearest_in_range(dist, rows[batch@[q] as int], start, k as nat);
        }
    }
    let mut j: usize = 0;
    while j < batch.len()
        invariant
            kmean.wf(),
            dims == kmean.sample_dims,
            rows == kmean.rows(),
            rows.len() == kmean.sample_cnt,
            forall|i: int| 0 <= i < kmean.sample_cnt ==> (#[trigger] rows[i]).len() == kmean.stride,
            batch_in_range(batch@, kmean.sample_cnt as nat),
            targets@.len() == batch@.len(),
            forall|q: int| 0 <= q < targets@.len() ==> #[trigger] targets@[q] < k,
            start.len() == k,
            start_counts.len() == k,
            forall|c: int| 0 <= c < k ==> (#[trigger] start[c]).len() == kmean.stride,
            forall|c: int| 0 <= c < k ==> #[trigger] start_counts[c] + batch@.len() <= usize::MAX,
            j <= batch@.len(),
            centroids.wf(),
            centroids.rows == k,
            centroids.stride == kmean.stride,
            counts@.len() == k,
            (centroids@, counts@) == absorbed(
                rows,
                batch@,
                targets@,
                start,
                start_counts,
                dims as nat,
                j as nat,
            ),
        decreases batch@.len() - j,
    {
        let c = targets[j];
        proof {
            lemma_absorbed_shape(
                rows,
                batch@,
                targets@,
                start,
                start_counts,
                dims as nat,
                kmean.stride as nat,
                j as nat,
            );
        }
        let seen = counts[c] + 1;
        counts.set(c, seen);
        let divisor = T::from_count(seen);
        let row = kmean.sample_row(batch[j]);
        let ghost before = centroids@;
        let ghost goal = nudged(before[c as int], row@, seen, dims as nat);
        let mut d: usize = 0;
        proof {
            centroids.lemma_view();
        }
        while d < dims
            invariant
                d <= dims <= kmean.stride,
                c < k,
                row@.len() == kmean.stride,
                before.len() == k,
                before[c as int].len() == kmean.stride,
                goal == nudged(before[c as int], row@, seen, dims as nat),
                divisor == T::from_count_spec(seen),
                centroids.wf(),
                centroids.rows == k,
                centroids.stride == kmean.stride,
                centroids@.len() == k,
                forall|q: int| 0 <= q < k && q != c ==> #[trigger] centroids@[q] == before[q],
                centroids@[c as int].len() == kmean.stride,
                forall|q: int| 0 <= q < d ==> centroids@[c as int][q] == goal[q],
                forall|q: int| d <= q < kmean.stride ==> centroids@[c as int][q] == before[c as int][q],
            decreases dims - d,
        {
            let current = centroids.get(c, d);
            let moved = current.plus(row[d].minus(current).divide(divisor));
            centroids.set(c, d, moved);
            d += 1;
        }
        proof {
            assert(centroids@[c as int] =~= goal);
            assert(centroids@ =~= before.update(c as int, goal));
        }
        j += 1;
    }
    Ok(distsum)
}

/// Where a mini-batch run stands after some of its iterations.
pub struct Progress<T> {
    /// The centroids.
    pub centroids: Seq<Seq<T>>,
    /// How many samples each centroid has absorbed.
    pub counts: Seq<usize>,
    /// The distance sum of the latest batch.
    pub distsum: T,
    /// Number of iterations in a row without improvement.
    pub stalled: usize,
    /// Whether the run goes on.
    pub alive: bool,
}

/// Where the run stands once the given batches have been worked through,
/// one iteration each. The run is no longer alive once a batch has met a
/// distance that is not finite, or the abort strategy has stopped the run.
pub open spec fn progress<T: Primitive, D: DistanceFunction<T>>(
    kmean: &KMeans<T, D>,
    s: StateView<T>,
    batches: Seq<Seq<usize>>,
    strategy: AbortStrategy<T>,
    max_iter: nat,
) -> Progress<T>
    decreases batches.len(),
{
    if batches.len() == 0 {
        Progress {
            centroids: s.centroids,
            counts: Seq::new(s.k, |c: int| 0usize),
            distsum: s.distsum,
            stalled: 0,
            alive: 0 < max_iter,
        }
    } else {
        let before = progress(kmean, s, batches.drop_last(), strategy, max_iter);
        let batch = batches.last();
        if !before.alive || !batch_finite(kmean, before.centroids, batch) {
            Progress { alive: false, ..before }
        } else {
            let next = absorbed(
                kmean.rows(),
                batch,
                batch_targets(kmean, before.centroids, batch),
                before.centroids,
                before.counts,
                kmean.sample_dims as nat,
                batch.len(),
            );
            let distsum = sum_spec(batch_distances(kmean, before.centroids, batch));
            let verdict = strategy.decide_spec(
                before.stalled,
                batches.len(),
                before.distsum,
                distsum,
                max_iter,
            );
            Progress {
                centroids: next.0,
                counts: next.1,
                distsum,
                stalled: verdict.1,
                alive: verdict.0,
            }
        }
    }
}

/// The state that a run ends in with the given centroids: every sample is
/// assigned to its nearest centroid, the frequencies count the assignments
/// and the distance sum is that of this last assignment.
pub open spec fn settled<T: Primitive, D: DistanceFunction<T>>(
    kmean: &KMeans<T, D>,
    centroids: Seq<Seq<T>>,
) -> StateView<T> {
    let assignments = assign_rows(&kmean.distance_fn, kmean.rows(), centroids, centroids.len());
    StateView {
        k: centroids.len(),
        distsum: blocks_distsum(&kmean.distance_fn, kmean.p_samples@, centroids, centroids.len()),
        centroids,
        frequency: frequencies_of(assignments, centroids.len()),
        assignments,
    }
}

/// The outcome of a run that drew exactly the given batches, if there is
/// such a run: the last batch must be the one that ends it, by a distance
/// that is not finite or by the verdict of the abort strategy (which always
/// stops at the iteration limit), and a run without batches is one with an
/// iteration limit of zero. The run ends by settling on its final centroids.
pub open spec fn run_spec<T: Primitive, D: DistanceFunction<T>>(
    kmean: &KMeans<T, D>,
    s: StateView<T>,
    batches: Seq<Seq<usize>>,
    strategy: AbortStrategy<T>,
    max_iter: nat,
) -> Option<Result<(StateView<T>, nat), KMeansError>> {
    let end = progress(kmean, s, batches, strategy, max_iter);
    if batches.len() == 0 {
        if max_iter == 0 {
            Some(settle_spec(kmean, s.centroids, 0))
        } else {
            None
        }
    } else {
        let before = progress(kmean, s, batches.drop_last(), strategy, max_iter);
        if !before.alive || end.alive {
            None
        } else if !batch_finite(kmean, before.centroids, batches.last()) {
            Some(Err(KMeansError::NonFiniteDistance))
        } else {
            Some(settle_spec(kmean, end.centroids, batches.len()))
        }
    }
}

/// Settling on the final centroids fails where a distance between a
/// sample and a centroid is not finite.
pub open spec fn settle_spec<T: Primitive, D: DistanceFunction<T>>(
    kmean: &KMeans<T, D>,
    centroids: Seq<Seq<T>>,
    iterations: nat,
) -> Result<(StateView<T>, nat), KMeansError> {
    if rows_finite(&kmean.distance_fn, kmean.rows(), centroids, centroids.len()) {
        Ok((settled(kmean, centroids), iterations))
    } else {
        Err(KMeansError::NonFiniteDistance)
    }
}

/// Every batch holds `batch_size` samples, none of them twice.
pub open spec fn valid_batches(batches: Seq<Seq<usize>>, batch_size: nat, sample_cnt: nat) -> bool {
    forall|i: int|
        0 <= i < batches.len() ==> (#[trigger] batches[i]).len() == batch_size && batch_in_range(
            batches[i],
            sample_cnt,
        ) && distinct(batches[i])
}

/// The error, if any, with which a mini-batch run is turned down.
pub open spec fn run_error(batch_size: nat, sample_cnt: nat, max_iter: nat) -> Option<KMeansError> {
    if batch_size == 0 || batch_size > sample_cnt {
        Some(KMeansError::BadBatchSize)
    } else if max_iter * batch_size > usize::MAX {
        Some(KMeansError::TooLarge)
    } else {
        None
    }
}

/// Assigns every sample to its nearest centroid and counts the clusters.
/// Of the state only the centroids are read.
pub fn settle<T: Primitive, D: DistanceFunction<T>>(
    kmean: &KMeans<T, D>,
    state: KMeansState<T>,
    iterations: usize,
) -> (r: Result<KMeansResult<T>, KMeansError>)
    requires
        kmean.wf(),
        0 < state.k <= kmean.sample_cnt,
        state.centroids_fit(kmean),
    ensures
        match settle_spec(kmean, state@.centroids, iterations as nat) {
            Ok(end) => r is Ok && r->Ok_0@ == end && r->Ok_0.state.wf(kmean),
            Err(e) => r == Err::<KMeansResult<T>, KMeansError>(e),
        },
        r is Ok ==> r->Ok_0.state.k == state.k && r->Ok_0.iterations == iterations,
{
    let ghost k = state.k;
    let mut state = state;
    proof {
        state.centroids.lemma_view();
        kmean.lemma_rows();
    }
    let found = assign_all(kmean, &state.centroids, state.k);
    if !found.finite {
        return Err(KMeansError::NonFiniteDistance);
    }
    state.centroid_frequency = tally(&found.assignments, state.k);
    state.assignments = found.assignments;
    state.distsum = found.distsum;
    proof {
        lemma_consistent_frequencies(
            state.assignments@,
            state.centroid_frequency@,
            state.k as nat,
        );
    }
    Ok(KMeansResult { state, iterations })
}

/// Iterates from the given state on batches of `batch_size` samples drawn
/// without repetition, until the abort strategy or the iteration limit stops
/// the run, and settles on the centroids reached.
pub fn run<T: Primitive, D: DistanceFunction<T>>(
    kmean: &KMeans<T, D>,
    initial: KMeansState<T>,
    batch_size: usize,
    max_iter: usize,
    strategy: &AbortStrategy<T>,
    rng: &mut StdRng,
) -> (r: Result<KMeansResult<T>, KMeansError>)
    requires
        kmean.wf(),
        0 < initial.k <= kmean.sample_cnt,
        initial.centroids_fit(kmean),
    ensures
        match run_error(batch_size as nat, kmean.sample_cnt as nat, max_iter as nat) {
            Some(e) => r == Err::<KMeansResult<T>, KMeansError>(e),
            None => exists|batches: Seq<Seq<usize>>|
                #![trigger run_spec(kmean, initial@, batches, *strategy, max_iter as nat)]
                valid_batches(batches, batch_size as nat, kmean.sample_cnt as nat) && match run_spec(
                    kmean,
                    initial@,
                    batches,
                    *strategy,
                    max_iter as nat,
                ) {
                    Some(Ok(end)) => r is Ok && r->Ok_0@ == end && r->Ok_0.state.wf(kmean),
                    Some(Err(e)) => r == Err::<KMeansResult<T>, KMeansError>(e),
                    None => false,
                },
        },
        r is Ok ==> r->Ok_0.state.k == initial.k && r->Ok_0.iterations <= max_iter,
{
    if batch_size == 0 || batch_size > kmean.sample_cnt {
        return Err(KMeansError::BadBatchSize);
    }
    if max_iter.checked_mul(batch_size).is_none() {
        return Err(KMeansError::TooLarge);
    }
    if max_iter == 0 {
        proof {
            let none = Seq::<Seq<usize>>::empty();
            assert(run_spec(kmean, initial@, none, *strategy, 0) == Some(
                settle_spec(kmean, initial@.centroids, 0),
            ));
        }
        return settle(kmean, initial, 0);
    }
    let mut state = initial;
    let k = state.k;
    let mut counts: Vec<usize> = Vec::new();
    let mut c: usize = 0;
    while c < k
        invariant
            c <= k,
            counts@.len() == c,
            forall|q: int| 0 <= q < c ==> counts@[q] == 0,
        decreases k - c,
    {
        counts.push(0usize);
        c += 1;
    }
    let ghost mut batches = Seq::<Seq<usize>>::empty();
    let mut stalled: usize = 0;
    let mut done: usize = 0;
    let mut failed = false;
    proof {
        assert(counts@ =~= Seq::new(k as nat, |c: int| 0usize));
        state.centroids.lemma_view();
    }
    while done < max_iter
        invariant_except_break
            progress(kmean, initial@, batches, *strategy, max_iter as nat) == (Progress {
                centroids: state.centroids@,
                counts: counts@,
                distsum: state.distsum,
                stalled,
                alive: true,
            }),
            !failed,
            done < max_iter,
        invariant
            kmean.wf(),
            0 < state.k <= kmean.sample_cnt,
            state.centroids_fit(kmean),
            state.k == k,
            k == initial.k,
            counts@.len() == k,
            0 < batch_size <= kmean.sample_cnt,
            max_iter * batch_size <= usize::MAX,
            done <= max_iter,
            batches.len() == done,
            valid_batches(batches, batch_size as nat, kmean.sample_cnt as nat),
            forall|q: int| 0 <= q < k ==> #[trigger] counts@[q] <= done * batch_size,
            state@.assignments == initial@.assignments,
            state@.frequency == initial@.frequency,
        ensures
            done > 0,
            batches.len() == done,
            progress(kmean, initial@, batches.drop_last(), *strategy, max_iter as nat).alive,
            !progress(kmean, initial@, batches, *strategy, max_iter as nat).alive,
            failed == !batch_finite(
                kmean,
                progress(
                    kmean,
                    initial@,
                    batches.drop_last(),
                    *strategy,
                    max_iter as nat,
                ).centroids,
                batches.last(),
            ),
            !failed ==> state.centroids@ == progress(
                kmean,
                initial@,
                batches,
                *strategy,
                max_iter as nat,
            ).centroids,
        decreases max_iter - done,
    {
        proof {
            assert(batch_size * 8 <= isize::MAX) by (nonlinear_arith)
                requires
                    batch_size <= kmean.sample_cnt,
                    kmean.sample_cnt * 8 <= isize::MAX,
            ;
            assert((done + 1) * batch_size <= max_iter * batch_size) by (nonlinear_arith)
                requires
                    done + 1 <= max_iter,
                    0 <= batch_size,
            ;
            assert((done + 1) * batch_size == done * batch_size + batch_size) by (nonlinear_arith);
        }
        let batch = choose_indices(rng, kmean.sample_cnt, batch_size);
        let previous = state.distsum;
        let ghost before_counts = counts@;
        let ghost before_centroids = state.centroids@;
        proof {
            assert(batches.push(batch@).drop_last() =~= batches);
            batches = batches.push(batch@);
            state.centroids.lemma_view();
        }
        match batch_step(kmean, &mut state.centroids, &mut counts, &batch) {
            Err(e) => {
                failed = true;
                done += 1;
                break ;
            },
            Ok(distsum) => {
                state.distsum = distsum;
            },
        }
        proof {
            let targets = batch_targets(kmean, before_centroids, batch@);
            assert forall|q: int| 0 <= q < targets.len() implies #[trigger] targets[q] < k by {
                lemma_nearest_in_range(
                    &kmean.distance_fn,
                    kmean.rows()[batch@[q] as int],
                    before_centroids,
                    k as nat,
                );
            }
            lemma_absorbed_shape(
                kmean.rows(),
                batch@,
                targets,
                before_centroids,
                before_counts,
                kmean.sample_dims as nat,
                kmean.stride as nat,
                batch@.len(),
            );
            state.centroids.lemma_view();
            assert(state.centroids.padded_from(kmean.sample_dims as nat)) by {
                assert forall|r: int, j: int|
                    0 <= r < k && kmean.sample_dims <= j
                        < kmean.stride implies #[trigger] state.centroids@[r][j]
                    == T::zero_spec() by {
                    assert(before_centroids[r][j] == T::zero_spec());
                }
            }
        }
        let verdict = strategy.decide(stalled, done + 1, previous, state.distsum, max_iter);
        done += 1;
        stalled = verdict.1;
        if !verdict.0 {
            break ;
        }
    }
    if failed {
        proof {
            assert(run_spec(kmean, initial@, batches, *strategy, max_iter as nat) == Some(
                Err::<(StateView<T>, nat), KMeansError>(KMeansError::NonFiniteDistance),
            ));
        }
        return Err(KMeansError::NonFiniteDistance);
    }
    proof {
        assert(run_spec(kmean, initial@, batches, *strategy, max_iter as nat) == Some(
            settle_spec(kmean, state.centroids@, done as nat),
        ));
    }
    settle(kmean, state, done)
}

} // verus!
