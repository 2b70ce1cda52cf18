//! What holds of the engine as a whole.

use crate::abort_strategy::AbortStrategy;
use crate::api::{consistent, count_of, frequencies_of, lemma_count_bound, total};
use crate::api::{DistanceFunction, KMeans, StateView};
use crate::assign::{assign_rows, blocks_distsum, lemma_nearest_in_range, nearest_spec};
use crate::assign::{nearest_distance, row_distances};
use crate::distances::{squared_difference, sum_spec, EuclideanDistance};
use crate::api::lemma_block_row_at;
use crate::inits::randompartition::{partition_spec, valid_draws};
use crate::inits::randomsample::{lemma_picked_rows_are_rows, picked_rows, picks_in_range};
use crate::inits::randomsample::{sample_spec, valid_picks};
use crate::rng::distinct;
use crate::memory::{block_rows, zeros, Primitive, StrideBuffer};
use crate::update::{block_part, block_sum, cluster_sum, cluster_sum_from, merged_sum};
use crate::variants::complete;
use crate::variants::lloyd::{run_spec, step_fails, step_spec};
use crate::variants::minibatch::settled;
use vstd::prelude::*;

verus! {

/// Frequencies that are all zero add up to zero.
pub proof fn lemma_total_of_zeros(frequency: Seq<usize>, n: nat)
    requires
        n <= frequency.len(),
        forall|c: int| 0 <= c < n ==> #[trigger] frequency[c] == 0,
    ensures
        total(frequency, n) == 0,
    decreases n,
{
    if n > 0 {
        lemma_total_of_zeros(frequency, (n - 1) as nat);
    }
}

/// Raising one frequency by one raises the sum of the frequencies up to
/// and including it by one, and no shorter sum.
pub proof fn lemma_total_raised(lower: Seq<usize>, higher: Seq<usize>, x: int, n: nat)
    requires
        lower.len() == higher.len(),
        n <= lower.len(),
        0 <= x < lower.len(),
        higher[x] == lower[x] + 1,
        forall|c: int| 0 <= c < lower.len() && c != x ==> #[trigger] higher[c] == lower[c],
    ensures
        total(higher, n) == total(lower, n) + if x < n {
            1nat
        } else {
            0nat
        },
    decreases n,
{
    if n > 0 {
        lemma_total_raised(lower, higher, x, (n - 1) as nat);
    }
}

/// Where every sample is assigned to one of `k` clusters and each frequency
/// counts the samples of its cluster, the frequencies add up to the number
/// of samples.
pub proof fn lemma_frequencies_total(assignments: Seq<usize>, frequency: Seq<usize>, k: nat)
    requires
        consistent(assignments, frequency, k),
        assignments.len() <= usize::MAX,
        k <= usize::MAX,
    ensures
        total(frequency, k) == assignments.len(),
    decreases assignments.len(),
{
    if assignments.len() == 0 {
        lemma_total_of_zeros(frequency, k);
    } else {
        let shorter = assignments.drop_last();
        let x = assignments.last();
        let lower = frequencies_of(shorter, k);
        assert forall|c: int| 0 <= c < k implies #[trigger] lower[c] == count_of(
            shorter,
            c as usize,
        ) by {
            lemma_count_bound(shorter, c as usize);
        }
        assert forall|i: int| 0 <= i < shorter.len() implies #[trigger] shorter[i] < k by {
            assert(shorter[i] == assignments[i]);
        }
        lemma_frequencies_total(shorter, lower, k);
        assert(assignments[assignments.len() - 1] < k);
        assert forall|c: int| 0 <= c < k implies #[trigger] frequency[c] == lower[c] + if c == x {
            1nat
        } else {
            0nat
        } by {
            assert(count_of(assignments, c as usize) == count_of(shorter, c as usize) + if x
                == c as usize {
                1nat
            } else {
                0nat
            });
        }
        lemma_total_raised(lower, frequency, x as int, k);
    }
}

/// The distances from `row` to the first `n` centroids are ordered by the
/// comparison of the number type: no distance is less than itself, the
/// comparison is transitive, and whatever is not less than the greater of
/// two distances is greater than the lesser. Numbers that can be compared
/// at all are ordered in this way.
pub open spec fn ordered_distances<T: Primitive, D: DistanceFunction<T>>(
    dist: &D,
    row: Seq<T>,
    centroids: Seq<Seq<T>>,
    n: nat,
) -> bool {
    &&& forall|i: int|
        0 <= i < n ==> !(#[trigger] dist.distance_spec(row, centroids[i])).less_spec(
            dist.distance_spec(row, centroids[i]),
        )
    &&& forall|i: int, j: int, l: int|
        #![trigger dist.distance_spec(row, centroids[i]), dist.distance_spec(row, centroids[j]), dist.distance_spec(row, centroids[l])]
        0 <= i < n && 0 <= j < n && 0 <= l < n && dist.distance_spec(row, centroids[i]).less_spec(
            dist.distance_spec(row, centroids[j]),
        ) ==> {
            &&& dist.distance_spec(row, centroids[j]).less_spec(
                dist.distance_spec(row, centroids[l]),
            ) ==> dist.distance_spec(row, centroids[i]).less_spec(
                dist.distance_spec(row, centroids[l]),
            )
            &&& dist.distance_spec(row, centroids[i]).less_spec(
                dist.distance_spec(row, centroids[l]),
            ) || dist.distance_spec(row, centroids[l]).less_spec(
                dist.distance_spec(row, centroids[j]),
            )
        }
}

/// Where the distances are ordered, the centroid that a sample is assigned
/// to is a nearest one: no centroid is nearer, and every centroid with a
/// lower index is farther away.
pub proof fn lemma_assigned_centroid_is_nearest<T: Primitive, D: DistanceFunction<T>>(
    dist: &D,
    row: Seq<T>,
    centroids: Seq<Seq<T>>,
    n: nat,
)
    requires
        n > 0,
        ordered_distances(dist, row, centroids, n),
    ensures
        nearest_spec(dist, row, centroids, n) < n,
        forall|j: int|
            0 <= j < n ==> !(#[trigger] dist.distance_spec(row, centroids[j])).less_spec(
                dist.distance_spec(row, centroids[nearest_spec(dist, row, centroids, n) as int]),
            ),
        forall|j: int|
            0 <= j < nearest_spec(dist, row, centroids, n) ==> dist.distance_spec(
                row,
                centroids[nearest_spec(dist, row, centroids, n) as int],
            ).less_spec(#[trigger] dist.distance_spec(row, centroids[j])),
    decreases n,
{
    if n > 1 {
        let m = (n - 1) as nat;
        lemma_assigned_centroid_is_nearest(dist, row, centroids, m);
        let before = nearest_spec(dist, row, centroids, m) as int;
        let best = nearest_spec(dist, row, centroids, n) as int;
        let last = dist.distance_spec(row, centroids[m as int]);
        let held = dist.distance_spec(row, centroids[before]);
        assert forall|j: int| 0 <= j < n implies !(#[trigger] dist.distance_spec(
            row,
            centroids[j],
        )).less_spec(dist.distance_spec(row, centroids[best])) by {
            let other = dist.distance_spec(row, centroids[j]);
            if last.less_spec(held) && j < m {
                if other.less_spec(last) {
                    assert(other.less_spec(held));
                }
            }
        }
        assert forall|j: int| 0 <= j < best implies dist.distance_spec(
            row,
            centroids[best],
        ).less_spec(#[trigger] dist.distance_spec(row, centroids[j])) by {
            let other = dist.distance_spec(row, centroids[j]);
            if last.less_spec(held) {
                if j < before {
                    assert(held.less_spec(other));
                    assert(last.less_spec(other));
                } else if j > before {
                    assert(!other.less_spec(held));
                    assert(last.less_spec(other) || other.less_spec(held));
                }
            }
        }
    }
}

/// Assigning every sample to the nearest of `k` centroids and counting
/// the clusters leaves every sample in one of the `k` clusters and
/// frequencies that add up to the number of samples.
pub proof fn lemma_assignment_counts_every_sample<T: Primitive, D: DistanceFunction<T>>(
    kmean: &KMeans<T, D>,
    centroids: Seq<Seq<T>>,
    k: nat,
)
    requires
        0 < k <= usize::MAX,
        kmean.rows().len() == kmean.sample_cnt,
    ensures
        consistent(
            assign_rows(&kmean.distance_fn, kmean.rows(), centroids, k),
            frequencies_of(assign_rows(&kmean.distance_fn, kmean.rows(), centroids, k), k),
            k,
        ),
        total(
            frequencies_of(assign_rows(&kmean.distance_fn, kmean.rows(), centroids, k), k),
            k,
        ) == kmean.sample_cnt,
{
    let assignments = assign_rows(&kmean.distance_fn, kmean.rows(), centroids, k);
    let frequency = frequencies_of(assignments, k);
    assert forall|i: int| 0 <= i < assignments.len() implies #[trigger] assignments[i] < k by {
        lemma_nearest_in_range(&kmean.distance_fn, kmean.rows()[i], centroids, k);
    }
    assert forall|c: int| 0 <= c < k implies #[trigger] frequency[c] == count_of(
        assignments,
        c as usize,
    ) by {
        lemma_count_bound(assignments, c as usize);
    }
    lemma_frequencies_total(assignments, frequency, k);
}

/// After one or more full-batch iterations every sample is in one of the
/// clusters, and the frequencies add up to the number of samples.
pub proof fn lemma_iterations_count_every_sample<T: Primitive, D: DistanceFunction<T>>(
    kmean: &KMeans<T, D>,
    s: StateView<T>,
    n: nat,
)
    requires
        0 < s.k <= usize::MAX,
        kmean.rows().len() == kmean.sample_cnt,
        n >= 1,
    ensures
        complete(iterated(kmean, s, n), s.k, kmean.sample_cnt as nat),
{
    let before = iterated(kmean, s, (n - 1) as nat);
    lemma_iterated_shape(kmean, s, (n - 1) as nat);
    lemma_assignment_counts_every_sample(kmean, before.centroids, s.k);
}

/// In the state that a mini-batch run settles on, every sample is in one
/// of the clusters, and the frequencies add up to the number of samples.
pub proof fn lemma_settled_counts_every_sample<T: Primitive, D: DistanceFunction<T>>(
    kmean: &KMeans<T, D>,
    centroids: Seq<Seq<T>>,
)
    requires
        0 < centroids.len() <= usize::MAX,
        kmean.rows().len() == kmean.sample_cnt,
    ensures
        complete(settled(kmean, centroids), centroids.len(), kmean.sample_cnt as nat),
{
    lemma_assignment_counts_every_sample(kmean, centroids, centroids.len());
}

/// A cluster that is counted zero times is named by no assignment.
pub proof fn lemma_count_zero(assignments: Seq<usize>, c: usize, i: int)
    requires
        count_of(assignments, c) == 0,
        0 <= i < assignments.len(),
    ensures
        assignments[i] != c,
    decreases assignments.len(),
{
    if i < assignments.len() - 1 {
        lemma_count_zero(assignments.drop_last(), c, i);
    }
}

/// A cluster that none of the first `n` rows is assigned to has the
/// sum that it started from.
pub proof fn lemma_sum_without_members<T: Primitive>(
    init: T,
    rows: Seq<Seq<T>>,
    assignments: Seq<usize>,
    divisors: Option<Seq<T>>,
    c: int,
    d: int,
    n: nat,
)
    requires
        n <= assignments.len(),
        forall|i: int| 0 <= i < n ==> assignments[i] != c,
    ensures
        cluster_sum_from(init, rows, assignments, divisors, c, d, n) == init,
    decreases n,
{
    if n > 0 {
        lemma_sum_without_members(init, rows, assignments, divisors, c, d, (n - 1) as nat);
    }
}

/// After random partition, whatever the state before, every sample is in
/// one of the `k` clusters, each frequency counts the samples of its
/// cluster, and the frequencies add up to the number of samples.
pub proof fn lemma_partition_counts_every_sample<T: Primitive, D: DistanceFunction<T>>(
    kmean: &KMeans<T, D>,
    s: StateView<T>,
    draws: Seq<usize>,
)
    requires
        0 < s.k <= usize::MAX,
        valid_draws(kmean, s.k, draws),
    ensures
        consistent(
            partition_spec(kmean, s, draws).assignments,
            partition_spec(kmean, s, draws).frequency,
            s.k,
        ),
        complete(partition_spec(kmean, s, draws), s.k, kmean.sample_cnt as nat),
{
    let frequency = frequencies_of(draws, s.k);
    assert forall|c: int| 0 <= c < s.k implies #[trigger] frequency[c] == count_of(
        draws,
        c as usize,
    ) by {
        lemma_count_bound(draws, c as usize);
    }
    lemma_frequencies_total(draws, frequency, s.k);
}

/// After random partition a cluster that no draw names has frequency zero
/// and the zero centroid: nothing is added to it and nothing is divided
/// for it.
pub proof fn lemma_partition_leaves_empty_cluster_zero<T: Primitive, D: DistanceFunction<T>>(
    kmean: &KMeans<T, D>,
    s: StateView<T>,
    draws: Seq<usize>,
    c: int,
)
    requires
        0 <= c < s.k <= usize::MAX,
        valid_draws(kmean, s.k, draws),
        forall|i: int| 0 <= i < draws.len() ==> draws[i] != c,
    ensures
        partition_spec(kmean, s, draws).frequency[c] == 0,
        partition_spec(kmean, s, draws).centroids[c] == zeros::<T>(kmean.stride as nat),
{
    lemma_count_none(draws, c as usize);
    let centroid = partition_spec(kmean, s, draws).centroids[c];
    assert forall|d: int| 0 <= d < kmean.stride implies centroid[d] == T::zero_spec() by {
        if d < kmean.sample_dims {
            lemma_sum_without_members(
                T::zero_spec(),
                kmean.rows(),
                draws,
                Some(crate::inits::randompartition::cluster_sizes::<T>(draws, s.k)),
                c,
                d,
                kmean.sample_cnt as nat,
            );
        }
    }
    assert(centroid =~= zeros::<T>(kmean.stride as nat));
}

/// A cluster that no assignment names is counted zero times.
pub proof fn lemma_count_none(assignments: Seq<usize>, c: usize)
    requires
        forall|i: int| 0 <= i < assignments.len() ==> assignments[i] != c,
    ensures
        count_of(assignments, c) == 0,
    decreases assignments.len(),
{
    if assignments.len() > 0 {
        assert forall|i: int| 0 <= i < assignments.drop_last().len() implies assignments.drop_last()[i]
            != c by {
            assert(assignments.drop_last()[i] == assignments[i]);
        }
        lemma_count_none(assignments.drop_last(), c);
    }
}

/// Where every assignment names cluster `c`, the cluster is counted as
/// often as there are assignments.
pub proof fn lemma_count_all(assignments: Seq<usize>, c: usize)
    requires
        forall|i: int| 0 <= i < assignments.len() ==> assignments[i] == c,
    ensures
        count_of(assignments, c) == assignments.len(),
    decreases assignments.len(),
{
    if assignments.len() > 0 {
        assert forall|i: int| 0 <= i < assignments.drop_last().len() implies assignments.drop_last()[i]
            == c by {
            assert(assignments.drop_last()[i] == assignments[i]);
        }
        lemma_count_all(assignments.drop_last(), c);
    }
}

/// Random partition into one cluster puts every sample into cluster 0,
/// whose frequency is the number of samples. Its centroid is the sum, in
/// sample order, of each sample divided by the number of samples, with
/// zero padding.
pub proof fn lemma_partition_into_one_cluster<T: Primitive, D: DistanceFunction<T>>(
    kmean: &KMeans<T, D>,
    s: StateView<T>,
    draws: Seq<usize>,
)
    requires
        s.k == 1,
        kmean.wf(),
        valid_draws(kmean, s.k, draws),
    ensures
        partition_spec(kmean, s, draws).assignments == Seq::new(
            kmean.sample_cnt as nat,
            |i: int| 0usize,
        ),
        partition_spec(kmean, s, draws).frequency == seq![kmean.sample_cnt],
        forall|d: int|
            0 <= d < kmean.sample_dims ==> partition_spec(kmean, s, draws).centroids[0][d]
                == cluster_sum(
                kmean.rows(),
                draws,
                Some(seq![T::from_count_spec(kmean.sample_cnt)]),
                0,
                d,
                kmean.sample_cnt as nat,
            ),
        forall|d: int|
            kmean.sample_dims <= d < kmean.stride ==> partition_spec(
                kmean,
                s,
                draws,
            ).centroids[0][d] == T::zero_spec(),
{
    assert(draws =~= Seq::new(kmean.sample_cnt as nat, |i: int| 0usize));
    lemma_count_all(draws, 0);
    assert(partition_spec(kmean, s, draws).frequency =~= seq![kmean.sample_cnt]);
    assert(crate::inits::randompartition::cluster_sizes::<T>(draws, 1) =~= seq![
        T::from_count_spec(kmean.sample_cnt),
    ]);
}

/// The state after `n` full-batch iterations, none of which fails.
pub open spec fn iterated<T: Primitive, D: DistanceFunction<T>>(
    kmean: &KMeans<T, D>,
    s: StateView<T>,
    n: nat,
) -> StateView<T>
    decreases n,
{
    if n == 0 {
        s
    } else {
        step_spec(kmean, iterated(kmean, s, (n - 1) as nat))
    }
}

/// Iterating `n` times after one iteration is iterating `n + 1` times.
pub proof fn lemma_iterated_shift<T: Primitive, D: DistanceFunction<T>>(
    kmean: &KMeans<T, D>,
    s: StateView<T>,
    n: nat,
)
    ensures
        iterated(kmean, step_spec(kmean, s), n) == iterated(kmean, s, n + 1),
    decreases n,
{
    if n > 0 {
        lemma_iterated_shift(kmean, s, (n - 1) as nat);
        assert(iterated(kmean, s, n + 1) == step_spec(kmean, iterated(kmean, s, n)));
    } else {
        assert(iterated(kmean, s, 1) == step_spec(kmean, iterated(kmean, s, 0)));
    }
}

/// A full-batch run that ends after `n` iterations, having taken `done` of
/// them before, ends in the state that `n - done` iterations lead to.
pub proof fn lemma_run_iterates<T: Primitive, D: DistanceFunction<T>>(
    kmean: &KMeans<T, D>,
    s: StateView<T>,
    strategy: AbortStrategy<T>,
    stalled: usize,
    done: nat,
    max_iter: nat,
)
    requires
        run_spec(kmean, s, strategy, stalled, done, max_iter) is Ok,
    ensures
        done <= run_spec(kmean, s, strategy, stalled, done, max_iter)->Ok_0.1,
        run_spec(kmean, s, strategy, stalled, done, max_iter)->Ok_0.1 <= done || run_spec(
            kmean,
            s,
            strategy,
            stalled,
            done,
            max_iter,
        )->Ok_0.1 <= max_iter,
        run_spec(kmean, s, strategy, stalled, done, max_iter)->Ok_0.0 == iterated(
            kmean,
            s,
            (run_spec(kmean, s, strategy, stalled, done, max_iter)->Ok_0.1 - done) as nat,
        ),
    decreases max_iter - done,
{
    if done < max_iter && !step_fails(kmean, s) {
        let next = step_spec(kmean, s);
        let verdict = strategy.decide_spec(stalled, done + 1, s.distsum, next.distsum, max_iter);
        if verdict.0 {
            lemma_run_iterates(kmean, next, strategy, verdict.1, done + 1, max_iter);
            let n = run_spec(kmean, next, strategy, verdict.1, done + 1, max_iter)->Ok_0.1;
            lemma_iterated_shift(kmean, s, (n - done - 1) as nat);
        } else {
            assert(iterated(kmean, s, 1) == step_spec(kmean, iterated(kmean, s, 0)));
        }
    }
}

/// Iterations keep the number of centroids.
pub proof fn lemma_iterated_shape<T: Primitive, D: DistanceFunction<T>>(
    kmean: &KMeans<T, D>,
    s: StateView<T>,
    n: nat,
)
    ensures
        iterated(kmean, s, n).centroids.len() == s.centroids.len(),
        iterated(kmean, s, n).k == s.k,
    decreases n,
{
    if n > 0 {
        lemma_iterated_shape(kmean, s, (n - 1) as nat);
    }
}

/// A centroid whose cluster is left without samples by each of the first
/// `n` iterations is, after these iterations, exactly where it started.
pub proof fn lemma_unassigned_centroid_stays<T: Primitive, D: DistanceFunction<T>>(
    kmean: &KMeans<T, D>,
    s: StateView<T>,
    c: int,
    n: nat,
)
    requires
        0 <= c < s.centroids.len(),
        forall|j: nat|
            1 <= j <= n ==> count_of((#[trigger] iterated(kmean, s, j)).assignments, c as usize)
                == 0,
    ensures
        iterated(kmean, s, n).centroids[c] == s.centroids[c],
    decreases n,
{
    if n > 0 {
        let before = iterated(kmean, s, (n - 1) as nat);
        lemma_unassigned_centroid_stays(kmean, s, c, (n - 1) as nat);
        lemma_iterated_shape(kmean, s, (n - 1) as nat);
        assert(count_of(iterated(kmean, s, n).assignments, c as usize) == 0);
    }
}

/// A centroid whose cluster is left without samples by every iteration
/// of a full-batch run is, at the end of the run, exactly where it started.
pub proof fn lemma_run_keeps_unassigned_centroid<T: Primitive, D: DistanceFunction<T>>(
    kmean: &KMeans<T, D>,
    s: StateView<T>,
    strategy: AbortStrategy<T>,
    max_iter: nat,
    c: int,
)
    requires
        0 <= c < s.centroids.len(),
        run_spec(kmean, s, strategy, 0, 0, max_iter) is Ok,
        forall|j: nat|
            1 <= j <= run_spec(kmean, s, strategy, 0, 0, max_iter)->Ok_0.1 ==> count_of(
                (#[trigger] iterated(kmean, s, j)).assignments,
                c as usize,
            ) == 0,
    ensures
        run_spec(kmean, s, strategy, 0, 0, max_iter)->Ok_0.0.centroids[c] == s.centroids[c],
{
    lemma_run_iterates(kmean, s, strategy, 0, 0, max_iter);
    lemma_unassigned_centroid_stays(
        kmean,
        s,
        c,
        run_spec(kmean, s, strategy, 0, 0, max_iter)->Ok_0.1,
    );
}

/// Blocks with the same content hold the same rows.
pub proof fn lemma_equal_blocks_equal_rows<T>(a: Seq<StrideBuffer<T>>, b: Seq<StrideBuffer<T>>)
    requires
        a.len() == b.len(),
        forall|i: int| 0 <= i < a.len() ==> (#[trigger] a[i])@ == b[i]@,
    ensures
        block_rows(a) == block_rows(b),
    decreases a.len(),
{
    if a.len() > 0 {
        assert forall|i: int| 0 <= i < a.drop_last().len() implies (#[trigger] a.drop_last()[i])@
            == b.drop_last()[i]@ by {
            assert(a.drop_last()[i] == a[i]);
            assert(b.drop_last()[i] == b[i]);
        }
        lemma_equal_blocks_equal_rows(a.drop_last(), b.drop_last());
        assert(a.last()@ == b.last()@) by {
            assert(a[a.len() - 1]@ == b[a.len() - 1]@);
        }
    }
}

/// Blocks with the same content give the same distance sum.
pub proof fn lemma_equal_blocks_equal_distsum<T: Primitive, D: DistanceFunction<T>>(
    dist: &D,
    a: Seq<StrideBuffer<T>>,
    b: Seq<StrideBuffer<T>>,
    centroids: Seq<Seq<T>>,
    n: nat,
)
    requires
        a.len() == b.len(),
        forall|i: int| 0 <= i < a.len() ==> (#[trigger] a[i])@ == b[i]@,
    ensures
        blocks_distsum(dist, a, centroids, n) == blocks_distsum(dist, b, centroids, n),
    decreases a.len(),
{
    if a.len() > 0 {
        assert forall|i: int| 0 <= i < a.drop_last().len() implies (#[trigger] a.drop_last()[i])@
            == b.drop_last()[i]@ by {
            assert(a.drop_last()[i] == a[i]);
            assert(b.drop_last()[i] == b[i]);
        }
        lemma_equal_blocks_equal_distsum(dist, a.drop_last(), b.drop_last(), centroids, n);
        assert(a.last()@ == b.last()@) by {
            assert(a[a.len() - 1]@ == b[a.len() - 1]@);
        }
    }
}

/// Blocks with the same content sum up alike.
pub proof fn lemma_equal_blocks_equal_sums<T: Primitive>(
    a: Seq<StrideBuffer<T>>,
    b: Seq<StrideBuffer<T>>,
    assignments: Seq<usize>,
    c: int,
    d: int,
)
    requires
        a.len() == b.len(),
        forall|i: int| 0 <= i < a.len() ==> (#[trigger] a[i])@ == b[i]@,
    ensures
        merged_sum(a, assignments, c, d) == merged_sum(b, assignments, c, d),
{
    let ours = Seq::new(a.len(), |i: int| block_sum(a, assignments, i, c, d));
    let theirs = Seq::new(b.len(), |i: int| block_sum(b, assignments, i, c, d));
    assert forall|i: int| 0 <= i < a.len() implies ours[i] == theirs[i] by {
        assert forall|q: int| 0 <= q < a.take(i).len() implies (#[trigger] a.take(i)[q])@ == b.take(
            i,
        )[q]@ by {
            assert(a.take(i)[q] == a[q]);
            assert(b.take(i)[q] == b[q]);
        }
        assert forall|q: int| 0 <= q < a.take(i + 1).len() implies (#[trigger] a.take(i + 1)[q])@
            == b.take(i + 1)[q]@ by {
            assert(a.take(i + 1)[q] == a[q]);
            assert(b.take(i + 1)[q] == b[q]);
        }
        lemma_equal_blocks_equal_rows(a.take(i), b.take(i));
        lemma_equal_blocks_equal_rows(a.take(i + 1), b.take(i + 1));
        assert(block_part(a, assignments, i) == block_part(b, assignments, i));
        assert(a[i]@ == b[i]@);
    }
    assert(ours =~= theirs);
}

/// The two sample sets hold the same samples in the same blocks, and
/// measure distances alike.
pub open spec fn same_content<T: Primitive, D: DistanceFunction<T>>(
    a: &KMeans<T, D>,
    b: &KMeans<T, D>,
) -> bool {
    &&& a.sample_dims == b.sample_dims
    &&& a.distance_fn == b.distance_fn
    &&& a.p_samples@.len() == b.p_samples@.len()
    &&& forall|i: int| 0 <= i < a.p_samples@.len() ==> (#[trigger] a.p_samples@[i])@ == b.p_samples@[i]@
}

/// Full-batch runs are determined by the content of their inputs: two
/// runs over sample sets of the same content, from the same state, under
/// the same abort strategy and iteration limit, end alike, with the same
/// assignments, centroids, frequencies, distance sum and number of
/// iterations, or with the same error.
pub proof fn lemma_equal_inputs_equal_runs<T: Primitive, D: DistanceFunction<T>>(
    a: &KMeans<T, D>,
    b: &KMeans<T, D>,
    s: StateView<T>,
    strategy: AbortStrategy<T>,
    stalled: usize,
    done: nat,
    max_iter: nat,
)
    requires
        same_content(a, b),
    ensures
        run_spec(a, s, strategy, stalled, done, max_iter) == run_spec(
            b,
            s,
            strategy,
            stalled,
            done,
            max_iter,
        ),
    decreases max_iter - done,
{
    lemma_equal_blocks_equal_rows(a.p_samples@, b.p_samples@);
    lemma_equal_blocks_equal_distsum(&a.distance_fn, a.p_samples@, b.p_samples@, s.centroids, s.k);
    if done < max_iter && !step_fails(a, s) {
        let next = step_spec(a, s);
        let assignments = next.assignments;
        assert forall|c: int, d: int|
            merged_sum(a.p_samples@, assignments, c, d) == #[trigger] merged_sum(
                b.p_samples@,
                assignments,
                c,
                d,
            ) by {
            lemma_equal_blocks_equal_sums(a.p_samples@, b.p_samples@, assignments, c, d);
        }
        assert(next.centroids =~~= step_spec(b, s).centroids);
        assert(next == step_spec(b, s));
        let verdict = strategy.decide_spec(stalled, done + 1, s.distsum, next.distsum, max_iter);
        if verdict.0 {
            lemma_equal_inputs_equal_runs(a, b, next, strategy, verdict.1, done + 1, max_iter);
        }
    }
}

/// The number type computes without error and without exceptional values:
/// differences, squares and sums behave as they do for the numbers of
/// mathematics. Rounding arithmetic meets this only as long as nothing
/// overflows or underflows.
pub open spec fn exact_arithmetic<T: Primitive>() -> bool {
    &&& !T::zero_spec().less_spec(T::zero_spec())
    &&& forall|x: T| #[trigger] x.plus_spec(T::zero_spec()) == x
    &&& forall|x: T| #[trigger] x.minus_spec(x) == T::zero_spec()
    &&& forall|x: T, y: T| #[trigger] x.minus_spec(y) == T::zero_spec() ==> x == y
    &&& forall|x: T| !(#[trigger] x.times_spec(x)).less_spec(T::zero_spec())
    &&& forall|x: T| (#[trigger] x.times_spec(x) == T::zero_spec()) <==> x == T::zero_spec()
    &&& forall|x: T, y: T|
        !x.less_spec(T::zero_spec()) && !y.less_spec(T::zero_spec()) ==> !(#[trigger] x.plus_spec(
            y,
        )).less_spec(T::zero_spec())
    &&& forall|x: T, y: T|
        !x.less_spec(T::zero_spec()) && !y.less_spec(T::zero_spec()) && #[trigger] x.plus_spec(y)
            == T::zero_spec() ==> x == T::zero_spec() && y == T::zero_spec()
}

/// In exact arithmetic a sum of squared differences is not negative, and
/// it is zero exactly where every difference is between equal values.
pub proof fn lemma_squares_sum<T: Primitive>(a: Seq<T>, b: Seq<T>, n: nat)
    requires
        exact_arithmetic::<T>(),
        n <= a.len(),
        n <= b.len(),
    ensures
        !sum_spec(Seq::new(n, |i: int| squared_difference(a[i], b[i]))).less_spec(T::zero_spec()),
        sum_spec(Seq::new(n, |i: int| squared_difference(a[i], b[i]))) == T::zero_spec() <==> a.take(
            n as int,
        ) == b.take(n as int),
    decreases n,
{
    let terms = Seq::new(n, |i: int| squared_difference(a[i], b[i]));
    if n == 0 {
        assert(a.take(0) =~= b.take(0));
    } else {
        let m = (n - 1) as nat;
        let shorter = Seq::new(m, |i: int| squared_difference(a[i], b[i]));
        lemma_squares_sum(a, b, m);
        assert(terms.drop_last() =~= shorter);
        let x = sum_spec(shorter);
        let d = a[m as int].minus_spec(b[m as int]);
        let y = d.times_spec(d);
        assert(terms.last() == y);
        assert(sum_spec(terms) == x.plus_spec(y));
        assert(!y.less_spec(T::zero_spec()));
        assert(!x.plus_spec(y).less_spec(T::zero_spec()));
        if a.take(n as int) == b.take(n as int) {
            assert(a[m as int] == a.take(n as int)[m as int]);
            assert(b[m as int] == b.take(n as int)[m as int]);
            assert(a.take(m as int) =~= a.take(n as int).take(m as int));
            assert(b.take(m as int) =~= b.take(n as int).take(m as int));
            assert(d == T::zero_spec());
            assert(y == T::zero_spec());
        }
        if sum_spec(terms) == T::zero_spec() {
            assert(x == T::zero_spec() && y == T::zero_spec());
            assert(d == T::zero_spec());
            assert(a[m as int] == b[m as int]);
            assert(a.take(n as int) =~= a.take(m as int).push(a[m as int]));
            assert(b.take(n as int) =~= b.take(m as int).push(b[m as int]));
        }
    }
}

/// In exact arithmetic the Euclidean distance between two rows of one
/// width is not negative, and it is zero exactly where the rows are equal.
pub proof fn lemma_euclidean_distance_separates<T: Primitive>(a: Seq<T>, b: Seq<T>)
    requires
        exact_arithmetic::<T>(),
        a.len() == b.len(),
    ensures
        !EuclideanDistance.distance_spec(a, b).less_spec(T::zero_spec()),
        EuclideanDistance.distance_spec(a, b) == T::zero_spec() <==> a == b,
{
    lemma_squares_sum(a, b, a.len());
    assert(a.take(a.len() as int) =~= a);
    assert(b.take(b.len() as int) =~= b);
}

/// In exact arithmetic lanes in which both rows are zero add nothing to
/// a sum of squared differences.
pub proof fn lemma_zero_lanes_add_nothing<T: Primitive>(a: Seq<T>, b: Seq<T>, dims: nat, n: nat)
    requires
        exact_arithmetic::<T>(),
        dims <= n <= a.len(),
        n <= b.len(),
        forall|j: int| dims <= j < n ==> a[j] == T::zero_spec() && b[j] == T::zero_spec(),
    ensures
        sum_spec(Seq::new(n, |i: int| squared_difference(a[i], b[i]))) == sum_spec(
            Seq::new(dims, |i: int| squared_difference(a[i], b[i])),
        ),
    decreases n,
{
    if n > dims {
        let m = (n - 1) as nat;
        let terms = Seq::new(n, |i: int| squared_difference(a[i], b[i]));
        let shorter = Seq::new(m, |i: int| squared_difference(a[i], b[i]));
        lemma_zero_lanes_add_nothing(a, b, dims, m);
        assert(terms.drop_last() =~= shorter);
        let zero = T::zero_spec();
        assert(zero.minus_spec(zero) == zero);
        assert(zero.times_spec(zero) == zero);
        assert(terms.last() == zero);
    }
}

/// In exact arithmetic the Euclidean distance between two padded rows is
/// the distance between their first `dims` values: it is not negative, and
/// it is zero exactly where the rows agree in these values.
pub proof fn lemma_padding_is_neutral<T: Primitive>(a: Seq<T>, b: Seq<T>, dims: nat)
    requires
        exact_arithmetic::<T>(),
        a.len() == b.len(),
        dims <= a.len(),
        forall|j: int| dims <= j < a.len() ==> a[j] == T::zero_spec() && b[j] == T::zero_spec(),
    ensures
        EuclideanDistance.distance_spec(a, b) == EuclideanDistance.distance_spec(
            a.take(dims as int),
            b.take(dims as int),
        ),
        !EuclideanDistance.distance_spec(a, b).less_spec(T::zero_spec()),
        EuclideanDistance.distance_spec(a, b) == T::zero_spec() <==> a.take(dims as int) == b.take(
            dims as int,
        ),
{
    let front_a = a.take(dims as int);
    let front_b = b.take(dims as int);
    lemma_zero_lanes_add_nothing(a, b, dims, a.len());
    assert(Seq::new(dims, |i: int| squared_difference(a[i], b[i])) =~= Seq::new(
        dims,
        |i: int| squared_difference(front_a[i], front_b[i]),
    ));
    lemma_euclidean_distance_separates(front_a, front_b);
}

/// The comparison of the number type is a strict total order.
pub open spec fn total_order<T: Primitive>() -> bool {
    &&& forall|x: T| !#[trigger] x.less_spec(x)
    &&& forall|x: T, y: T, z: T|
        #![trigger x.less_spec(y), y.less_spec(z)]
        x.less_spec(y) && y.less_spec(z) ==> x.less_spec(z)
    &&& forall|x: T, y: T| #[trigger] x.less_spec(y) || y.less_spec(x) || x == y
}

/// Whole numbers compute exactly in the sense of [`exact_arithmetic`],
/// the ends of their range included.
pub proof fn lemma_whole_numbers_are_exact()
    ensures
        exact_arithmetic::<i64>(),
        total_order::<i64>(),
{
    assert forall|x: i64| !(#[trigger] x.times_spec(x)).less_spec(0i64) by {
        assert(x * x >= 0) by (nonlinear_arith);
    }
    assert forall|x: i64| (#[trigger] x.times_spec(x) == 0i64) <==> x == 0i64 by {
        assert(x * x == 0 <==> x == 0) by (nonlinear_arith);
    }
}

/// The Euclidean distance between two rows of whole numbers of one width
/// is not negative, and it is zero exactly where the rows are equal.
pub proof fn lemma_whole_number_distance_separates(a: Seq<i64>, b: Seq<i64>)
    requires
        a.len() == b.len(),
    ensures
        EuclideanDistance.distance_spec(a, b) >= 0,
        EuclideanDistance.distance_spec(a, b) == 0 <==> a == b,
{
    lemma_whole_numbers_are_exact();
    lemma_euclidean_distance_separates(a, b);
}

/// In exact arithmetic a sum of zeros is zero.
pub proof fn lemma_sum_of_zeros<T: Primitive>(values: Seq<T>)
    requires
        exact_arithmetic::<T>(),
        forall|i: int| 0 <= i < values.len() ==> values[i] == T::zero_spec(),
    ensures
        sum_spec(values) == T::zero_spec(),
    decreases values.len(),
{
    if values.len() > 0 {
        assert forall|i: int| 0 <= i < values.drop_last().len() implies values.drop_last()[i]
            == T::zero_spec() by {
            assert(values.drop_last()[i] == values[i]);
        }
        lemma_sum_of_zeros(values.drop_last());
        assert(values.last() == T::zero_spec());
    }
}

/// The row is as wide as each of the first `k` centroids and equal to one
/// of them.
pub open spec fn is_a_centroid<T>(row: Seq<T>, centroids: Seq<Seq<T>>, k: nat) -> bool {
    &&& forall|c: int| 0 <= c < k ==> (#[trigger] centroids[c]).len() == row.len()
    &&& exists|c: int| 0 <= c < k && #[trigger] centroids[c] == row
}

/// In exact arithmetic with a total order, a sample that is equal to one
/// of the centroids has the Euclidean distance zero to its nearest centroid.
pub proof fn lemma_own_centroid_is_at_distance_zero<T: Primitive>(
    row: Seq<T>,
    centroids: Seq<Seq<T>>,
    k: nat,
)
    requires
        exact_arithmetic::<T>(),
        total_order::<T>(),
        is_a_centroid(row, centroids, k),
    ensures
        nearest_distance(&EuclideanDistance, row, centroids, k) == T::zero_spec(),
{
    let dist = &EuclideanDistance;
    let own = choose|c: int| 0 <= c < k && #[trigger] centroids[c] == row;
    assert forall|i: int, j: int, l: int|
        #![trigger dist.distance_spec(row, centroids[i]), dist.distance_spec(row, centroids[j]), dist.distance_spec(row, centroids[l])]
        0 <= i < k && 0 <= j < k && 0 <= l < k && dist.distance_spec(row, centroids[i]).less_spec(
            dist.distance_spec(row, centroids[j]),
        ) implies {
        &&& dist.distance_spec(row, centroids[j]).less_spec(
            dist.distance_spec(row, centroids[l]),
        ) ==> dist.distance_spec(row, centroids[i]).less_spec(
            dist.distance_spec(row, centroids[l]),
        )
        &&& dist.distance_spec(row, centroids[i]).less_spec(dist.distance_spec(row, centroids[l]))
            || dist.distance_spec(row, centroids[l]).less_spec(
            dist.distance_spec(row, centroids[j]),
        )
    } by {
        let (x, y, z) = (
            dist.distance_spec(row, centroids[i]),
            dist.distance_spec(row, centroids[j]),
            dist.distance_spec(row, centroids[l]),
        );
        assert(x.less_spec(z) || z.less_spec(x) || x == z);
        if z.less_spec(x) {
            assert(z.less_spec(x) && x.less_spec(y) ==> z.less_spec(y));
        }
    }
    assert(ordered_distances(dist, row, centroids, k));
    lemma_assigned_centroid_is_nearest(dist, row, centroids, k);
    let best = nearest_spec(dist, row, centroids, k) as int;
    let least = dist.distance_spec(row, centroids[best]);
    lemma_euclidean_distance_separates(row, centroids[own]);
    lemma_euclidean_distance_separates(row, centroids[best]);
    let zero = T::zero_spec();
    assert(dist.distance_spec(row, centroids[own]) == zero);
    assert(!zero.less_spec(least));
    assert(!least.less_spec(zero));
    assert(least.less_spec(zero) || zero.less_spec(least) || least == zero);
}

/// In exact arithmetic with a total order, where every sample is equal to
/// one of the centroids, as it is where there are as many clusters as
/// samples and every sample is its own centroid, the Euclidean distance
/// sum of an assignment phase is zero.
pub proof fn lemma_samples_on_centroids_give_distsum_zero<T: Primitive>(
    blocks: Seq<StrideBuffer<T>>,
    centroids: Seq<Seq<T>>,
    k: nat,
)
    requires
        exact_arithmetic::<T>(),
        total_order::<T>(),
        forall|b: int, r: int|
            0 <= b < blocks.len() && 0 <= r < blocks[b]@.len() ==> is_a_centroid(
                #[trigger] blocks[b]@[r],
                centroids,
                k,
            ),
    ensures
        blocks_distsum(&EuclideanDistance, blocks, centroids, k) == T::zero_spec(),
    decreases blocks.len(),
{
    if blocks.len() > 0 {
        let front = blocks.drop_last();
        let last = blocks.last();
        assert forall|b: int, r: int| 0 <= b < front.len() && 0 <= r < front[b]@.len() implies is_a_centroid(
            #[trigger] front[b]@[r],
            centroids,
            k,
        ) by {
            assert(front[b] == blocks[b]);
            assert(is_a_centroid(blocks[b]@[r], centroids, k));
        }
        lemma_samples_on_centroids_give_distsum_zero(front, centroids, k);
        let distances = row_distances(&EuclideanDistance, last@, centroids, k);
        assert forall|i: int| 0 <= i < distances.len() implies distances[i] == T::zero_spec() by {
            assert(is_a_centroid(blocks[blocks.len() - 1]@[i], centroids, k));
            lemma_own_centroid_is_at_distance_zero(last@[i], centroids, k);
        }
        lemma_sum_of_zeros(distances);
    }
}

/// After random-sample initialization every centroid that a pick has
/// filled is one of the samples, copied as it is.
pub proof fn lemma_sampled_centroid_is_a_sample<T: Primitive, D: DistanceFunction<T>>(
    kmean: &KMeans<T, D>,
    s: StateView<T>,
    picks: Seq<Seq<usize>>,
    c: int,
)
    requires
        kmean.wf(),
        picks_in_range(kmean, picks),
        0 <= c < s.k,
        c < picked_rows(kmean.p_samples@, picks).len(),
    ensures
        exists|i: int|
            0 <= i < kmean.sample_cnt && #[trigger] kmean.rows()[i] == sample_spec(
                kmean,
                s,
                picks,
            ).centroids[c],
{
    let blocks = kmean.p_samples@;
    lemma_picked_rows_are_rows(blocks, picks, c);
    let (b, q) = choose|b: int, q: int|
        0 <= b < blocks.len() && 0 <= q < blocks[b].rows && picked_rows(blocks, picks)[c]
            == #[trigger] blocks[b]@[q];
    lemma_block_row_at(blocks, b, q);
    let i = block_rows(blocks.take(b)).len() + q;
    assert(kmean.rows()[i] == sample_spec(kmean, s, picks).centroids[c]);
}

/// In exact arithmetic every centroid that random-sample initialization
/// has filled is at Euclidean distance zero from some sample.
pub proof fn lemma_sampled_centroid_is_at_distance_zero<T: Primitive>(
    kmean: &KMeans<T, EuclideanDistance>,
    s: StateView<T>,
    picks: Seq<Seq<usize>>,
    c: int,
)
    requires
        exact_arithmetic::<T>(),
        kmean.wf(),
        picks_in_range(kmean, picks),
        0 <= c < s.k,
        c < picked_rows(kmean.p_samples@, picks).len(),
    ensures
        exists|i: int|
            0 <= i < kmean.sample_cnt && EuclideanDistance.distance_spec(
                #[trigger] kmean.rows()[i],
                sample_spec(kmean, s, picks).centroids[c],
            ) == T::zero_spec(),
{
    lemma_sampled_centroid_is_a_sample(kmean, s, picks, c);
    let centroid = sample_spec(kmean, s, picks).centroids[c];
    let i = choose|i: int| 0 <= i < kmean.sample_cnt && #[trigger] kmean.rows()[i] == centroid;
    lemma_euclidean_distance_separates(kmean.rows()[i], centroid);
}

/// The numbers below `n`.
pub open spec fn below(n: nat) -> Set<usize> {
    Set::new(|x: usize| x < n)
}

/// There are `n` numbers below `n`.
pub proof fn lemma_below_len(n: nat)
    requires
        n <= usize::MAX,
    ensures
        below(n).finite(),
        below(n).len() == n,
    decreases n,
{
    if n == 0 {
        assert(below(0) =~= Set::<usize>::empty());
    } else {
        lemma_below_len((n - 1) as nat);
        assert(below(n) =~= below((n - 1) as nat).insert((n - 1) as usize));
    }
}

/// As many distinct picks as there are rows name every row.
pub proof fn lemma_distinct_picks_name_every_row(picks: Seq<usize>, q: usize)
    requires
        distinct(picks),
        picks.len() <= usize::MAX,
        forall|i: int| 0 <= i < picks.len() ==> #[trigger] picks[i] < picks.len(),
        q < picks.len(),
    ensures
        exists|j: int| 0 <= j < picks.len() && #[trigger] picks[j] == q,
{
    let n = picks.len();
    assert(picks.no_duplicates());
    picks.unique_seq_to_set();
    lemma_below_len(n);
    vstd::seq_lib::seq_to_set_is_finite(picks);
    assert(picks.to_set().subset_of(below(n))) by {
        assert forall|x: usize| picks.to_set().contains(x) implies below(n).contains(x) by {
            let i = choose|i: int| 0 <= i < picks.len() && picks[i] == x;
            assert(picks[i] < n);
        }
    }
    vstd::set_lib::lemma_subset_equality(picks.to_set(), below(n));
    assert(below(n).contains(q));
    assert(picks.to_set().contains(q));
    assert(picks.contains(q));
}

/// In exact arithmetic with a total order: where all samples are in one
/// block and there are as many clusters as samples, random-sample
/// initialization makes every sample its own centroid, and the first
/// full-batch iteration has the Euclidean distance sum zero.
pub proof fn lemma_every_sample_its_own_centroid<T: Primitive>(
    kmean: &KMeans<T, EuclideanDistance>,
    s: StateView<T>,
    picks: Seq<Seq<usize>>,
)
    requires
        exact_arithmetic::<T>(),
        total_order::<T>(),
        kmean.wf(),
        kmean.p_samples@.len() == 1,
        0 < s.k == kmean.sample_cnt,
        valid_picks(kmean, s.k, picks),
    ensures
        forall|i: int|
            0 <= i < kmean.sample_cnt ==> is_a_centroid(
                #[trigger] kmean.rows()[i],
                sample_spec(kmean, s, picks).centroids,
                s.k,
            ),
        step_spec(kmean, sample_spec(kmean, s, picks)).distsum == T::zero_spec(),
{
    let blocks = kmean.p_samples@;
    let block = blocks[0];
    let n = kmean.sample_cnt as nat;
    let list = picks[0];
    let centroids = sample_spec(kmean, s, picks).centroids;
    assert(blocks.drop_last() =~= Seq::<StrideBuffer<T>>::empty());
    assert(picked_rows(blocks.drop_last(), picks.drop_last()) =~= Seq::<Seq<T>>::empty());
    assert(kmean.rows() =~= block@) by {
        assert(block_rows(blocks.drop_last()) =~= Seq::<Seq<T>>::empty());
    }
    block.lemma_view();
    assert(n % 1 == 0 && n / 1 == n);
    assert(list.len() == n);
    let chosen = picked_rows(blocks, picks);
    assert(chosen =~= Seq::new(n, |i: int| block@[list[i] as int]));
    assert forall|r: int| 0 <= r < block@.len() implies is_a_centroid(
        #[trigger] block@[r],
        centroids,
        s.k,
    ) by {
        lemma_distinct_picks_name_every_row(list, r as usize);
        let j = choose|j: int| 0 <= j < list.len() && #[trigger] list[j] == r as usize;
        assert(centroids[j] == block@[r]);
        assert forall|c: int| 0 <= c < s.k implies (#[trigger] centroids[c]).len()
            == block@[r].len() by {
            assert(list[c] < block.rows);
        }
    }
    assert forall|b: int, r: int| 0 <= b < blocks.len() && 0 <= r < blocks[b]@.len() implies is_a_centroid(
        #[trigger] blocks[b]@[r],
        centroids,
        s.k,
    ) by {
        assert(blocks[b] == block);
    }
    lemma_samples_on_centroids_give_distsum_zero(blocks, centroids, s.k);
    assert(kmean.distance_fn == EuclideanDistance);
}

} // verus!
