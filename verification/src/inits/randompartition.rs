//! Random partition: every sample is put into a random cluster, and each
//! centroid starts at the mean of its cluster.

use crate::api::{count_of, frequencies_of, lemma_consistent_frequencies, total};
use crate::api::{DistanceFunction, KMeans, KMeansState, StateView};
use crate::memory::Primitive;
use crate::rng::draw_below;
use crate::theory::lemma_frequencies_total;
use crate::update::{accumulate, cluster_sum, tally};
use rand::rngs::StdRng;
use vstd::prelude::*;

verus! {

/// For each cluster, the number of its samples as a value.
pub open spec fn cluster_sizes<T: Primitive>(assignments: Seq<usize>, k: nat) -> Seq<T> {
    Seq::new(k, |c: int| T::from_count_spec(count_of(assignments, c as usize) as usize))
}

/// The state that the random partition `draws` leads to: sample `i` is in
/// cluster `draws[i]`, and every centroid is the running mean of its
/// cluster, that is the sum, in sample order, of each sample divided by the
/// cluster's size. A cluster without samples has the zero centroid.
pub open spec fn partition_spec<T: Primitive, D: DistanceFunction<T>>(
    kmean: &KMeans<T, D>,
    s: StateView<T>,
    draws: Seq<usize>,
) -> StateView<T> {
    StateView {
        k: s.k,
        distsum: s.distsum,
        centroids: Seq::new(
            s.k,
            |c: int|
                Seq::new(
                    kmean.stride as nat,
                    |d: int|
                        if d < kmean.sample_dims {
                            cluster_sum(
                                kmean.rows(),
                                draws,
                                Some(cluster_sizes::<T>(draws, s.k)),
                                c,
                                d,
                                kmean.sample_cnt as nat,
                            )
                        } else {
                            T::zero_spec()
                        },
                ),
        ),
        frequency: frequencies_of(draws, s.k),
        assignments: draws,
    }
}

/// `draws` names a cluster for each sample.
pub open spec fn valid_draws<T: Primitive, D: DistanceFunction<T>>(
    kmean: &KMeans<T, D>,
    k: nat,
    draws: Seq<usize>,
) -> bool {
    &&& draws.len() == kmean.sample_cnt
    &&& forall|i: int| 0 <= i < draws.len() ==> #[trigger] draws[i] < k
}

/// Initializes the state from a partition that has been drawn already.
///
/// Nothing is asked of the state but its number of clusters: centroids,
/// frequencies and assignments are all written anew.
pub fn from_draws<T: Primitive, D: DistanceFunction<T>>(
    kmean: &KMeans<T, D>,
    state: &mut KMeansState<T>,
    draws: Vec<usize>,
)
    requires
        kmean.wf(),
        0 < old(state).k <= kmean.sample_cnt,
        valid_draws(kmean, old(state).k as nat, draws@),
    ensures
        final(state).wf(kmean),
        final(state).k == old(state).k,
        final(state)@ == partition_spec(kmean, old(state)@, draws@),
        total(final(state).centroid_frequency@, final(state).k as nat) == kmean.sample_cnt,
{
    let k = state.k;
    let frequency = tally(&draws, k);
    let mut sizes: Vec<T> = Vec::new();
    let mut c: usize = 0;
    while c < k
        invariant
            c <= k,
            frequency@.len() == k,
            sizes@.len() == c,
            forall|q: int| 0 <= q < c ==> sizes@[q] == T::from_count_spec(frequency@[q]),
        decreases k - c,
    {
        sizes.push(T::from_count(frequency[c]));
        c += 1;
    }
    proof {
        assert(sizes@ =~= cluster_sizes::<T>(draws@, k as nat));
        lemma_consistent_frequencies(draws@, frequency@, k as nat);
        lemma_frequencies_total(draws@, frequency@, k as nat);
    }
    let sums = accumulate(kmean, &draws, k, Some(&sizes));
    proof {
        sums.lemma_view();
        let target = partition_spec(kmean, old(state)@, draws@);
        assert forall|q: int| 0 <= q < k implies #[trigger] sums@[q] == target.centroids[q] by {
            assert(sums@[q] =~= target.centroids[q]);
        }
        assert(sums@ =~= target.centroids);
    }
    state.centroids = sums;
    state.centroid_frequency = frequency;
    state.assignments = draws;
}

/// Puts every sample into a cluster drawn at random and starts each
/// centroid at the mean of its cluster.
pub fn calculate<T: Primitive, D: DistanceFunction<T>>(
    kmean: &KMeans<T, D>,
    state: &mut KMeansState<T>,
    rng: &mut StdRng,
)
    requires
        kmean.wf(),
        0 < old(state).k <= kmean.sample_cnt,
    ensures
        final(state).wf(kmean),
        final(state).k == old(state).k,
        total(final(state).centroid_frequency@, final(state).k as nat) == kmean.sample_cnt,
        exists|draws: Seq<usize>|
            #![auto]
            valid_draws(kmean, old(state).k as nat, draws) && final(state)@ == partition_spec(
                kmean,
                old(state)@,
                draws,
            ),
{
    let k = state.k;
    let mut draws: Vec<usize> = Vec::new();
    let mut i: usize = 0;
    while i < kmean.sample_cnt
        invariant
            i <= kmean.sample_cnt,
            k > 0,
            draws@.len() == i,
            forall|q: int| 0 <= q < i ==> #[trigger] draws@[q] < k,
        decreases kmean.sample_cnt - i,
    {
        let a = draw_below(rng, k);
        draws.push(a);
        i += 1;
    }
    let ghost drawn = draws@;
    from_draws(kmean, state, draws);
    proof {
        assert(valid_draws(kmean, old(state).k as nat, drawn));
    }
}

} // verus!
