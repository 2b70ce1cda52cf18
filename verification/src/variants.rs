//! The iterative engines and the entry points that start them.

pub mod lloyd;
pub mod minibatch;

use crate::abort_strategy::AbortStrategy;
use crate::api::{fresh_spec, total};
use crate::api::{DistanceFunction, KMeans, KMeansError, KMeansResult, KMeansState, StateView};
use crate::inits::kmeanplusplus::{plusplus_spec, valid_units};
use crate::inits::randompartition::{partition_spec, valid_draws};
use crate::inits::randomsample::{sample_spec, valid_picks};
use crate::memory::Primitive;
use crate::theory::lemma_frequencies_total;
use rand::rngs::StdRng;
use vstd::prelude::*;

verus! {

/// How the centroids are chosen before the first iteration.
#[derive(Clone, Copy, Debug, PartialEq, Eq, Structural)]
pub enum Initialization {
    /// Every sample is put into a random cluster; the centroids are the
    /// means of the clusters.
    RandomPartition,
    /// The centroids are samples picked at random.
    RandomSample,
    /// The centroids are samples picked at random, far from each other
    /// with high probability.
    KMeansPlusPlus,
}

/// Initialization by `init` can lead from the state `before` to the state
/// `after` with the result `r`, for some outcome of the random draws.
pub open spec fn initialized<T: Primitive, D: DistanceFunction<T>>(
    kmean: &KMeans<T, D>,
    init: Initialization,
    before: StateView<T>,
    after: StateView<T>,
    r: Result<(), KMeansError>,
) -> bool {
    match init {
        Initialization::RandomPartition => exists|draws: Seq<usize>|
            #![trigger partition_spec(kmean, before, draws)]
            valid_draws(kmean, before.k, draws) && after == partition_spec(kmean, before, draws)
                && r is Ok,
        Initialization::RandomSample => exists|picks: Seq<Seq<usize>>|
            #![trigger sample_spec(kmean, before, picks)]
            valid_picks(kmean, before.k, picks) && after == sample_spec(kmean, before, picks)
                && r is Ok,
        Initialization::KMeansPlusPlus => exists|first: usize, units: Seq<usize>|
            #![trigger plusplus_spec(kmean, before, first, units)]
            valid_units(kmean, before.k, first, units) && match plusplus_spec(
                kmean,
                before,
                first,
                units,
            ) {
                Ok(s) => r is Ok && after == s,
                Err(e) => r == Err::<(), KMeansError>(e) && after == before,
            },
    }
}

/// Chooses the initial centroids by the given method.
pub fn initialize<T: Primitive, D: DistanceFunction<T>>(
    kmean: &KMeans<T, D>,
    state: &mut KMeansState<T>,
    init: Initialization,
    rng: &mut StdRng,
) -> (r: Result<(), KMeansError>)
    requires
        kmean.wf(),
        0 < old(state).k <= kmean.sample_cnt,
    ensures
        r is Ok ==> final(state).centroids_fit(kmean),
        init == Initialization::RandomPartition || old(state).wf(kmean) ==> final(state).wf(kmean),
        final(state).k == old(state).k,
        initialized(kmean, init, old(state)@, final(state)@, r),
{
    match init {
        Initialization::RandomPartition => {
            crate::inits::randompartition::calculate(kmean, state, rng);
            Ok(())
        },
        Initialization::RandomSample => {
            crate::inits::randomsample::calculate(kmean, state, rng);
            Ok(())
        },
        Initialization::KMeansPlusPlus => crate::inits::kmeanplusplus::calculate(
            kmean,
            state,
            rng,
        ),
    }
}

/// In a finished run every sample is assigned to one of the `k` clusters,
/// and the frequencies add up to the number of samples.
pub open spec fn complete<T>(end: StateView<T>, k: nat, sample_cnt: nat) -> bool {
    &&& end.k == k
    &&& end.assignments.len() == sample_cnt
    &&& forall|i: int| 0 <= i < sample_cnt ==> #[trigger] end.assignments[i] < k
    &&& end.frequency.len() == k
    &&& total(end.frequency, k) == sample_cnt
}

impl<T: Primitive, D: DistanceFunction<T>> KMeans<T, D> {
    /// The error, if any, with which a request for `k` clusters is turned down.
    pub open spec fn cluster_error(&self, k: nat) -> Option<KMeansError> {
        if k == 0 {
            Some(KMeansError::ZeroClusters)
        } else if k > self.sample_cnt {
            Some(KMeansError::TooManyClusters)
        } else {
            None
        }
    }

    /// Clusters the samples into `k` clusters by full-batch iterations,
    /// starting from centroids chosen by `init`.
    pub fn kmeans_lloyd(
        &self,
        k: usize,
        max_iter: usize,
        init: Initialization,
        strategy: &AbortStrategy<T>,
        rng: &mut StdRng,
    ) -> (r: Result<KMeansResult<T>, KMeansError>)
        requires
            self.wf(),
        ensures
            match self.cluster_error(k as nat) {
                Some(e) => r == Err::<KMeansResult<T>, KMeansError>(e),
                None => exists|start: StateView<T>, ready: Result<(), KMeansError>|
                    #![trigger initialized(self, init, fresh_spec::<T>(self.sample_cnt as nat, self.stride as nat, k as nat), start, ready)]
                    initialized(
                        self,
                        init,
                        fresh_spec::<T>(self.sample_cnt as nat, self.stride as nat, k as nat),
                        start,
                        ready,
                    ) && match ready {
                        Err(e) => r == Err::<KMeansResult<T>, KMeansError>(e),
                        Ok(_) => match lloyd::run_spec(
                            self,
                            start,
                            *strategy,
                            0,
                            0,
                            max_iter as nat,
                        ) {
                            Ok(end) => r is Ok && r->Ok_0@ == end,
                            Err(e) => r == Err::<KMeansResult<T>, KMeansError>(e),
                        },
                    },
            },
            r is Ok ==> r->Ok_0.state.wf(self) && r->Ok_0.iterations <= max_iter && complete(
                r->Ok_0@.0,
                k as nat,
                self.sample_cnt as nat,
            ),
    {
        let mut state = match KMeansState::new(self, k) {
            Ok(state) => state,
            Err(e) => {
                return Err(e);
            },
        };
        let ghost fresh = state@;
        let ready = initialize(self, &mut state, init, rng);
        let ghost start = state@;
        if let Err(e) = ready {
            return Err(e);
        }
        let r = lloyd::run(self, state, max_iter, strategy);
        proof {
            assert(initialized(self, init, fresh, start, ready));
            if r is Ok {
                lemma_frequencies_total(
                    r->Ok_0@.0.assignments,
                    r->Ok_0@.0.frequency,
                    k as nat,
                );
            }
        }
        r
    }

    /// Clusters the samples into `k` clusters by mini-batch iterations on
    /// `batch_size` samples each, starting from centroids chosen by `init`.
    pub fn kmeans_minibatch(
        &self,
        batch_size: usize,
        k: usize,
        max_iter: usize,
        init: Initialization,
        strategy: &AbortStrategy<T>,
        rng: &mut StdRng,
    ) -> (r: Result<KMeansResult<T>, KMeansError>)
        requires
            self.wf(),
        ensures
            match self.cluster_error(k as nat) {
                Some(e) => r == Err::<KMeansResult<T>, KMeansError>(e),
                None => exists|start: StateView<T>, ready: Result<(), KMeansError>|
                    #![trigger initialized(self, init, fresh_spec::<T>(self.sample_cnt as nat, self.stride as nat, k as nat), start, ready)]
                    initialized(
                        self,
                        init,
                        fresh_spec::<T>(self.sample_cnt as nat, self.stride as nat, k as nat),
                        start,
                        ready,
                    ) && match ready {
                        Err(e) => r == Err::<KMeansResult<T>, KMeansError>(e),
                        Ok(_) => match minibatch::run_error(
                            batch_size as nat,
                            self.sample_cnt as nat,
                            max_iter as nat,
                        ) {
                            Some(e) => r == Err::<KMeansResult<T>, KMeansError>(e),
                            None => exists|batches: Seq<Seq<usize>>|
                                #![trigger minibatch::run_spec(self, start, batches, *strategy, max_iter as nat)]
                                minibatch::valid_batches(
                                    batches,
                                    batch_size as nat,
                                    self.sample_cnt as nat,
                                ) && match minibatch::run_spec(
                                    self,
                                    start,
                                    batches,
                                    *strategy,
                                    max_iter as nat,
                                ) {
                                    Some(Ok(end)) => r is Ok && r->Ok_0@ == end,
                                    Some(Err(e)) => r == Err::<KMeansResult<T>, KMeansError>(e),
                                    None => false,
                                },
                        },
                    },
            },
            r is Ok ==> r->Ok_0.state.wf(self) && r->Ok_0.iterations <= max_iter && complete(
                r->Ok_0@.0,
                k as nat,
                self.sample_cnt as nat,
            ),
    {
        let mut state = match KMeansState::new(self, k) {
            Ok(state) => state,
            Err(e) => {
                return Err(e);
            },
        };
        let ghost fresh = state@;
        let ready = initialize(self, &mut state, init, rng);
        let ghost start = state@;
        if let Err(e) = ready {
            return Err(e);
        }
        let r = minibatch::run(self, state, batch_size, max_iter, strategy, rng);
        proof {
            assert(initialized(self, init, fresh, start, ready));
            if r is Ok {
                lemma_frequencies_total(
                    r->Ok_0@.0.assignments,
                    r->Ok_0@.0.frequency,
                    k as nat,
                );
            }
        }
        r
    }
}

} // verus!
