//! The full-batch variant: every iteration assigns all samples and then
//! recomputes every centroid from scratch.

use crate::abort_strategy::AbortStrategy;
use crate::api::frequencies_of;
use crate::api::{DistanceFunction, KMeans, KMeansError, KMeansResult, KMeansState, StateView};
use crate::assign::{assign_all, assign_rows, blocks_distsum, rows_finite};
use crate::memory::Primitive;
use crate::update::{update_centroids, updated_centroids};
use vstd::prelude::*;

verus! {

/// An iteration fails where some distance between a sample and a centroid
/// is not finite.
pub open spec fn step_fails<T: Primitive, D: DistanceFunction<T>>(
    kmean: &KMeans<T, D>,
    s: StateView<T>,
) -> bool {
    !rows_finite(&kmean.distance_fn, kmean.rows(), s.centroids, s.k)
}

/// The state after one iteration: every sample is assigned to its nearest
/// centroid, the distances to the nearest centroids are summed, the
/// frequencies are counted anew and the centroids are moved to the means.
pub open spec fn step_spec<T: Primitive, D: DistanceFunction<T>>(
    kmean: &KMeans<T, D>,
    s: StateView<T>,
) -> StateView<T> {
    let assignments = assign_rows(&kmean.distance_fn, kmean.rows(), s.centroids, s.k);
    StateView {
        k: s.k,
        distsum: blocks_distsum(&kmean.distance_fn, kmean.p_samples@, s.centroids, s.k),
        centroids: updated_centroids(
            kmean.p_samples@,
            assignments,
            s.centroids,
            kmean.sample_dims as nat,
        ),
        frequency: frequencies_of(assignments, s.k),
        assignments,
    }
}

/// The outcome of a run that has taken `done` iterations and is in state
/// `s`, with `stalled` iterations in a row without improvement: the final
/// state and the total number of iterations, or the error that stopped it.
pub open spec fn run_spec<T: Primitive, D: DistanceFunction<T>>(
    kmean: &KMeans<T, D>,
    s: StateView<T>,
    strategy: AbortStrategy<T>,
    stalled: usize,
    done: nat,
    max_iter: nat,
) -> Result<(StateView<T>, nat), KMeansError>
    decreases max_iter - done,
{
    if done >= max_iter {
        Ok((s, done))
    } else if step_fails(kmean, s) {
        Err(KMeansError::NonFiniteDistance)
    } else {
        let next = step_spec(kmean, s);
        let verdict = strategy.decide_spec(stalled, done + 1, s.distsum, next.distsum, max_iter);
        if verdict.0 {
            run_spec(kmean, next, strategy, verdict.1, done + 1, max_iter)
        } else {
            Ok((next, done + 1))
        }
    }
}

/// One iteration: assignment, then update.
///
/// Of the state only the centroids are read; assignments, frequencies and
/// distance sum are written anew. Where a distance is not finite the state
/// is left as it was.
pub fn step<T: Primitive, D: DistanceFunction<T>>(
    kmean: &KMeans<T, D>,
    state: &mut KMeansState<T>,
) -> (r: Result<(), KMeansError>)
    requires
        kmean.wf(),
        0 < old(state).k <= kmean.sample_cnt,
        old(state).centroids_fit(kmean),
    ensures
        final(state).k == old(state).k,
        final(state).centroids_fit(kmean),
        step_fails(kmean, old(state)@) ==> r == Err::<(), KMeansError>(
            KMeansError::NonFiniteDistance,
        ) && *final(state) == *old(state),
        !step_fails(kmean, old(state)@) ==> r == Ok::<(), KMeansError>(()) && final(state)@
            == step_spec(kmean, old(state)@) && final(state).wf(kmean),
{
    let found = assign_all(kmean, &state.centroids, state.k);
    if !found.finite {
        return Err(KMeansError::NonFiniteDistance);
    }
    proof {
        kmean.lemma_rows();
    }
    state.assignments = found.assignments;
    state.distsum = found.distsum;
    update_centroids(kmean, state);
    Ok(())
}

/// Iterates from the given state until the abort strategy or the iteration
/// limit stops the run. Of the state only the centroids are read.
pub fn run<T: Primitive, D: DistanceFunction<T>>(
    kmean: &KMeans<T, D>,
    initial: KMeansState<T>,
    max_iter: usize,
    strategy: &AbortStrategy<T>,
) -> (r: Result<KMeansResult<T>, KMeansError>)
    requires
        kmean.wf(),
        0 < initial.k <= kmean.sample_cnt,
        initial.centroids_fit(kmean),
    ensures
        match run_spec(kmean, initial@, *strategy, 0, 0, max_iter as nat) {
            Ok(end) => r is Ok && r->Ok_0@ == end,
            Err(e) => r == Err::<KMeansResult<T>, KMeansError>(e),
        },
        r is Ok && (max_iter > 0 || initial.wf(kmean)) ==> r->Ok_0.state.wf(kmean),
        r is Ok && max_iter == 0 ==> r->Ok_0.state == initial,
        r is Ok ==> r->Ok_0.state.k == initial.k && r->Ok_0.iterations <= max_iter,
{
    let mut state = initial;
    let mut stalled: usize = 0;
    let mut done: usize = 0;
    while done < max_iter
        invariant_except_break
            run_spec(kmean, initial@, *strategy, 0, 0, max_iter as nat) == run_spec(
                kmean,
                state@,
                *strategy,
                stalled,
                done as nat,
                max_iter as nat,
            ),
        invariant
            kmean.wf(),
            0 < state.k <= kmean.sample_cnt,
            state.centroids_fit(kmean),
            done > 0 ==> state.wf(kmean),
            done == 0 ==> state == initial,
            state.k == initial.k,
            done <= max_iter,
        ensures
            max_iter > 0 ==> done > 0,
            run_spec(kmean, initial@, *strategy, 0, 0, max_iter as nat) == Ok::<
                (StateView<T>, nat),
                KMeansError,
            >((state@, done as nat)),
        decreases max_iter - done,
    {
        let previous = state.distsum;
        match step(kmean, &mut state) {
            Err(e) => {
                return Err(e);
            },
            Ok(()) => {},
        }
        let verdict = strategy.decide(stalled, done + 1, previous, state.distsum, max_iter);
        done += 1;
        stalled = verdict.1;
        if !verdict.0 {
            break ;
        }
    }
    Ok(KMeansResult { state, iterations: done })
}

} // verus!
