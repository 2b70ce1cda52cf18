//! Policies that decide, after each iteration, whether a run goes on.

use crate::memory::Primitive;
use vstd::prelude::*;

verus! {

/// When a run stops before its iteration limit.
#[derive(Debug)]
pub enum AbortStrategy<T> {
    /// Never: the run always takes `max_iter` iterations.
    FixedIterations,
    /// As soon as an iteration lowers the distance sum by less than `threshold`.
    NoImprovement {
        /// The least improvement that counts.
        threshold: T,
    },
    /// As soon as `x` iterations in a row have each lowered the distance
    /// sum by less than `threshold`.
    NoImprovementForXIterations {
        /// Number of iterations without improvement that ends the run.
        x: usize,
        /// The least improvement that counts.
        threshold: T,
        /// Whether an iteration that raises the distance sum ends the run at once.
        abort_on_negative: bool,
    },
}

/// `stalled + 1`, held at the largest machine word.
pub open spec fn stalled_once_more(stalled: usize) -> usize {
    if stalled < usize::MAX {
        (stalled + 1) as usize
    } else {
        stalled
    }
}

impl<T: Primitive> AbortStrategy<T> {
    /// The decision after iteration `iteration` (counted from 1), given the
    /// distance sums of the iteration before and of this one, and the
    /// number `stalled` of iterations in a row without improvement so far:
    /// whether the run goes on, and the new number of stalled iterations.
    ///
    /// The run stops at the iteration limit whatever the policy. The first
    /// iteration has no predecessor to compare with and never stops the run
    /// below the limit.
    pub open spec fn decide_spec(
        self,
        stalled: usize,
        iteration: nat,
        previous: T,
        current: T,
        max_iter: nat,
    ) -> (bool, usize) {
        if iteration >= max_iter {
            (false, stalled)
        } else if iteration <= 1 {
            (true, stalled)
        } else {
            let improvement = previous.minus_spec(current);
            match self {
                AbortStrategy::FixedIterations => (true, stalled),
                AbortStrategy::NoImprovement { threshold } => (
                    !improvement.less_spec(threshold),
                    stalled,
                ),
                AbortStrategy::NoImprovementForXIterations { x, threshold, abort_on_negative } => {
                    if abort_on_negative && improvement.less_spec(T::zero_spec()) {
                        (false, stalled)
                    } else if improvement.less_spec(threshold) {
                        (stalled_once_more(stalled) < x, stalled_once_more(stalled))
                    } else {
                        (true, 0usize)
                    }
                },
            }
        }
    }

    /// Decides whether the run goes on after an iteration.
    pub fn decide(
        &self,
        stalled: usize,
        iteration: usize,
        previous: T,
        current: T,
        max_iter: usize,
    ) -> (r: (bool, usize))
        ensures
            r == self.decide_spec(stalled, iteration as nat, previous, current, max_iter as nat),
    {
        if iteration >= max_iter {
            return (false, stalled);
        }
        if iteration <= 1 {
            return (true, stalled);
        }
        let improvement = previous.minus(current);
        match self {
            AbortStrategy::FixedIterations => (true, stalled),
            AbortStrategy::NoImprovement { threshold } => (!improvement.less(*threshold), stalled),
            AbortStrategy::NoImprovementForXIterations { x, threshold, abort_on_negative } => {
                if *abort_on_negative && improvement.less(T::zero()) {
                    (false, stalled)
                } else if improvement.less(*threshold) {
                    let more: usize = if stalled < usize::MAX {
                        stalled + 1
                    } else {
                        stalled
                    };
                    (more < *x, more)
                } else {
                    (true, 0usize)
                }
            },
        }
    }
}

/// No policy lets a run go beyond its iteration limit.
pub proof fn lemma_limit_stops<T: Primitive>(
    strategy: AbortStrategy<T>,
    stalled: usize,
    iteration: nat,
    previous: T,
    current: T,
    max_iter: nat,
)
    requires
        iteration >= max_iter,
    ensures
        !strategy.decide_spec(stalled, iteration, previous, current, max_iter).0,
{
}

} // verus!
