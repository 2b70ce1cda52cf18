//! K-means++: every further centroid is a sample drawn with a chance in
//! proportion to its distance from the centroids chosen so far.

use crate::api::lemma_block_rows_padded;
use crate::api::{DistanceFunction, KMeans, KMeansError, KMeansState, StateView};
use crate::assign::{assign_all, blocks_distsum, row_distances, rows_finite};
use crate::memory::{zeros, Primitive, StrideBuffer};
use crate::rng::draw_below;
use rand::rngs::StdRng;
use vstd::prelude::*;

verus! {

/// Number of equal steps that the range of a weighted draw is divided into.
pub const DRAW_RESOLUTION: usize = 0x0100_0000;

/// The point of the range from zero to `total` that the draw `unit` out of
/// [`DRAW_RESOLUTION`] stands for: `total` times `unit`, divided by the
/// resolution. The product comes first, so that the draws make a
/// difference for whole numbers too. A product beyond the range of the
/// number type takes part as what the number type makes of it.
pub open spec fn target_spec<T: Primitive>(total: T, unit: usize) -> T {
    total.times_spec(T::from_count_spec(unit)).divide_spec(
        T::from_count_spec(DRAW_RESOLUTION),
    )
}

/// Scans the weights from index `i` on, `acc` being the sum of the weights
/// before `i`: the first index at which the running sum exceeds `target`,
/// or the last index where it never does.
pub open spec fn pick_from<T: Primitive>(weights: Seq<T>, target: T, i: nat, acc: T) -> nat
    decreases weights.len() - i,
{
    if i + 1 >= weights.len() {
        i
    } else if target.less_spec(acc.plus_spec(weights[i as int])) {
        i
    } else {
        pick_from(weights, target, i + 1, acc.plus_spec(weights[i as int]))
    }
}

/// The index that `target` picks among the weights.
pub open spec fn weighted_pick_spec<T: Primitive>(weights: Seq<T>, target: T) -> nat {
    pick_from(weights, target, 0, T::zero_spec())
}

/// A weighted pick among at least one weight names one of them.
pub proof fn lemma_pick_in_range<T: Primitive>(weights: Seq<T>, target: T, i: nat, acc: T)
    requires
        i < weights.len(),
    ensures
        i <= pick_from(weights, target, i, acc) < weights.len(),
    decreases weights.len() - i,
{
    if i + 1 < weights.len() && !target.less_spec(acc.plus_spec(weights[i as int])) {
        lemma_pick_in_range(weights, target, i + 1, acc.plus_spec(weights[i as int]));
    }
}

/// Finds the index that `target` picks among the weights.
pub fn weighted_pick<T: Primitive>(weights: &Vec<T>, target: T) -> (r: usize)
    requires
        weights@.len() > 0,
    ensures
        r == weighted_pick_spec(weights@, target),
        r < weights@.len(),
{
    let mut i: usize = 0;
    let mut acc = T::zero();
    proof {
        lemma_pick_in_range(weights@, target, 0, T::zero_spec());
    }
    loop
        invariant
            i < weights@.len(),
            weighted_pick_spec(weights@, target) == pick_from(weights@, target, i as nat, acc),
        ensures
            i < weights@.len(),
            i == weighted_pick_spec(weights@, target),
        decreases weights@.len() - i,
    {
        if i >= weights.len() - 1 {
            break ;
        }
        let upto = acc.plus(weights[i]);
        if target.less(upto) {
            break ;
        }
        acc = upto;
        i += 1;
    }
    i
}

/// The centroid matrix once the first `c` centroids are chosen: centroid 0
/// is the sample `first`; centroid `c - 1` is the sample picked, by the
/// draw `units[c - 2]`, with the samples' distances to the nearest of the
/// centroids before it as weights. The rows that are not chosen yet are zero.
pub open spec fn plusplus_matrix<T: Primitive, D: DistanceFunction<T>>(
    kmean: &KMeans<T, D>,
    k: nat,
    first: usize,
    units: Seq<usize>,
    c: nat,
) -> Seq<Seq<T>>
    decreases c,
{
    if c <= 1 {
        Seq::new(k, |q: int| zeros::<T>(kmean.stride as nat)).update(
            0,
            kmean.rows()[first as int],
        )
    } else {
        let before = plusplus_matrix(kmean, k, first, units, (c - 1) as nat);
        let weights = row_distances(&kmean.distance_fn, kmean.rows(), before, (c - 1) as nat);
        let total = blocks_distsum(
            &kmean.distance_fn,
            kmean.p_samples@,
            before,
            (c - 1) as nat,
        );
        let picked = weighted_pick_spec(weights, target_spec(total, units[c - 2]));
        before.update(c - 1, kmean.rows()[picked as int])
    }
}

/// All distances between the samples and the first `c` centroids chosen
/// are finite.
pub open spec fn choice_finite<T: Primitive, D: DistanceFunction<T>>(
    kmean: &KMeans<T, D>,
    k: nat,
    first: usize,
    units: Seq<usize>,
    c: nat,
) -> bool {
    rows_finite(
        &kmean.distance_fn,
        kmean.rows(),
        plusplus_matrix(kmean, k, first, units, c),
        c,
    )
}

/// The initialization fails where, before some centroid is chosen, a
/// distance to the centroids chosen so far is not finite.
pub open spec fn plusplus_fails<T: Primitive, D: DistanceFunction<T>>(
    kmean: &KMeans<T, D>,
    k: nat,
    first: usize,
    units: Seq<usize>,
) -> bool {
    exists|c: nat| 1 <= c < k && !#[trigger] choice_finite(kmean, k, first, units, c)
}

/// The outcome of k-means++ with the given draws: the state with the
/// chosen centroids, or the error that stopped the initialization.
pub open spec fn plusplus_spec<T: Primitive, D: DistanceFunction<T>>(
    kmean: &KMeans<T, D>,
    s: StateView<T>,
    first: usize,
    units: Seq<usize>,
) -> Result<StateView<T>, KMeansError> {
    if plusplus_fails(kmean, s.k, first, units) {
        Err(KMeansError::NonFiniteDistance)
    } else {
        Ok(StateView { centroids: plusplus_matrix(kmean, s.k, first, units, s.k), ..s })
    }
}

/// The draws are what k-means++ for `k` clusters takes: a first sample
/// and one draw below [`DRAW_RESOLUTION`] for each further centroid.
pub open spec fn valid_units<T: Primitive, D: DistanceFunction<T>>(
    kmean: &KMeans<T, D>,
    k: nat,
    first: usize,
    units: Seq<usize>,
) -> bool {
    &&& first < kmean.sample_cnt
    &&& units.len() + 1 == k
    &&& forall|i: int| 0 <= i < units.len() ==> #[trigger] units[i] < DRAW_RESOLUTION
}

/// Chooses the centroids from draws that have been made already.
///
/// Only the centroids are written; assignments and frequencies stay as
/// they are. Where a distance is not finite the state is left as it was.
pub fn from_draws<T: Primitive, D: DistanceFunction<T>>(
    kmean: &KMeans<T, D>,
    state: &mut KMeansState<T>,
    first: usize,
    units: &Vec<usize>,
) -> (r: Result<(), KMeansError>)
    requires
        kmean.wf(),
        0 < old(state).k <= kmean.sample_cnt,
        first < kmean.sample_cnt,
        units@.len() + 1 == old(state).k,
    ensures
        r is Ok ==> final(state).centroids_fit(kmean),
        old(state).wf(kmean) ==> final(state).wf(kmean),
        final(state).k == old(state).k,
        match plusplus_spec(kmean, old(state)@, first, units@) {
            Ok(s) => r == Ok::<(), KMeansError>(()) && final(state)@ == s,
            Err(e) => r == Err::<(), KMeansError>(e) && *final(state) == *old(state),
        },
{
    let k = state.k;
    let stride = kmean.stride;
    let dims = kmean.sample_dims;
    proof {
        assert(k * stride <= kmean.sample_cnt * stride) by (nonlinear_arith)
            requires
                k <= kmean.sample_cnt,
                0 <= stride,
        ;
        kmean.lemma_rows();
    }
    let mut centroids = match StrideBuffer::<T>::zeroed(k, stride) {
        Some(c) => c,
        None => {
            assert(false);
            StrideBuffer::empty(stride)
        },
    };
    let row = kmean.sample_row(first);
    centroids.set_nth(0, row, stride);
    proof {
        assert(row@.take(stride as int) + zeros::<T>(0) =~= row@);
        assert(centroids.padded_from(dims as nat)) by {
            assert forall|r: int, j: int|
                0 <= r < centroids.rows && dims <= j < centroids.stride implies #[trigger] centroids@[r][j]
                == T::zero_spec() by {
                lemma_block_rows_padded(kmean.p_samples@, dims as nat, stride, first as int, j);
            }
        }
    }
    let mut c: usize = 1;
    while c < k
        invariant
            kmean.wf(),
            1 <= c <= k,
            k == state.k,
            k <= kmean.sample_cnt,
            stride == kmean.stride,
            dims == kmean.sample_dims,
            first < kmean.sample_cnt,
            units@.len() + 1 == k,
            kmean.rows().len() == kmean.sample_cnt,
            forall|i: int| 0 <= i < kmean.sample_cnt ==> (#[trigger] kmean.rows()[i]).len() == stride,
            *state == *old(state),
            centroids.wf(),
            centroids.rows == k,
            centroids.stride == stride,
            centroids.padded_from(dims as nat),
            centroids@ == plusplus_matrix(kmean, k as nat, first, units@, c as nat),
            forall|q: nat| 1 <= q < c ==> #[trigger] choice_finite(kmean, k as nat, first, units@, q),
        decreases k - c,
    {
        let found = assign_all(kmean, &centroids, c);
        if !found.finite {
            proof {
                assert(!choice_finite(kmean, k as nat, first, units@, c as nat));
            }
            return Err(KMeansError::NonFiniteDistance);
        }
        let target = found.distsum.times(T::from_count(units[c - 1])).divide(
            T::from_count(DRAW_RESOLUTION),
        );
        let picked = weighted_pick(&found.distances, target);
        let row = kmean.sample_row(picked);
        let ghost before = centroids@;
        centroids.set_nth(c, row, stride);
        proof {
            assert(row@.take(stride as int) + zeros::<T>(0) =~= row@);
            assert(centroids.padded_from(dims as nat)) by {
                assert forall|r: int, j: int|
                    0 <= r < centroids.rows && dims <= j < centroids.stride implies #[trigger] centroids@[r][j]
                    == T::zero_spec() by {
                    lemma_block_rows_padded(
                        kmean.p_samples@,
                        dims as nat,
                        stride,
                        picked as int,
                        j,
                    );
                    assert(before[r][j] == T::zero_spec());
                }
            }
        }
        c += 1;
    }
    state.centroids = centroids;
    Ok(())
}

/// Draws the first centroid among all samples and one weighted draw for
/// each further centroid, then chooses the centroids.
pub fn calculate<T: Primitive, D: DistanceFunction<T>>(
    kmean: &KMeans<T, D>,
    state: &mut KMeansState<T>,
    rng: &mut StdRng,
) -> (r: Result<(), KMeansError>)
    requires
        kmean.wf(),
        0 < old(state).k <= kmean.sample_cnt,
    ensures
        r is Ok ==> final(state).centroids_fit(kmean),
        old(state).wf(kmean) ==> final(state).wf(kmean),
        final(state).k == old(state).k,
        exists|first: usize, units: Seq<usize>|
            #![trigger plusplus_spec(kmean, old(state)@, first, units)]
            valid_units(kmean, old(state).k as nat, first, units) && match plusplus_spec(
                kmean,
                old(state)@,
                first,
                units,
            ) {
                Ok(s) => r == Ok::<(), KMeansError>(()) && final(state)@ == s,
                Err(e) => r == Err::<(), KMeansError>(e) && final(state)@ == old(state)@,
            },
{
    let k = state.k;
    let first = draw_below(rng, kmean.sample_cnt);
    let mut units: Vec<usize> = Vec::new();
    let mut c: usize = 1;
    while c < k
        invariant
            1 <= c <= k,
            units@.len() + 1 == c,
            forall|i: int| 0 <= i < units@.len() ==> #[trigger] units@[i] < DRAW_RESOLUTION,
        decreases k - c,
    {
        let unit = draw_below(rng, DRAW_RESOLUTION);
        units.push(unit);
        c += 1;
    }
    let r = from_draws(kmean, state, first, &units);
    proof {
        assert(valid_units(kmean, old(state).k as nat, first, units@));
    }
    r
}

} // verus!
