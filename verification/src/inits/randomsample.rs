//! Random sample: the centroids start at samples picked at random, an equal
//! share from every block.

use crate::api::{lemma_block_rows_prefix, lemma_block_rows_take, rows_per_block};
use crate::api::{DistanceFunction, KMeans, KMeansState, StateView};
use crate::memory::{block_rows, zeros, Primitive, StrideBuffer};
use crate::rng::{choose_indices, distinct};
use rand::rngs::StdRng;
use vstd::prelude::*;

verus! {

/// The lists of picks as sequences.
pub open spec fn deep(picks: Seq<Vec<usize>>) -> Seq<Seq<usize>> {
    Seq::new(picks.len(), |b: int| picks[b]@)
}

/// The rows that `picks` names in one block, in the order of the picks.
pub open spec fn picked_from<T>(block: StrideBuffer<T>, picks: Seq<usize>) -> Seq<Seq<T>> {
    Seq::new(picks.len(), |i: int| block@[picks[i] as int])
}

/// The rows that `picks` names, block after block.
pub open spec fn picked_rows<T>(blocks: Seq<StrideBuffer<T>>, picks: Seq<Seq<usize>>) -> Seq<
    Seq<T>,
>
    decreases blocks.len(),
{
    if blocks.len() == 0 {
        Seq::empty()
    } else {
        picked_rows(blocks.drop_last(), picks.drop_last()) + picked_from(
            blocks.last(),
            picks.last(),
        )
    }
}

/// The state after random-sample initialization with the given picks: the
/// picked rows become the centroids, copied as they are and in order,
/// until every centroid is set. Where the picks run out first, the
/// centroids that are left are zero.
pub open spec fn sample_spec<T: Primitive, D: DistanceFunction<T>>(
    kmean: &KMeans<T, D>,
    s: StateView<T>,
    picks: Seq<Seq<usize>>,
) -> StateView<T> {
    let chosen = picked_rows(kmean.p_samples@, picks);
    StateView {
        centroids: Seq::new(
            s.k,
            |c: int|
                if c < chosen.len() {
                    chosen[c]
                } else {
                    zeros::<T>(kmean.stride as nat)
                },
        ),
        ..s
    }
}

/// There is one list of picks for each block, and every pick names a row
/// of its block.
pub open spec fn picks_in_range<T: Primitive, D: DistanceFunction<T>>(
    kmean: &KMeans<T, D>,
    picks: Seq<Seq<usize>>,
) -> bool {
    &&& picks.len() == kmean.p_samples@.len()
    &&& forall|b: int, i: int|
        0 <= b < picks.len() && 0 <= i < picks[b].len() ==> #[trigger] picks[b][i]
            < kmean.p_samples@[b].rows
}

/// The picks are what random-sample initialization for `k` clusters draws:
/// from every block `k` divided by the number of blocks, rounded up, or
/// all rows of a block that has fewer; no row twice.
pub open spec fn valid_picks<T: Primitive, D: DistanceFunction<T>>(
    kmean: &KMeans<T, D>,
    k: nat,
    picks: Seq<Seq<usize>>,
) -> bool {
    &&& picks_in_range(kmean, picks)
    &&& forall|b: int|
        0 <= b < picks.len() ==> (#[trigger] picks[b]).len() == vstd::math::min(
            rows_per_block(k, kmean.p_samples@.len()) as int,
            kmean.p_samples@[b].rows as int,
        ) && distinct(picks[b])
}

/// No block holds more rows than all blocks together.
pub proof fn lemma_block_fits<T>(blocks: Seq<StrideBuffer<T>>, b: int)
    requires
        0 <= b < blocks.len(),
    ensures
        blocks[b].rows <= block_rows(blocks).len(),
{
    lemma_block_rows_take(blocks, b);
    lemma_block_rows_prefix(blocks, b + 1);
}

/// Initializes the centroids from picks that have been drawn already.
///
/// Only the centroids are written; assignments and frequencies stay as
/// they are.
pub fn from_picks<T: Primitive, D: DistanceFunction<T>>(
    kmean: &KMeans<T, D>,
    state: &mut KMeansState<T>,
    picks: &Vec<Vec<usize>>,
)
    requires
        kmean.wf(),
        0 < old(state).k <= kmean.sample_cnt,
        picks_in_range(kmean, deep(picks@)),
    ensures
        final(state).centroids_fit(kmean),
        old(state).wf(kmean) ==> final(state).wf(kmean),
        final(state).k == old(state).k,
        final(state)@ == sample_spec(kmean, old(state)@, deep(picks@)),
{
    let k = state.k;
    let stride = kmean.stride;
    proof {
        assert(k * stride <= kmean.sample_cnt * stride) by (nonlinear_arith)
            requires
                k <= kmean.sample_cnt,
                0 <= stride,
        ;
    }
    let mut centroids = match StrideBuffer::<T>::zeroed(k, stride) {
        Some(c) => c,
        None => {
            assert(false);
            StrideBuffer::empty(stride)
        },
    };
    let ghost lists = deep(picks@);
    let mut slot: usize = 0;
    let mut b: usize = 0;
    proof {
        centroids.lemma_view();
        assert(kmean.p_samples@.take(0) =~= Seq::<StrideBuffer<T>>::empty());
    }
    while b < kmean.p_samples.len()
        invariant
            kmean.wf(),
            k == state.k,
            stride == kmean.stride,
            lists == deep(picks@),
            picks_in_range(kmean, lists),
            b <= kmean.p_samples@.len(),
            centroids.wf(),
            centroids.rows == k,
            centroids.stride == stride,
            centroids@.len() == k,
            slot <= k,
            slot == vstd::math::min(
                k as int,
                picked_rows(kmean.p_samples@.take(b as int), lists.take(b as int)).len() as int,
            ),
            forall|c: int|
                0 <= c < slot ==> #[trigger] centroids@[c] == picked_rows(
                    kmean.p_samples@.take(b as int),
                    lists.take(b as int),
                )[c],
            forall|c: int| slot <= c < k ==> #[trigger] centroids@[c] == zeros::<T>(stride as nat),
        decreases kmean.p_samples@.len() - b,
    {
        let block = &kmean.p_samples[b];
        let list = &picks[b];
        let ghost before = picked_rows(kmean.p_samples@.take(b as int), lists.take(b as int));
        proof {
            assert(kmean.p_samples@.take(b + 1).drop_last() =~= kmean.p_samples@.take(b as int));
            assert(lists.take(b + 1).drop_last() =~= lists.take(b as int));
            assert(lists.take(b + 1).last() == list@);
            assert forall|q: int| 0 <= q < list@.len() implies #[trigger] list@[q]
                < block.rows by {
                assert(lists[b as int][q] < kmean.p_samples@[b as int].rows);
            }
            assert(kmean.p_samples@.take(b + 1).last() == *block);
            block.lemma_view();
        }
        let mut i: usize = 0;
        while i < list.len()
            invariant
                kmean.wf(),
                stride == kmean.stride,
                b < kmean.p_samples@.len(),
                *block == kmean.p_samples@[b as int],
                block.wf(),
                block.stride == stride,
                forall|q: int| 0 <= q < block.rows ==> (#[trigger] block@[q]).len() == stride,
                forall|q: int| 0 <= q < list@.len() ==> #[trigger] list@[q] < block.rows,
                i <= list@.len(),
                centroids.wf(),
                centroids.rows == k,
                centroids.stride == stride,
                centroids@.len() == k,
                slot <= k,
                slot == vstd::math::min(k as int, before.len() + i),
                forall|c: int|
                    0 <= c < slot ==> #[trigger] centroids@[c] == (before + picked_from(
                        *block,
                        list@.take(i as int),
                    ))[c],
                forall|c: int|
                    slot <= c < k ==> #[trigger] centroids@[c] == zeros::<T>(stride as nat),
            decreases list@.len() - i,
        {
            proof {
                let shorter = before + picked_from(*block, list@.take(i as int));
                let longer = before + picked_from(*block, list@.take(i + 1));
                assert forall|c: int| 0 <= c < shorter.len() implies shorter[c] == longer[c] by {}
                assert(longer[before.len() + i] == block@[list@[i as int] as int]);
            }
            if slot < k {
                let row = block.nth(list[i]);
                centroids.set_nth(slot, row, stride);
                proof {
                    assert(row@.take(stride as int) + zeros::<T>(0) =~= row@);
                }
                slot += 1;
            }
            i += 1;
        }
        proof {
            assert(list@.take(i as int) =~= list@);
        }
        b += 1;
    }
    proof {
        assert(kmean.p_samples@.take(b as int) =~= kmean.p_samples@);
        assert(lists.take(b as int) =~= lists);
        centroids.lemma_view();
        let target = sample_spec(kmean, state@, lists);
        assert(centroids@ =~= target.centroids);
        assert(centroids.padded_from(kmean.sample_dims as nat)) by {
            assert forall|r: int, j: int|
                0 <= r < centroids.rows && kmean.sample_dims <= j
                    < centroids.stride implies #[trigger] centroids@[r][j] == T::zero_spec() by {
                if r < picked_rows(kmean.p_samples@, lists).len() {
                    lemma_picked_rows_padded(kmean, lists, r, j);
                }
            }
        }
    }
    state.centroids = centroids;
}

/// A picked row is a sample row, so its padding is zero.
pub proof fn lemma_picked_rows_padded<T: Primitive, D: DistanceFunction<T>>(
    kmean: &KMeans<T, D>,
    picks: Seq<Seq<usize>>,
    r: int,
    j: int,
)
    requires
        kmean.wf(),
        picks_in_range(kmean, picks),
        0 <= r < picked_rows(kmean.p_samples@, picks).len(),
        kmean.sample_dims <= j < kmean.stride,
    ensures
        picked_rows(kmean.p_samples@, picks)[r][j] == T::zero_spec(),
{
    let blocks = kmean.p_samples@;
    lemma_picked_rows_are_rows(blocks, picks, r);
    let (b, q) = choose|b: int, q: int|
        0 <= b < blocks.len() && 0 <= q < blocks[b].rows && picked_rows(blocks, picks)[r]
            == #[trigger] blocks[b]@[q];
    assert(blocks[b].padded_from(kmean.sample_dims as nat));
    assert(blocks[b]@[q][j] == T::zero_spec());
}

/// Every picked row is a row of one of the blocks.
pub proof fn lemma_picked_rows_are_rows<T>(
    blocks: Seq<StrideBuffer<T>>,
    picks: Seq<Seq<usize>>,
    r: int,
)
    requires
        picks.len() == blocks.len(),
        forall|b: int, i: int|
            0 <= b < picks.len() && 0 <= i < picks[b].len() ==> #[trigger] picks[b][i]
                < blocks[b].rows,
        0 <= r < picked_rows(blocks, picks).len(),
    ensures
        exists|b: int, q: int|
            0 <= b < blocks.len() && 0 <= q < blocks[b].rows && picked_rows(blocks, picks)[r]
                == #[trigger] blocks[b]@[q],
    decreases blocks.len(),
{
    let front = picked_rows(blocks.drop_last(), picks.drop_last());
    if r < front.len() {
        assert forall|b: int, i: int|
            0 <= b < picks.drop_last().len() && 0 <= i
                < picks.drop_last()[b].len() implies #[trigger] picks.drop_last()[b][i]
            < blocks.drop_last()[b].rows by {
            assert(picks.drop_last()[b] == picks[b]);
            assert(picks[b][i] < blocks[b].rows);
        }
        lemma_picked_rows_are_rows(blocks.drop_last(), picks.drop_last(), r);
        let (b, q) = choose|b: int, q: int|
            0 <= b < blocks.drop_last().len() && 0 <= q < blocks.drop_last()[b].rows && front[r]
                == #[trigger] blocks.drop_last()[b]@[q];
        assert(picked_rows(blocks, picks)[r] == blocks[b]@[q]);
    } else {
        let b = blocks.len() - 1;
        let i = r - front.len();
        let q = picks[b][i] as int;
        assert(picked_rows(blocks, picks)[r] == blocks[b]@[q]);
    }
}

/// Picks, from every block, its share of `k` samples at random and makes
/// the picked samples the centroids.
pub fn calculate<T: Primitive, D: DistanceFunction<T>>(
    kmean: &KMeans<T, D>,
    state: &mut KMeansState<T>,
    rng: &mut StdRng,
)
    requires
        kmean.wf(),
        0 < old(state).k <= kmean.sample_cnt,
    ensures
        final(state).centroids_fit(kmean),
        old(state).wf(kmean) ==> final(state).wf(kmean),
        final(state).k == old(state).k,
        exists|picks: Seq<Seq<usize>>|
            #![auto]
            valid_picks(kmean, old(state).k as nat, picks) && final(state)@ == sample_spec(
                kmean,
                old(state)@,
                picks,
            ),
{
    let k = state.k;
    let blocks = kmean.p_samples.len();
    proof {
        if blocks == 0 {
            assert(block_rows(kmean.p_samples@) =~= Seq::<Seq<T>>::empty());
        }
    }
    let share: usize = if k % blocks == 0 {
        k / blocks
    } else {
        k / blocks + 1
    };
    let mut picks: Vec<Vec<usize>> = Vec::new();
    let mut b: usize = 0;
    while b < blocks
        invariant
            kmean.wf(),
            blocks == kmean.p_samples@.len(),
            share == rows_per_block(k as nat, blocks as nat),
            b <= blocks,
            picks@.len() == b,
            forall|q: int, i: int|
                0 <= q < b && 0 <= i < picks@[q]@.len() ==> #[trigger] picks@[q]@[i]
                    < kmean.p_samples@[q].rows,
            forall|q: int|
                0 <= q < b ==> (#[trigger] picks@[q])@.len() == vstd::math::min(
                    share as int,
                    kmean.p_samples@[q].rows as int,
                ) && distinct(picks@[q]@),
        decreases blocks - b,
    {
        let rows = kmean.p_samples[b].rows;
        let amount: usize = if share < rows {
            share
        } else {
            rows
        };
        proof {
            lemma_block_fits(kmean.p_samples@, b as int);
        }
        let list = choose_indices(rng, rows, amount);
        picks.push(list);
        b += 1;
    }
    proof {
        let lists = deep(picks@);
        assert forall|q: int| 0 <= q < lists.len() implies (#[trigger] lists[q]).len()
            == vstd::math::min(
            rows_per_block(k as nat, kmean.p_samples@.len()) as int,
            kmean.p_samples@[q].rows as int,
        ) && distinct(lists[q]) by {
            assert(lists[q] == picks@[q]@);
        }
        assert(valid_picks(kmean, k as nat, lists));
    }
    from_picks(kmean, state, &picks);
}

} // verus!
