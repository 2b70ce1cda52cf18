//! The sample set, the distance-function interface and the run state.

use crate::memory::{block_rows, lemma_row_bounds, padded_row, padded_width, stride_spec, zeros};
use crate::memory::{Primitive, StrideBuffer};
use vstd::prelude::*;

verus! {

/// Why a clustering request was turned down or a run was stopped.
#[derive(Clone, Copy, Debug, PartialEq, Eq, Structural)]
pub enum KMeansError {
    /// The samples have no dimensions.
    ZeroDimensions,
    /// The lane width is zero.
    ZeroLanes,
    /// The samples were to be split into zero blocks.
    ZeroBlocks,
    /// The sample buffer does not hold `sample_cnt * sample_dims` values.
    SampleLengthMismatch,
    /// The padded sample matrix or its index vectors exceed what can be addressed.
    TooLarge,
    /// No cluster was asked for.
    ZeroClusters,
    /// More clusters than samples were asked for.
    TooManyClusters,
    /// A mini-batch of zero samples, or of more samples than there are, was asked for.
    BadBatchSize,
    /// A distance that is not a finite number came up during assignment.
    NonFiniteDistance,
}

/// A dissimilarity measure between a sample row and a centroid row.
pub trait DistanceFunction<T: Primitive>: Sync {
    /// Value of [`DistanceFunction::distance`] on two rows.
    spec fn distance_spec(&self, a: Seq<T>, b: Seq<T>) -> T;

    /// The dissimilarity of two rows of equal width.
    fn distance(&self, a: &[T], b: &[T]) -> (d: T)
        requires
            a@.len() == b@.len(),
        ensures
            d == self.distance_spec(a@, b@),
    ;
}

/// Number of rows that the first `b` blocks hold, when `cnt` rows are dealt
/// out `per_block` at a time.
pub open spec fn rows_dealt(cnt: nat, per_block: nat, b: nat) -> nat
    decreases b,
{
    if b == 0 {
        0
    } else {
        let before = rows_dealt(cnt, per_block, (b - 1) as nat);
        if cnt - before < per_block {
            cnt
        } else {
            before + per_block
        }
    }
}

/// Rows per block: `cnt / blocks`, rounded up.
pub open spec fn rows_per_block(cnt: nat, blocks: nat) -> nat
    recommends
        blocks > 0,
{
    if cnt % blocks == 0 {
        cnt / blocks
    } else {
        cnt / blocks + 1
    }
}

/// Dealing `rows_per_block` rows to each of `b` blocks never hands out more
/// rows than there are, and reaches at least `b * rows_per_block` or all of them.
pub proof fn lemma_rows_dealt_bounds(cnt: nat, per_block: nat, b: nat)
    ensures
        rows_dealt(cnt, per_block, b) <= cnt,
        rows_dealt(cnt, per_block, b) == cnt || rows_dealt(cnt, per_block, b) == b * per_block,
    decreases b,
{
    if b > 0 {
        let p = (b - 1) as nat;
        lemma_rows_dealt_bounds(cnt, per_block, p);
        assert(p * per_block + per_block == b * per_block) by (nonlinear_arith)
            requires
                p + 1 == b,
        ;
    } else {
        assert(b * per_block == 0) by (nonlinear_arith)
            requires
                b == 0,
        ;
    }
}

/// All rows are dealt out once every block has had its share.
pub proof fn lemma_rows_dealt_all(cnt: nat, blocks: nat)
    requires
        blocks > 0,
    ensures
        rows_dealt(cnt, rows_per_block(cnt, blocks), blocks) == cnt,
{
    let per = rows_per_block(cnt, blocks);
    lemma_rows_dealt_bounds(cnt, per, blocks);
    let q = cnt / blocks;
    let r = cnt % blocks;
    assert(cnt == q * blocks + r) by {
        vstd::arithmetic::div_mod::lemma_fundamental_div_mod(cnt as int, blocks as int);
        vstd::arithmetic::mul::lemma_mul_is_commutative(q as int, blocks as int);
    }
    assert(blocks * per >= cnt) by (nonlinear_arith)
        requires
            cnt == q * blocks + r,
            r < blocks,
            per == (if r == 0 {
                q
            } else {
                q + 1
            }),
    ;
}

/// In a list of well-formed blocks of one stride, every row is that wide.
pub proof fn lemma_block_rows_width<T: Primitive>(blocks: Seq<StrideBuffer<T>>, stride: usize)
    requires
        forall|b: int| 0 <= b < blocks.len() ==> (#[trigger] blocks[b]).wf() && blocks[b].stride == stride,
    ensures
        forall|i: int| 0 <= i < block_rows(blocks).len() ==> (#[trigger] block_rows(blocks)[i]).len() == stride,
    decreases blocks.len(),
{
    if blocks.len() > 0 {
        let front = blocks.drop_last();
        assert forall|b: int| 0 <= b < front.len() implies (#[trigger] front[b]).wf()
            && front[b].stride == stride by {
            assert(front[b] == blocks[b]);
        }
        lemma_block_rows_width(front, stride);
        blocks.last().lemma_view();
        assert forall|i: int| 0 <= i < block_rows(blocks).len() implies (#[trigger] block_rows(
            blocks,
        )[i]).len() == stride by {
            if i >= block_rows(front).len() {
                assert(block_rows(blocks)[i] == blocks.last()@[i - block_rows(front).len()]);
            }
        }
    }
}

/// The rows of the first `b + 1` blocks are those of the first `b`, then block `b`'s.
pub proof fn lemma_block_rows_take<T>(blocks: Seq<StrideBuffer<T>>, b: int)
    requires
        0 <= b < blocks.len(),
    ensures
        block_rows(blocks.take(b + 1)) == block_rows(blocks.take(b)) + blocks[b]@,
{
    assert(blocks.take(b + 1).drop_last() =~= blocks.take(b));
    assert(blocks.take(b + 1).last() == blocks[b]);
}

/// An immutable set of samples, padded to the stride and split into blocks.
pub struct KMeans<T: Primitive, D: DistanceFunction<T>> {
    /// Number of samples.
    pub sample_cnt: usize,
    /// Number of dimensions of each sample.
    pub sample_dims: usize,
    /// Width of a stored row.
    pub stride: usize,
    /// The samples, block after block.
    pub p_samples: Vec<StrideBuffer<T>>,
    /// The dissimilarity measure used for assignment.
    pub distance_fn: D,
}

impl<T: Primitive, D: DistanceFunction<T>> KMeans<T, D> {
    /// All samples as padded rows, in the order they were given in.
    pub open spec fn rows(&self) -> Seq<Seq<T>> {
        block_rows(self.p_samples@)
    }

    /// The blocks are well-formed, share the stride and together hold
    /// `sample_cnt` rows of `sample_dims` values each, padded with zeros.
    pub open spec fn wf(&self) -> bool {
        &&& 0 < self.sample_dims <= self.stride
        &&& self.sample_cnt * self.stride <= usize::MAX
        &&& self.sample_cnt * 8 <= isize::MAX
        &&& forall|b: int|
            0 <= b < self.p_samples@.len() ==> (#[trigger] self.p_samples@[b]).wf()
                && self.p_samples@[b].stride == self.stride && self.p_samples@[b].padded_from(
                self.sample_dims as nat,
            )
        &&& self.rows().len() == self.sample_cnt
    }

    /// The error, if any, with which [`KMeans::new`] turns its arguments down.
    pub open spec fn new_error(
        len: nat,
        sample_cnt: nat,
        sample_dims: nat,
        lanes: nat,
        blocks: nat,
    ) -> Option<KMeansError> {
        if sample_dims == 0 {
            Some(KMeansError::ZeroDimensions)
        } else if lanes == 0 {
            Some(KMeansError::ZeroLanes)
        } else if blocks == 0 {
            Some(KMeansError::ZeroBlocks)
        } else if sample_cnt * sample_dims != len {
            Some(KMeansError::SampleLengthMismatch)
        } else if sample_cnt * stride_spec(sample_dims, lanes) > usize::MAX || sample_cnt * 8
            > isize::MAX || stride_spec(sample_dims, lanes) > usize::MAX {
            Some(KMeansError::TooLarge)
        } else {
            None
        }
    }

    /// Every row is `stride` wide.
    pub proof fn lemma_rows(&self)
        requires
            self.wf(),
        ensures
            self.rows().len() == self.sample_cnt,
            forall|i: int| 0 <= i < self.sample_cnt ==> (#[trigger] self.rows()[i]).len() == self.stride,
    {
        lemma_block_rows_width(self.p_samples@, self.stride);
    }

    /// Takes `sample_cnt` samples of `sample_dims` values each from a flat
    /// buffer, pads every sample with zeros to a multiple of `lanes` values
    /// and deals the samples out to `blocks` blocks, in order.
    pub fn new(
        samples: &[T],
        sample_cnt: usize,
        sample_dims: usize,
        lanes: usize,
        blocks: usize,
        distance_fn: D,
    ) -> (r: Result<Self, KMeansError>)
        ensures
            match r {
                Ok(km) => {
                    &&& Self::new_error(
                        samples@.len(),
                        sample_cnt as nat,
                        sample_dims as nat,
                        lanes as nat,
                        blocks as nat,
                    ) is None
                    &&& km.wf()
                    &&& km.sample_cnt == sample_cnt
                    &&& km.sample_dims == sample_dims
                    &&& km.stride == stride_spec(sample_dims as nat, lanes as nat)
                    &&& km.distance_fn == distance_fn
                    &&& km.p_samples@.len() == blocks
                    &&& forall|b: int|
                        0 <= b < blocks ==> (#[trigger] km.p_samples@[b]).rows == rows_dealt(
                            sample_cnt as nat,
                            rows_per_block(sample_cnt as nat, blocks as nat),
                            (b + 1) as nat,
                        ) - rows_dealt(
                            sample_cnt as nat,
                            rows_per_block(sample_cnt as nat, blocks as nat),
                            b as nat,
                        )
                    &&& km.rows() == Seq::new(
                        sample_cnt as nat,
                        |i: int| padded_row(samples@, i, sample_dims as nat, km.stride as nat),
                    )
                },
                Err(e) => Self::new_error(
                    samples@.len(),
                    sample_cnt as nat,
                    sample_dims as nat,
                    lanes as nat,
                    blocks as nat,
                ) == Some(e),
            },
    {
        if sample_dims == 0 {
            return Err(KMeansError::ZeroDimensions);
        }
        if lanes == 0 {
            return Err(KMeansError::ZeroLanes);
        }
        if blocks == 0 {
            return Err(KMeansError::ZeroBlocks);
        }
        let len = samples.len();
        match sample_cnt.checked_mul(sample_dims) {
            Some(n) => {
                if n != len {
                    return Err(KMeansError::SampleLengthMismatch);
                }
            },
            None => {
                return Err(KMeansError::SampleLengthMismatch);
            },
        }
        let stride = match padded_width(sample_dims, lanes) {
            Some(s) => s,
            None => {
                return Err(KMeansError::TooLarge);
            },
        };
        proof {
            crate::memory::lemma_stride_is_least_multiple(sample_dims as nat, lanes as nat);
        }
        if sample_cnt.checked_mul(stride).is_none() || sample_cnt > (isize::MAX as usize) / 8 {
            return Err(KMeansError::TooLarge);
        }
        let per_block: usize = if sample_cnt % blocks == 0 {
            sample_cnt / blocks
        } else {
            sample_cnt / blocks + 1
        };
        let ghost model = Seq::new(
            sample_cnt as nat,
            |i: int| padded_row(samples@, i, sample_dims as nat, stride as nat),
        );
        let mut p_samples: Vec<StrideBuffer<T>> = Vec::new();
        let mut next: usize = 0;
        let mut b: usize = 0;
        proof {
            assert(block_rows(p_samples@) =~= model.take(0));
        }
        while b < blocks
            invariant
                b <= blocks,
                0 < sample_dims <= stride,
                sample_cnt * sample_dims == samples@.len(),
                samples@.len() <= usize::MAX,
                sample_cnt * stride <= usize::MAX,
                per_block == rows_per_block(sample_cnt as nat, blocks as nat),
                next == rows_dealt(sample_cnt as nat, per_block as nat, b as nat),
                next <= sample_cnt,
                p_samples@.len() == b,
                forall|q: int|
                    0 <= q < b ==> (#[trigger] p_samples@[q]).wf() && p_samples@[q].stride
                        == stride && p_samples@[q].padded_from(sample_dims as nat),
                forall|q: int|
                    0 <= q < b ==> (#[trigger] p_samples@[q]).rows == rows_dealt(
                        sample_cnt as nat,
                        per_block as nat,
                        (q + 1) as nat,
                    ) - rows_dealt(sample_cnt as nat, per_block as nat, q as nat),
                model == Seq::new(
                    sample_cnt as nat,
                    |i: int| padded_row(samples@, i, sample_dims as nat, stride as nat),
                ),
                block_rows(p_samples@) == model.take(next as int),
            decreases blocks - b,
        {
            let take: usize = if sample_cnt - next < per_block {
                sample_cnt - next
            } else {
                per_block
            };
            let mut block: StrideBuffer<T> = StrideBuffer::empty(stride);
            let mut j: usize = 0;
            while j < take
                invariant
                    j <= take,
                    next + take <= sample_cnt,
                    0 < sample_dims <= stride,
                    sample_cnt * sample_dims == samples@.len(),
                    samples@.len() <= usize::MAX,
                    sample_cnt * stride <= usize::MAX,
                    block.wf(),
                    block.stride == stride,
                    block.rows == j,
                    model == Seq::new(
                        sample_cnt as nat,
                        |i: int| padded_row(samples@, i, sample_dims as nat, stride as nat),
                    ),
                    block@ == model.subrange(next as int, next + j),
                decreases take - j,
            {
                let i = next + j;
                proof {
                    lemma_row_bounds(i as int, sample_cnt as int, sample_dims as int);
                    lemma_row_bounds(j as int, sample_cnt as int, stride as int);
                }
                let row = vstd::slice::slice_subrange(
                    samples,
                    i * sample_dims,
                    i * sample_dims + sample_dims,
                );
                block.push_row(row, sample_dims);
                proof {
                    assert(row@.take(sample_dims as int) =~= row@);
                    assert(block@ =~= model.subrange(next as int, next + j + 1));
                }
                j += 1;
            }
            proof {
                let before = p_samples@;
                let after = before.push(block);
                assert(after.drop_last() =~= before);
                assert(block_rows(after) =~= model.take(next + take));
                assert forall|r: int, c: int|
                    0 <= r < block.rows && sample_dims <= c < block.stride implies #[trigger] block@[r][c]
                    == T::zero_spec() by {
                    lemma_row_bounds(next + r, sample_cnt as int, sample_dims as int);
                    assert(block@[r] == model[next + r]);
                    assert(model[next + r] == padded_row(
                        samples@,
                        next + r,
                        sample_dims as nat,
                        stride as nat,
                    ));
                }
            }
            p_samples.push(block);
            next = next + take;
            b += 1;
        }
        proof {
            lemma_rows_dealt_all(sample_cnt as nat, blocks as nat);
            assert(model.take(sample_cnt as int) =~= model);
        }
        Ok(KMeans { sample_cnt, sample_dims, stride, p_samples, distance_fn })
    }

    /// The padded row of sample `i`.
    pub fn sample_row(&self, i: usize) -> (row: &[T])
        requires
            self.wf(),
            i < self.sample_cnt,
        ensures
            row@ == self.rows()[i as int],
    {
        let mut b: usize = 0;
        let mut local: usize = i;
        proof {
            assert(self.p_samples@.take(self.p_samples@.len() as int) =~= self.p_samples@);
        }
        loop
            invariant
                self.wf(),
                i < self.sample_cnt,
                b <= self.p_samples@.len(),
                local + block_rows(self.p_samples@.take(b as int)).len() == i,
            ensures
                b < self.p_samples@.len(),
                local < self.p_samples@[b as int].rows,
                local + block_rows(self.p_samples@.take(b as int)).len() == i,
            decreases self.p_samples@.len() - b,
        {
            if b < self.p_samples.len() {
                proof {
                    lemma_block_rows_take(self.p_samples@, b as int);
                    self.p_samples@[b as int].lemma_view();
                }
                if local < self.p_samples[b].rows {
                    break ;
                }
                local = local - self.p_samples[b].rows;
                b += 1;
            } else {
                proof {
                    assert(self.p_samples@.take(b as int) =~= self.p_samples@);
                }
                assert(false);
            }
        }
        proof {
            let blocks = self.p_samples@;
            lemma_block_rows_take(blocks, b as int);
            blocks[b as int].lemma_view();
            lemma_block_rows_prefix(blocks, b + 1);
            let before = block_rows(blocks.take(b as int));
            let upto = block_rows(blocks.take(b + 1));
            assert(upto[i as int] == blocks[b as int]@[local as int]);
            assert(self.rows().take(upto.len() as int)[i as int] == self.rows()[i as int]);
        }
        self.p_samples[b].nth(local)
    }
}

/// The rows of the first `b` blocks are the first rows of all blocks.
pub proof fn lemma_block_rows_prefix<T>(blocks: Seq<StrideBuffer<T>>, b: int)
    requires
        0 <= b <= blocks.len(),
    ensures
        block_rows(blocks.take(b)).len() <= block_rows(blocks).len(),
        block_rows(blocks.take(b)) == block_rows(blocks).take(
            block_rows(blocks.take(b)).len() as int,
        ),
    decreases blocks.len() - b,
{
    if b == blocks.len() {
        assert(blocks.take(b) =~= blocks);
        assert(block_rows(blocks).take(block_rows(blocks).len() as int) =~= block_rows(blocks));
    } else {
        lemma_block_rows_prefix(blocks, b + 1);
        lemma_block_rows_take(blocks, b);
        let shorter = block_rows(blocks.take(b));
        let longer = block_rows(blocks.take(b + 1));
        assert(shorter =~= longer.take(shorter.len() as int));
        assert(longer.take(shorter.len() as int) =~= block_rows(blocks).take(
            shorter.len() as int,
        ));
    }
}

/// Row `j` of block `b` is the row of all blocks that comes after the rows
/// of the blocks before `b` and the first `j` rows of block `b`.
pub proof fn lemma_block_row_at<T: Primitive>(blocks: Seq<StrideBuffer<T>>, b: int, j: int)
    requires
        0 <= b < blocks.len(),
        0 <= j < blocks[b].rows,
    ensures
        block_rows(blocks.take(b)).len() + blocks[b].rows == block_rows(blocks.take(b + 1)).len(),
        block_rows(blocks.take(b + 1)).len() <= block_rows(blocks).len(),
        block_rows(blocks)[block_rows(blocks.take(b)).len() + j] == blocks[b]@[j],
{
    lemma_block_rows_take(blocks, b);
    lemma_block_rows_prefix(blocks, b + 1);
    let before = block_rows(blocks.take(b));
    let upto = block_rows(blocks.take(b + 1));
    assert(upto[before.len() + j] == blocks[b]@[j]);
    assert(block_rows(blocks).take(upto.len() as int)[before.len() + j] == block_rows(
        blocks,
    )[before.len() + j]);
}

/// In blocks that are padded from column `dims` on, every row is.
pub proof fn lemma_block_rows_padded<T: Primitive>(
    blocks: Seq<StrideBuffer<T>>,
    dims: nat,
    stride: usize,
    i: int,
    j: int,
)
    requires
        forall|b: int|
            0 <= b < blocks.len() ==> (#[trigger] blocks[b]).padded_from(dims) && blocks[b].stride
                == stride,
        0 <= i < block_rows(blocks).len(),
        dims <= j < stride,
    ensures
        block_rows(blocks)[i][j] == T::zero_spec(),
    decreases blocks.len(),
{
    let front = blocks.drop_last();
    if i < block_rows(front).len() {
        assert forall|b: int| 0 <= b < front.len() implies (#[trigger] front[b]).padded_from(dims)
            && front[b].stride == stride by {
            assert(front[b] == blocks[b]);
        }
        lemma_block_rows_padded(front, dims, stride, i, j);
    } else {
        let q = i - block_rows(front).len();
        assert(block_rows(blocks)[i] == blocks.last()@[q]);
        assert(blocks.last().padded_from(dims));
        assert(blocks.last()@[q][j] == T::zero_spec());
    }
}

/// How often cluster `c` occurs among the assignments.
pub open spec fn count_of(assignments: Seq<usize>, c: usize) -> nat
    decreases assignments.len(),
{
    if assignments.len() == 0 {
        0
    } else {
        count_of(assignments.drop_last(), c) + if assignments.last() == c {
            1nat
        } else {
            0nat
        }
    }
}

/// Appending one assignment raises the count of its cluster by one and
/// leaves every other count as it was.
pub proof fn lemma_count_push(assignments: Seq<usize>, x: usize, c: usize)
    ensures
        count_of(assignments.push(x), c) == count_of(assignments, c) + if x == c {
            1nat
        } else {
            0nat
        },
{
    assert(assignments.push(x).drop_last() =~= assignments);
}

/// No cluster occurs more often than there are assignments.
pub proof fn lemma_count_bound(assignments: Seq<usize>, c: usize)
    ensures
        count_of(assignments, c) <= assignments.len(),
    decreases assignments.len(),
{
    if assignments.len() > 0 {
        lemma_count_bound(assignments.drop_last(), c);
    }
}

/// The sum of the first `n` frequencies.
pub open spec fn total(frequency: Seq<usize>, n: nat) -> nat
    decreases n,
{
    if n == 0 {
        0
    } else {
        (total(frequency, (n - 1) as nat) + frequency[n - 1]) as nat
    }
}

/// The mathematical content of a run state.
pub struct StateView<T> {
    /// Number of clusters.
    pub k: nat,
    /// Sum of the distances between the samples and their centroids.
    pub distsum: T,
    /// The centroids as padded rows.
    pub centroids: Seq<Seq<T>>,
    /// Number of samples assigned to each cluster.
    pub frequency: Seq<usize>,
    /// The cluster that each sample is assigned to.
    pub assignments: Seq<usize>,
}

/// The mutable state of one clustering run.
pub struct KMeansState<T> {
    /// Number of clusters.
    pub k: usize,
    /// Sum of the distances between the samples and their centroids.
    pub distsum: T,
    /// The centroids, one padded row each.
    pub centroids: StrideBuffer<T>,
    /// Number of samples assigned to each cluster.
    pub centroid_frequency: Vec<usize>,
    /// The cluster that each sample is assigned to.
    pub assignments: Vec<usize>,
}

impl<T> View for KMeansState<T> {
    type V = StateView<T>;

    open spec fn view(&self) -> StateView<T> {
        StateView {
            k: self.k as nat,
            distsum: self.distsum,
            centroids: self.centroids@,
            frequency: self.centroid_frequency@,
            assignments: self.assignments@,
        }
    }
}

/// Every sample is assigned to one of `k` clusters, and each frequency
/// counts the samples of its cluster.
pub open spec fn consistent(assignments: Seq<usize>, frequency: Seq<usize>, k: nat) -> bool {
    &&& frequency.len() == k
    &&& forall|i: int| 0 <= i < assignments.len() ==> #[trigger] assignments[i] < k
    &&& forall|c: int| 0 <= c < k ==> #[trigger] frequency[c] == count_of(assignments, c as usize)
}

/// The frequencies that count the given assignments.
pub open spec fn frequencies_of(assignments: Seq<usize>, k: nat) -> Seq<usize> {
    Seq::new(k, |c: int| count_of(assignments, c as usize) as usize)
}

/// Frequencies that are consistent with the assignments are the counts.
pub proof fn lemma_consistent_frequencies(assignments: Seq<usize>, frequency: Seq<usize>, k: nat)
    requires
        consistent(assignments, frequency, k),
    ensures
        frequency == frequencies_of(assignments, k),
{
    assert(frequency =~= frequencies_of(assignments, k));
}

/// The state that a run is in before initialization: all centroids zero,
/// every sample in cluster 0.
pub open spec fn fresh_spec<T: Primitive>(sample_cnt: nat, stride: nat, k: nat) -> StateView<T> {
    StateView {
        k,
        distsum: T::zero_spec(),
        centroids: Seq::new(k, |c: int| zeros::<T>(stride)),
        frequency: frequencies_of(Seq::new(sample_cnt, |i: int| 0usize), k),
        assignments: Seq::new(sample_cnt, |i: int| 0usize),
    }
}

impl<T: Primitive> KMeansState<T> {
    /// There is one centroid for each cluster, as wide as a sample row and
    /// with zero padding.
    pub open spec fn centroids_fit<D: DistanceFunction<T>>(&self, kmean: &KMeans<T, D>) -> bool {
        &&& self.centroids.wf()
        &&& self.centroids.rows == self.k
        &&& self.centroids.stride == kmean.stride
        &&& self.centroids.padded_from(kmean.sample_dims as nat)
    }

    /// The state belongs to a run over `kmean`: between one and `sample_cnt`
    /// clusters, centroids of the samples' stride with zero padding, and
    /// assignments and frequencies that agree.
    pub open spec fn wf<D: DistanceFunction<T>>(&self, kmean: &KMeans<T, D>) -> bool {
        &&& 0 < self.k <= kmean.sample_cnt
        &&& self.centroids_fit(kmean)
        &&& self.assignments@.len() == kmean.sample_cnt
        &&& consistent(self.assignments@, self.centroid_frequency@, self.k as nat)
    }

    /// A fresh state for `k` clusters: all centroids zero, every sample in
    /// cluster 0.
    pub fn new<D: DistanceFunction<T>>(kmean: &KMeans<T, D>, k: usize) -> (r: Result<
        Self,
        KMeansError,
    >)
        requires
            kmean.wf(),
        ensures
            k == 0 ==> r == Err::<Self, KMeansError>(KMeansError::ZeroClusters),
            k > kmean.sample_cnt ==> r == Err::<Self, KMeansError>(KMeansError::TooManyClusters),
            0 < k <= kmean.sample_cnt ==> r is Ok,
            r is Ok ==> r->Ok_0.wf(kmean) && r->Ok_0@ == fresh_spec::<T>(
                kmean.sample_cnt as nat,
                kmean.stride as nat,
                k as nat,
            ),
    {
        if k == 0 {
            return Err(KMeansError::ZeroClusters);
        }
        if k > kmean.sample_cnt {
            return Err(KMeansError::TooManyClusters);
        }
        proof {
            assert(k * kmean.stride <= kmean.sample_cnt * kmean.stride) by (nonlinear_arith)
                requires
                    k <= kmean.sample_cnt,
                    0 <= kmean.stride,
            ;
        }
        let centroids = match StrideBuffer::<T>::zeroed(k, kmean.stride) {
            Some(c) => c,
            None => {
                assert(false);
                return Err(KMeansError::TooLarge);
            },
        };
        let mut assignments: Vec<usize> = Vec::new();
        let mut i: usize = 0;
        while i < kmean.sample_cnt
            invariant
                i <= kmean.sample_cnt,
                assignments@ == Seq::new(i as nat, |q: int| 0usize),
                count_of(assignments@, 0) == i,
                forall|c: usize| c != 0 ==> count_of(assignments@, c) == 0,
            decreases kmean.sample_cnt - i,
        {
            proof {
                let pushed = assignments@.push(0usize);
                assert(pushed =~= Seq::new((i + 1) as nat, |q: int| 0usize));
                assert forall|c: usize| true implies #[trigger] count_of(pushed, c) == count_of(
                    assignments@,
                    c,
                ) + if c == 0 {
                    1nat
                } else {
                    0nat
                } by {
                    lemma_count_push(assignments@, 0usize, c);
                }
            }
            assignments.push(0usize);
            i += 1;
        }
        let mut centroid_frequency: Vec<usize> = Vec::new();
        centroid_frequency.push(kmean.sample_cnt);
        let mut c: usize = 1;
        while c < k
            invariant
                1 <= c <= k,
                centroid_frequency@.len() == c,
                centroid_frequency@[0] == kmean.sample_cnt,
                forall|q: int| 1 <= q < c ==> centroid_frequency@[q] == 0,
            decreases k - c,
        {
            centroid_frequency.push(0usize);
            c += 1;
        }
        let state = KMeansState { k, distsum: T::zero(), centroids, centroid_frequency, assignments };
        proof {
            state.centroids.lemma_view();
            lemma_consistent_frequencies(state.assignments@, state.centroid_frequency@, k as nat);
        }
        Ok(state)
    }
}

/// What a finished run hands back: the state it ended in and the number
/// of iterations it took.
pub struct KMeansResult<T> {
    /// The final centroids, assignments, frequencies and distance sum.
    pub state: KMeansState<T>,
    /// Number of iterations the run took.
    pub iterations: usize,
}

impl<T> View for KMeansResult<T> {
    type V = (StateView<T>, nat);

    open spec fn view(&self) -> (StateView<T>, nat) {
        (self.state@, self.iterations as nat)
    }
}

impl<T: Primitive> KMeansResult<T> {
    /// The padded row of centroid `c`.
    pub fn centroid(&self, c: usize) -> (row: &[T])
        requires
            self.state.centroids.wf(),
            c < self.state.centroids.rows,
        ensures
            row@ == self@.0.centroids[c as int],
    {
        self.state.centroids.nth(c)
    }
}

} // verus!
