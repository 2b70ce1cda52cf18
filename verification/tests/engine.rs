use kmeans::abort_strategy::AbortStrategy;
use kmeans::assign::{assign_all, nearest};
use kmeans::inits::{kmeanplusplus, randompartition, randomsample};
use kmeans::memory::padded_width;
use kmeans::update::{accumulate, add_block, merge, merged_sums, split, sum_block, tally};
use kmeans::update::update_centroids;
use kmeans::variants::{initialize, lloyd, minibatch};
use kmeans::{DistanceFunction, EuclideanDistance, HistogramDistance, Initialization};
use kmeans::{KMeans, KMeansError, KMeansState, Primitive, StrideBuffer};
use rand::rngs::StdRng;
use rand::SeedableRng;

#[derive(Clone, Copy, Debug, PartialEq)]
struct F(f64);

impl Primitive for F {
    fn zero_spec() -> Self {
        F(0.0)
    }
    fn from_count_spec(n: usize) -> Self {
        F(n as f64)
    }
    fn plus_spec(self, rhs: Self) -> Self {
        F(self.0 + rhs.0)
    }
    fn minus_spec(self, rhs: Self) -> Self {
        F(self.0 - rhs.0)
    }
    fn times_spec(self, rhs: Self) -> Self {
        F(self.0 * rhs.0)
    }
    fn divide_spec(self, rhs: Self) -> Self {
        F(self.0 / rhs.0)
    }
    fn less_spec(self, rhs: Self) -> bool {
        self.0 < rhs.0
    }
    fn is_finite_spec(self) -> bool {
        self.0.is_finite()
    }
    fn zero() -> Self {
        F(0.0)
    }
    fn from_count(n: usize) -> Self {
        F(n as f64)
    }
    fn plus(self, rhs: Self) -> Self {
        F(self.0 + rhs.0)
    }
    fn minus(self, rhs: Self) -> Self {
        F(self.0 - rhs.0)
    }
    fn times(self, rhs: Self) -> Self {
        F(self.0 * rhs.0)
    }
    fn divide(self, rhs: Self) -> Self {
        F(self.0 / rhs.0)
    }
    fn less(self, rhs: Self) -> bool {
        self.0 < rhs.0
    }
    fn is_finite(self) -> bool {
        self.0.is_finite()
    }
}

fn fs(values: &[f64]) -> Vec<F> {
    values.iter().map(|v| F(*v)).collect()
}

/// Two well separated groups of points on a line, interleaved.
fn two_groups() -> Vec<F> {
    fs(&[1.0, 101.0, 2.0, 102.0, 3.0, 103.0, 4.0, 104.0])
}

fn grid(sample_cnt: usize, dims: usize) -> Vec<F> {
    let mut values = Vec::new();
    for i in 0..sample_cnt {
        for d in 0..dims {
            values.push(F((i * 7 + d * 3) as f64 + (i % 5) as f64 * 0.25));
        }
    }
    values
}

fn set_centroids(state: &mut KMeansState<F>, rows: &[&[f64]]) {
    for (c, row) in rows.iter().enumerate() {
        state.centroids.set_nth(c, &fs(row), row.len());
    }
}

#[test]
fn padded_width_rounds_up_to_the_lane_width() {
    assert_eq!(padded_width(3, 4), Some(4));
    assert_eq!(padded_width(8, 4), Some(8));
    assert_eq!(padded_width(9, 4), Some(12));
    assert_eq!(padded_width(5, 1), Some(5));
    assert_eq!(padded_width(0, 4), Some(0));
    assert_eq!(padded_width(3, 0), None);
    assert_eq!(padded_width(usize::MAX, 4), None);
}

#[test]
fn stride_buffer_rows_are_read_and_written_in_place() {
    let mut buffer = StrideBuffer::<F>::zeroed(2, 4).unwrap();
    assert_eq!(buffer.bfr, fs(&[0.0; 8]));
    buffer.set_nth(1, &fs(&[1.0, 2.0, 3.0]), 3);
    assert_eq!(buffer.bfr, fs(&[0.0, 0.0, 0.0, 0.0, 1.0, 2.0, 3.0, 0.0]));
    buffer.set(0, 2, F(9.0));
    assert_eq!(buffer.get(0, 2), F(9.0));
    assert_eq!(buffer.nth(0), &fs(&[0.0, 0.0, 9.0, 0.0])[..]);
    buffer.set_nth(1, &fs(&[7.0, 8.0]), 1);
    assert_eq!(buffer.nth(1), &fs(&[7.0, 0.0, 0.0, 0.0])[..]);
    buffer.push_row(&fs(&[5.0, 6.0]), 2);
    assert_eq!(buffer.rows, 3);
    assert_eq!(buffer.nth(2), &fs(&[5.0, 6.0, 0.0, 0.0])[..]);
    assert!(StrideBuffer::<F>::zeroed(usize::MAX, 2).is_none());
    let empty = StrideBuffer::<F>::empty(4);
    assert_eq!((empty.rows, empty.stride, empty.bfr.len()), (0, 4, 0));
}

#[test]
fn new_pads_rows_to_the_stride() {
    let samples = fs(&[1.0, 2.0, 3.0, 4.0, 5.0, 6.0]);
    let km = KMeans::new(&samples, 2, 3, 4, 1, EuclideanDistance).unwrap();
    assert_eq!((km.sample_cnt, km.sample_dims, km.stride), (2, 3, 4));
    assert_eq!(km.p_samples.len(), 1);
    assert_eq!(km.p_samples[0].bfr, fs(&[1.0, 2.0, 3.0, 0.0, 4.0, 5.0, 6.0, 0.0]));
}

#[test]
fn new_deals_the_samples_out_in_order() {
    let samples = fs(&[1.0, 2.0, 3.0, 4.0, 5.0]);
    let km = KMeans::new(&samples, 5, 1, 1, 2, EuclideanDistance).unwrap();
    assert_eq!(km.p_samples[0].bfr, fs(&[1.0, 2.0, 3.0]));
    assert_eq!(km.p_samples[1].bfr, fs(&[4.0, 5.0]));
    let km = KMeans::new(&samples[..2], 2, 1, 1, 3, EuclideanDistance).unwrap();
    let rows: Vec<usize> = km.p_samples.iter().map(|b| b.rows).collect();
    assert_eq!(rows, vec![1, 1, 0]);
    for i in 0..2 {
        assert_eq!(km.sample_row(i), &samples[i..i + 1]);
    }
}

#[test]
fn new_rejects_bad_shapes() {
    let samples = fs(&[1.0, 2.0, 3.0, 4.0]);
    let err = |cnt, dims, lanes, blocks| KMeans::new(&samples, cnt, dims, lanes, blocks, EuclideanDistance).err();
    assert_eq!(err(2, 0, 4, 1), Some(KMeansError::ZeroDimensions));
    assert_eq!(err(2, 2, 0, 1), Some(KMeansError::ZeroLanes));
    assert_eq!(err(2, 2, 4, 0), Some(KMeansError::ZeroBlocks));
    assert_eq!(err(3, 2, 4, 1), Some(KMeansError::SampleLengthMismatch));
    assert_eq!(err(usize::MAX, 2, 4, 1), Some(KMeansError::SampleLengthMismatch));
    assert_eq!(err(4, 1, usize::MAX, 1), Some(KMeansError::TooLarge));
    assert_eq!(err(0, 0, 0, 0), Some(KMeansError::ZeroDimensions));
    assert!(KMeans::new(&samples, 2, 2, 4, 1, EuclideanDistance).is_ok());
    assert!(KMeans::new(&samples[..0], 0, 2, 4, 1, EuclideanDistance).is_ok());
}

#[test]
fn euclidean_distance_is_the_sum_of_squared_differences() {
    let d = EuclideanDistance;
    assert_eq!(d.distance(&fs(&[1.0, 2.0, 0.0, 0.0]), &fs(&[4.0, 6.0, 0.0, 0.0])), F(25.0));
    assert_eq!(d.distance(&fs(&[1.5, -2.0]), &fs(&[1.5, -2.0])), F(0.0));
    assert_eq!(d.distance(&fs(&[]), &fs(&[])), F(0.0));
    assert_eq!(d.distance(&fs(&[3.0]), &fs(&[1.0])), d.distance(&fs(&[1.0]), &fs(&[3.0])));
}

#[test]
fn euclidean_distance_is_not_negative_and_zero_for_equal_rows() {
    let rows = grid(12, 3);
    for a in rows.chunks(3) {
        for b in rows.chunks(3) {
            let d = EuclideanDistance.distance(a, b);
            assert!(d.0 >= 0.0);
            assert_eq!(d.0 == 0.0, a == b);
        }
    }
}

#[test]
fn histogram_distance_skips_empty_lanes() {
    let d = HistogramDistance;
    assert_eq!(d.distance(&fs(&[1.0, 3.0, 0.0, 0.0]), &fs(&[3.0, 1.0, 0.0, 0.0])), F(2.0));
    assert_eq!(d.distance(&fs(&[0.0, 0.0]), &fs(&[0.0, 0.0])), F(0.0));
    assert_eq!(d.distance(&fs(&[2.0, 0.0]), &fs(&[0.0, 0.0])), F(2.0));
    assert!(d.distance(&fs(&[5.0, 0.0]), &fs(&[5.0, 0.0])).0 == 0.0);
}

#[test]
fn nearest_prefers_the_lowest_index_among_equals() {
    let mut centroids = StrideBuffer::<F>::zeroed(3, 2).unwrap();
    centroids.set_nth(0, &fs(&[2.0]), 1);
    centroids.set_nth(1, &fs(&[0.0]), 1);
    centroids.set_nth(2, &fs(&[2.0]), 1);
    assert_eq!(nearest(&EuclideanDistance, &fs(&[1.0, 0.0]), &centroids, 3), (0, F(1.0), true));
    assert_eq!(nearest(&EuclideanDistance, &fs(&[0.25, 0.0]), &centroids, 3), (1, F(0.0625), true));
    assert_eq!(nearest(&EuclideanDistance, &fs(&[0.25, 0.0]), &centroids, 1), (0, F(3.0625), true));
    let found = nearest(&EuclideanDistance, &fs(&[f64::INFINITY, 0.0]), &centroids, 3);
    assert!(!found.2);
}

#[test]
fn assignment_visits_every_block() {
    let samples = fs(&[0.0, 10.0, 5.0, 4.0]);
    let km = KMeans::new(&samples, 4, 1, 2, 3, EuclideanDistance).unwrap();
    let mut state = KMeansState::new(&km, 2).unwrap();
    set_centroids(&mut state, &[&[0.0], &[10.0]]);
    let found = assign_all(&km, &state.centroids, 2);
    assert_eq!(found.assignments, vec![0, 1, 0, 0]);
    assert_eq!(found.distances, fs(&[0.0, 0.0, 25.0, 16.0]));
    assert_eq!(found.distsum, F(41.0));
    assert!(found.finite);
    let found = assign_all(&km, &state.centroids, 1);
    assert_eq!(found.assignments, vec![0, 0, 0, 0]);
    assert_eq!(found.distsum, F(141.0));
}

#[test]
fn fresh_state_puts_every_sample_into_the_first_cluster() {
    let km = KMeans::new(&two_groups(), 8, 1, 4, 2, EuclideanDistance).unwrap();
    let state = KMeansState::new(&km, 3).unwrap();
    assert_eq!(state.k, 3);
    assert_eq!(state.assignments, vec![0; 8]);
    assert_eq!(state.centroid_frequency, vec![8, 0, 0]);
    assert_eq!(state.centroids.bfr, fs(&[0.0; 12]));
    assert_eq!(state.distsum, F(0.0));
    assert_eq!(KMeansState::new(&km, 0).err(), Some(KMeansError::ZeroClusters));
    assert_eq!(KMeansState::new(&km, 9).err(), Some(KMeansError::TooManyClusters));
    assert!(KMeansState::new(&km, 8).is_ok());
}

#[test]
fn tally_counts_each_cluster() {
    assert_eq!(tally(&vec![2, 0, 2, 2, 1], 4), vec![1, 1, 3, 0]);
    assert_eq!(tally(&vec![], 2), vec![0, 0]);
}

#[test]
fn accumulate_adds_rows_per_cluster() {
    let km = KMeans::new(&two_groups(), 4, 2, 4, 2, EuclideanDistance).unwrap();
    let sums = accumulate(&km, &vec![1, 0, 1, 1], 2, None);
    assert_eq!(sums.bfr, fs(&[2.0, 102.0, 0.0, 0.0, 8.0, 308.0, 0.0, 0.0]));
    let halves = accumulate(&km, &vec![1, 0, 1, 1], 2, Some(&fs(&[1.0, 2.0])));
    assert_eq!(halves.bfr, fs(&[2.0, 102.0, 0.0, 0.0, 4.0, 154.0, 0.0, 0.0]));
}

#[test]
fn blocks_sum_up_on_their_own_and_are_merged_in_order() {
    let km = KMeans::new(&two_groups(), 8, 1, 2, 3, EuclideanDistance).unwrap();
    let assignments = vec![0, 1, 0, 1, 0, 1, 0, 1];
    let parts = split(&km, &assignments);
    assert_eq!(parts, vec![&[0, 1, 0][..], &[1, 0, 1][..], &[0, 1][..]]);
    let partial = sum_block(&km.p_samples[1], parts[1], 2, 1);
    assert_eq!(partial.bfr, fs(&[3.0, 0.0, 205.0, 0.0]));
    let mut sums = StrideBuffer::<F>::zeroed(2, 2).unwrap();
    sums.set(1, 0, F(0.5));
    add_block(&mut sums, &km.p_samples[0], parts[0], Some(&fs(&[2.0, 4.0])), 1);
    assert_eq!(sums.bfr, fs(&[1.5, 0.0, 25.75, 0.0]));
    let merged = merge(&vec![partial, sums], 2, 2, 1);
    assert_eq!(merged.bfr, fs(&[4.5, 0.0, 230.75, 0.0]));
    assert_eq!(merge(&Vec::<StrideBuffer<F>>::new(), 1, 2, 2).bfr, fs(&[0.0, 0.0]));
    assert_eq!(merged_sums(&km, &assignments, 2).bfr, fs(&[10.0, 0.0, 410.0, 0.0]));
}

#[test]
fn sums_round_in_the_order_they_are_stated_in() {
    let samples = fs(&[1.0e16, 1.0, -1.0e16, 1.0]);
    let one_block = KMeans::new(&samples, 4, 1, 1, 1, EuclideanDistance).unwrap();
    let two_blocks = KMeans::new(&samples, 4, 1, 1, 2, EuclideanDistance).unwrap();
    let assignments = vec![0; 4];
    assert_eq!(merged_sums(&one_block, &assignments, 1).bfr, fs(&[1.0]));
    assert_eq!(merged_sums(&two_blocks, &assignments, 1).bfr, fs(&[0.0]));
    assert_eq!(accumulate(&one_block, &assignments, 1, None).bfr, fs(&[1.0]));
    assert_eq!(accumulate(&two_blocks, &assignments, 1, None).bfr, fs(&[1.0]));
    let mut state = KMeansState::new(&two_blocks, 1).unwrap();
    state.centroid_frequency = tally(&state.assignments, 1);
    update_centroids(&two_blocks, &mut state);
    assert_eq!(state.centroids.bfr, fs(&[0.0]));
}

#[test]
fn update_moves_centroids_to_the_means() {
    let km = KMeans::new(&two_groups(), 8, 1, 2, 2, EuclideanDistance).unwrap();
    let mut state = KMeansState::new(&km, 3).unwrap();
    set_centroids(&mut state, &[&[0.0], &[50.0], &[-7.5]]);
    state.assignments = vec![0, 1, 0, 1, 0, 1, 0, 1];
    state.centroid_frequency = tally(&state.assignments, 3);
    update_centroids(&km, &mut state);
    assert_eq!(state.centroids.bfr, fs(&[2.5, 0.0, 102.5, 0.0, -7.5, 0.0]));
}

#[test]
fn iterations_read_nothing_but_the_centroids() {
    let km = KMeans::new(&two_groups(), 8, 1, 2, 3, EuclideanDistance).unwrap();
    let mut state = KMeansState::new(&km, 2).unwrap();
    set_centroids(&mut state, &[&[0.0], &[100.0]]);
    state.centroid_frequency = vec![5, 5];
    state.assignments = vec![1, 1, 1, 1, 0, 0, 0, 0];
    update_centroids(&km, &mut state);
    assert_eq!(state.centroid_frequency, vec![4, 4]);
    assert_eq!(state.centroids.bfr, fs(&[53.5, 0.0, 51.5, 0.0]));
    set_centroids(&mut state, &[&[0.0], &[100.0]]);
    state.centroid_frequency = vec![0, 0];
    state.assignments = Vec::new();
    assert_eq!(lloyd::step(&km, &mut state), Ok(()));
    assert_eq!(state.assignments, vec![0, 1, 0, 1, 0, 1, 0, 1]);
    assert_eq!(state.centroid_frequency, vec![4, 4]);
    assert_eq!(state.centroids.bfr, fs(&[2.5, 0.0, 102.5, 0.0]));
    state.centroid_frequency = vec![9];
    state.assignments = vec![7];
    let result = lloyd::run(&km, state, 2, &AbortStrategy::FixedIterations).unwrap();
    assert_eq!(result.state.centroid_frequency, vec![4, 4]);
    let mut state = result.state;
    state.centroid_frequency = Vec::new();
    state.assignments = Vec::new();
    let settled = minibatch::settle(&km, state, 0).unwrap();
    assert_eq!(settled.state.assignments, vec![0, 1, 0, 1, 0, 1, 0, 1]);
    assert_eq!((settled.state.centroid_frequency.clone(), settled.state.distsum), (vec![4, 4], F(10.0)));
}

#[test]
fn one_iteration_assigns_then_updates() {
    let km = KMeans::new(&two_groups(), 8, 1, 2, 3, EuclideanDistance).unwrap();
    let mut state = KMeansState::new(&km, 2).unwrap();
    set_centroids(&mut state, &[&[0.0], &[100.0]]);
    assert_eq!(lloyd::step(&km, &mut state), Ok(()));
    assert_eq!(state.assignments, vec![0, 1, 0, 1, 0, 1, 0, 1]);
    assert_eq!(state.centroid_frequency, vec![4, 4]);
    assert_eq!(state.distsum, F(60.0));
    assert_eq!(state.centroids.bfr, fs(&[2.5, 0.0, 102.5, 0.0]));
    assert_eq!(lloyd::step(&km, &mut state), Ok(()));
    assert_eq!(state.distsum, F(10.0));
    assert_eq!(state.centroids.bfr, fs(&[2.5, 0.0, 102.5, 0.0]));
}

#[test]
fn an_unassigned_centroid_never_moves() {
    let km = KMeans::new(&two_groups(), 8, 1, 4, 2, EuclideanDistance).unwrap();
    let mut state = KMeansState::new(&km, 3).unwrap();
    set_centroids(&mut state, &[&[0.0], &[100.0], &[1.0e9]]);
    let result = lloyd::run(&km, state, 25, &AbortStrategy::FixedIterations).unwrap();
    assert_eq!(result.iterations, 25);
    assert_eq!(result.centroid(2), &fs(&[1.0e9, 0.0, 0.0, 0.0])[..]);
    assert_eq!(result.state.centroid_frequency, vec![4, 4, 0]);
    assert_eq!(result.centroid(0), &fs(&[2.5, 0.0, 0.0, 0.0])[..]);
    assert!(result.state.centroids.bfr.iter().all(|v| v.0.is_finite()));
}

#[test]
fn every_sample_its_own_centroid_gives_distsum_zero() {
    let samples = grid(9, 2);
    let km = KMeans::new(&samples, 9, 2, 4, 2, EuclideanDistance).unwrap();
    let mut rng = StdRng::seed_from_u64(7);
    let mut state = KMeansState::new(&km, 9).unwrap();
    let picks: Vec<Vec<usize>> = vec![vec![4, 0, 2, 1, 3], vec![3, 1, 0, 2]];
    randomsample::from_picks(&km, &mut state, &picks);
    let result = lloyd::run(&km, state, 1, &AbortStrategy::FixedIterations).unwrap();
    assert_eq!(result.iterations, 1);
    assert_eq!(result.state.distsum, F(0.0));
    assert_eq!(result.state.centroid_frequency, vec![1; 9]);
    let result = km.kmeans_lloyd(9, 1, Initialization::RandomSample, &AbortStrategy::FixedIterations, &mut rng).unwrap();
    let mut a = result.state.assignments.clone();
    a.sort();
    assert_eq!(a.len(), 9);
}

#[test]
fn random_partition_gives_the_mean_for_one_cluster() {
    let samples = grid(40, 3);
    let km = KMeans::new(&samples, 40, 3, 8, 3, EuclideanDistance).unwrap();
    let mut rng = StdRng::seed_from_u64(1337);
    let mut state = KMeansState::new(&km, 1).unwrap();
    randompartition::calculate(&km, &mut state, &mut rng);
    assert_eq!(state.assignments, vec![0; 40]);
    assert_eq!(state.centroid_frequency, vec![40]);
    let mut mean = [0.0f64; 3];
    for row in samples.chunks(3) {
        for d in 0..3 {
            mean[d] += row[d].0 / 40.0;
        }
    }
    for d in 0..3 {
        assert!((state.centroids.get(0, d).0 - mean[d]).abs() < 1e-9);
    }
    update_centroids(&km, &mut state);
    for d in 0..3 {
        assert!((state.centroids.get(0, d).0 - mean[d]).abs() < 1e-9);
    }
    for d in 3..8 {
        assert_eq!(state.centroids.get(0, d), F(0.0));
    }
}

#[test]
fn random_partition_from_draws_is_the_running_mean() {
    let km = KMeans::new(&two_groups(), 8, 1, 2, 2, EuclideanDistance).unwrap();
    let mut state = KMeansState::new(&km, 3).unwrap();
    set_centroids(&mut state, &[&[5.0], &[5.0], &[5.0]]);
    randompartition::from_draws(&km, &mut state, vec![0, 0, 2, 2, 2, 2, 0, 0]);
    assert_eq!(state.assignments, vec![0, 0, 2, 2, 2, 2, 0, 0]);
    assert_eq!(state.centroid_frequency, vec![4, 0, 4]);
    assert_eq!(state.centroids.bfr, fs(&[52.5, 0.0, 0.0, 0.0, 52.5, 0.0]));
}

#[test]
fn random_partition_assigns_within_range() {
    let samples = grid(60, 2);
    let km = KMeans::new(&samples, 60, 2, 4, 4, EuclideanDistance).unwrap();
    let mut rng = StdRng::seed_from_u64(3);
    let mut state = KMeansState::new(&km, 7).unwrap();
    randompartition::calculate(&km, &mut state, &mut rng);
    assert!(state.assignments.iter().all(|a| *a < 7));
    assert!(state.assignments.iter().any(|a| *a != state.assignments[0]));
    assert_eq!(state.centroid_frequency.iter().sum::<usize>(), 60);
    assert_eq!(state.centroid_frequency, tally(&state.assignments, 7));
}

#[test]
fn random_sample_copies_sample_rows() {
    let samples = grid(100, 3);
    let km = KMeans::new(&samples, 100, 3, 4, 1, EuclideanDistance).unwrap();
    let mut rng = StdRng::seed_from_u64(1337);
    let mut state = KMeansState::new(&km, 5).unwrap();
    randomsample::calculate(&km, &mut state, &mut rng);
    let mut seen = Vec::new();
    for c in 0..5 {
        let row = state.centroids.nth(c);
        assert_eq!(row[3], F(0.0));
        let at = samples.chunks(3).position(|s| s == &row[..3]);
        assert!(at.is_some());
        assert!(!seen.contains(&at));
        seen.push(at);
    }
    assert!(seen.iter().any(|at| at.unwrap() >= 5));
}

#[test]
fn random_sample_fills_the_centroids_block_after_block() {
    let samples = fs(&[1.0, 2.0, 3.0, 4.0, 5.0]);
    let km = KMeans::new(&samples, 5, 1, 1, 2, EuclideanDistance).unwrap();
    let mut state = KMeansState::new(&km, 4).unwrap();
    set_centroids(&mut state, &[&[9.0], &[9.0], &[9.0], &[9.0]]);
    randomsample::from_picks(&km, &mut state, &vec![vec![2, 0], vec![1]]);
    assert_eq!(state.centroids.bfr, fs(&[3.0, 1.0, 5.0, 0.0]));
    randomsample::from_picks(&km, &mut state, &vec![vec![0, 1, 2], vec![0, 1]]);
    assert_eq!(state.centroids.bfr, fs(&[1.0, 2.0, 3.0, 4.0]));
    let mut rng = StdRng::seed_from_u64(5);
    randomsample::calculate(&km, &mut state, &mut rng);
    let mut picked: Vec<f64> = state.centroids.bfr.iter().map(|v| v.0).collect();
    assert!(picked[..2].iter().all(|v| *v <= 3.0) && picked[..2][0] != picked[..2][1]);
    picked.sort_by(|a, b| a.partial_cmp(b).unwrap());
    assert_eq!(&picked[2..], &[4.0, 5.0]);
}

#[test]
fn weighted_pick_finds_the_first_weight_that_covers_the_target() {
    let weights = fs(&[1.0, 0.0, 2.0, 1.0]);
    let pick = |t: f64| kmeanplusplus::weighted_pick(&weights, F(t));
    assert_eq!(pick(0.0), 0);
    assert_eq!(pick(0.5), 0);
    assert_eq!(pick(1.0), 2);
    assert_eq!(pick(2.9), 2);
    assert_eq!(pick(3.0), 3);
    assert_eq!(pick(100.0), 3);
    assert_eq!(kmeanplusplus::weighted_pick(&fs(&[0.0]), F(0.0)), 0);
}

#[test]
fn kmeanplusplus_from_draws_picks_by_distance() {
    let samples = fs(&[0.0, 1.0, 10.0]);
    let km = KMeans::new(&samples, 3, 1, 1, 1, EuclideanDistance).unwrap();
    let mut state = KMeansState::new(&km, 2).unwrap();
    let half = kmeanplusplus::DRAW_RESOLUTION / 2;
    assert_eq!(kmeanplusplus::from_draws(&km, &mut state, 0, &vec![half]), Ok(()));
    assert_eq!(state.centroids.bfr, fs(&[0.0, 10.0]));
    assert_eq!(kmeanplusplus::from_draws(&km, &mut state, 2, &vec![0]), Ok(()));
    assert_eq!(state.centroids.bfr, fs(&[10.0, 0.0]));
    assert_eq!(kmeanplusplus::from_draws(&km, &mut state, 2, &vec![kmeanplusplus::DRAW_RESOLUTION - 1]), Ok(()));
    assert_eq!(state.centroids.bfr, fs(&[10.0, 1.0]));
}

#[test]
fn kmeanplusplus_draws_count_for_whole_numbers() {
    let samples: Vec<i64> = vec![0, 1, 10];
    let km = KMeans::new(&samples, 3, 1, 1, 1, EuclideanDistance).unwrap();
    let mut state = KMeansState::new(&km, 2).unwrap();
    let half = kmeanplusplus::DRAW_RESOLUTION / 2;
    assert_eq!(kmeanplusplus::from_draws(&km, &mut state, 0, &vec![0]), Ok(()));
    assert_eq!(state.centroids.bfr, vec![0, 1]);
    assert_eq!(kmeanplusplus::from_draws(&km, &mut state, 0, &vec![half]), Ok(()));
    assert_eq!(state.centroids.bfr, vec![0, 10]);
    assert_eq!(kmeanplusplus::from_draws(&km, &mut state, 2, &vec![half]), Ok(()));
    assert_eq!(state.centroids.bfr, vec![10, 0]);
    assert_eq!(kmeanplusplus::from_draws(&km, &mut state, 2, &vec![half + half / 2]), Ok(()));
    assert_eq!(state.centroids.bfr, vec![10, 1]);
}

#[test]
fn initialization_asks_nothing_of_the_state_but_its_size() {
    let samples: Vec<i64> = vec![2, 4, 8];
    let km = KMeans::new(&samples, 3, 1, 1, 1, EuclideanDistance).unwrap();
    let mut state = KMeansState::new(&km, 3).unwrap();
    state.centroid_frequency = vec![0, 0, 0];
    randompartition::from_draws(&km, &mut state, vec![0, 1, 1]);
    assert_eq!(state.assignments, vec![0, 1, 1]);
    assert_eq!(state.centroid_frequency, vec![1, 2, 0]);
    assert_eq!(state.centroids.bfr, vec![2, 6, 0]);
    let floats = fs(&[2.0, 4.0, 8.0]);
    let km = KMeans::new(&floats, 3, 1, 1, 1, EuclideanDistance).unwrap();
    let mut state = KMeansState::new(&km, 3).unwrap();
    state.centroid_frequency = vec![0, 0, 0];
    state.assignments = vec![2, 2, 2];
    randompartition::from_draws(&km, &mut state, vec![0, 1, 1]);
    assert_eq!(state.assignments, vec![0, 1, 1]);
    assert_eq!(state.centroid_frequency, vec![1, 2, 0]);
    assert_eq!(state.centroids.bfr, fs(&[2.0, 6.0, 0.0]));
    state.centroid_frequency = vec![7, 7, 7];
    randomsample::from_picks(&km, &mut state, &vec![vec![2, 0, 1]]);
    assert_eq!(state.centroids.bfr, fs(&[8.0, 2.0, 4.0]));
    assert_eq!((state.assignments.clone(), state.centroid_frequency.clone()), (vec![0, 1, 1], vec![7, 7, 7]));
    assert_eq!(kmeanplusplus::from_draws(&km, &mut state, 1, &vec![0, 0]), Ok(()));
    assert_eq!(state.centroids.bfr, fs(&[4.0, 2.0, 8.0]));
    assert_eq!(state.centroid_frequency, vec![7, 7, 7]);
}

#[test]
fn kmeanplusplus_chooses_samples() {
    let samples = grid(50, 2);
    let km = KMeans::new(&samples, 50, 2, 2, 3, EuclideanDistance).unwrap();
    let mut rng = StdRng::seed_from_u64(11);
    let mut state = KMeansState::new(&km, 6).unwrap();
    assert_eq!(kmeanplusplus::calculate(&km, &mut state, &mut rng), Ok(()));
    for c in 0..6 {
        let row = state.centroids.nth(c);
        assert!(samples.chunks(2).any(|s| s == row));
    }
}

#[test]
fn non_finite_distances_are_reported() {
    let samples = fs(&[0.0, f64::INFINITY, 2.0, 3.0]);
    let km = KMeans::new(&samples, 4, 1, 1, 2, EuclideanDistance).unwrap();
    let mut state = KMeansState::new(&km, 2).unwrap();
    set_centroids(&mut state, &[&[0.0], &[1.0]]);
    let before = state.centroids.bfr.clone();
    assert_eq!(lloyd::step(&km, &mut state), Err(KMeansError::NonFiniteDistance));
    assert_eq!(state.centroids.bfr, before);
    assert_eq!(lloyd::run(&km, state, 3, &AbortStrategy::FixedIterations).err(), Some(KMeansError::NonFiniteDistance));
    let mut state = KMeansState::new(&km, 2).unwrap();
    assert_eq!(kmeanplusplus::from_draws(&km, &mut state, 0, &vec![0]), Err(KMeansError::NonFiniteDistance));
    let mut centroids = StrideBuffer::<F>::zeroed(1, 1).unwrap();
    let mut counts = vec![0];
    assert_eq!(minibatch::batch_step(&km, &mut centroids, &mut counts, &vec![0, 1]), Err(KMeansError::NonFiniteDistance));
    assert_eq!((centroids.bfr, counts), (fs(&[0.0]), vec![0]));
    let nan = fs(&[0.0, f64::NAN]);
    let km = KMeans::new(&nan, 2, 1, 1, 1, EuclideanDistance).unwrap();
    let state = KMeansState::new(&km, 1).unwrap();
    assert_eq!(minibatch::settle(&km, state, 0).err(), Some(KMeansError::NonFiniteDistance));
}

#[test]
fn abort_strategies_decide_as_documented() {
    let fixed = AbortStrategy::<F>::FixedIterations;
    assert_eq!(fixed.decide(0, 1, F(9.0), F(9.0), 5), (true, 0));
    assert_eq!(fixed.decide(0, 4, F(9.0), F(99.0), 5), (true, 0));
    assert_eq!(fixed.decide(0, 5, F(9.0), F(1.0), 5), (false, 0));
    let threshold = AbortStrategy::NoImprovement { threshold: F(0.5) };
    assert_eq!(threshold.decide(0, 1, F(0.0), F(100.0), 5), (true, 0));
    assert_eq!(threshold.decide(0, 2, F(10.0), F(9.0), 5), (true, 0));
    assert_eq!(threshold.decide(0, 2, F(10.0), F(9.5), 5), (true, 0));
    assert_eq!(threshold.decide(0, 2, F(10.0), F(9.75), 5), (false, 0));
    assert_eq!(threshold.decide(0, 2, F(10.0), F(11.0), 5), (false, 0));
    assert_eq!(threshold.decide(0, 5, F(10.0), F(1.0), 5), (false, 0));
    let patient = AbortStrategy::NoImprovementForXIterations { x: 2, threshold: F(0.5), abort_on_negative: false };
    assert_eq!(patient.decide(0, 2, F(10.0), F(9.9), 9), (true, 1));
    assert_eq!(patient.decide(1, 3, F(9.9), F(12.0), 9), (false, 2));
    assert_eq!(patient.decide(1, 3, F(9.9), F(5.0), 9), (true, 0));
    assert_eq!(patient.decide(usize::MAX, 3, F(9.9), F(9.9), 9), (false, usize::MAX));
    let strict = AbortStrategy::NoImprovementForXIterations { x: 3, threshold: F(0.5), abort_on_negative: true };
    assert_eq!(strict.decide(0, 2, F(10.0), F(10.25), 9), (false, 0));
    assert_eq!(strict.decide(0, 2, F(10.0), F(10.0), 9), (true, 1));
}

#[test]
fn lloyd_stops_when_nothing_improves() {
    let km = KMeans::new(&two_groups(), 8, 1, 2, 2, EuclideanDistance).unwrap();
    let mut state = KMeansState::new(&km, 2).unwrap();
    set_centroids(&mut state, &[&[0.0], &[100.0]]);
    let result = lloyd::run(&km, state, 50, &AbortStrategy::NoImprovement { threshold: F(0.001) }).unwrap();
    assert_eq!(result.iterations, 3);
    assert_eq!(result.state.distsum, F(10.0));
    let state = KMeansState::new(&km, 2).unwrap();
    let result = lloyd::run(&km, state, 0, &AbortStrategy::FixedIterations).unwrap();
    assert_eq!((result.iterations, result.state.centroid_frequency), (0, vec![8, 0]));
}

#[test]
fn full_batch_runs_assign_every_sample_and_count_them() {
    let samples = grid(120, 5);
    let km = KMeans::new(&samples, 120, 5, 8, 4, EuclideanDistance).unwrap();
    for (seed, init) in [(1, Initialization::RandomPartition), (2, Initialization::RandomSample), (3, Initialization::KMeansPlusPlus)] {
        let mut rng = StdRng::seed_from_u64(seed);
        let result = km.kmeans_lloyd(6, 30, init, &AbortStrategy::NoImprovement { threshold: F(1e-9) }, &mut rng).unwrap();
        assert_eq!(result.state.assignments.len(), 120);
        assert!(result.state.assignments.iter().all(|a| *a < 6));
        assert_eq!(result.state.centroid_frequency.iter().sum::<usize>(), 120);
        assert_eq!(result.state.centroids.bfr.len(), 6 * 8);
        assert!(result.iterations >= 1 && result.iterations <= 30);
    }
}

#[test]
fn full_batch_runs_with_one_seed_agree() {
    let samples = grid(90, 4);
    let run = |blocks| {
        let km = KMeans::new(&samples, 90, 4, 4, blocks, EuclideanDistance).unwrap();
        let mut rng = StdRng::seed_from_u64(1337);
        km.kmeans_lloyd(5, 40, Initialization::KMeansPlusPlus, &AbortStrategy::NoImprovement { threshold: F(0.0) }, &mut rng).unwrap()
    };
    let (a, b) = (run(3), run(3));
    assert_eq!(a.state.assignments, b.state.assignments);
    assert_eq!(a.state.centroids.bfr, b.state.centroids.bfr);
    assert_eq!(a.state.distsum, b.state.distsum);
    assert_eq!(a.iterations, b.iterations);
}

#[test]
fn full_batch_distsum_does_not_grow() {
    let samples = grid(80, 2);
    let km = KMeans::new(&samples, 80, 2, 2, 2, EuclideanDistance).unwrap();
    let mut rng = StdRng::seed_from_u64(21);
    let mut state = KMeansState::new(&km, 4).unwrap();
    assert_eq!(initialize(&km, &mut state, Initialization::RandomSample, &mut rng), Ok(()));
    let mut previous = f64::INFINITY;
    for _ in 0..12 {
        assert_eq!(lloyd::step(&km, &mut state), Ok(()));
        assert!(state.distsum.0 <= previous + 1e-9);
        previous = state.distsum.0;
    }
}

#[test]
fn cluster_counts_are_checked() {
    let km = KMeans::new(&two_groups(), 8, 1, 2, 2, EuclideanDistance).unwrap();
    let mut rng = StdRng::seed_from_u64(1);
    let fixed = AbortStrategy::FixedIterations;
    assert_eq!(km.kmeans_lloyd(0, 5, Initialization::RandomSample, &fixed, &mut rng).err(), Some(KMeansError::ZeroClusters));
    assert_eq!(km.kmeans_lloyd(9, 5, Initialization::RandomSample, &fixed, &mut rng).err(), Some(KMeansError::TooManyClusters));
    assert_eq!(km.kmeans_minibatch(4, 0, 5, Initialization::RandomSample, &fixed, &mut rng).err(), Some(KMeansError::ZeroClusters));
    assert_eq!(km.kmeans_minibatch(4, 9, 5, Initialization::RandomSample, &fixed, &mut rng).err(), Some(KMeansError::TooManyClusters));
    assert_eq!(km.kmeans_minibatch(0, 2, 5, Initialization::RandomSample, &fixed, &mut rng).err(), Some(KMeansError::BadBatchSize));
    assert_eq!(km.kmeans_minibatch(9, 2, 5, Initialization::RandomSample, &fixed, &mut rng).err(), Some(KMeansError::BadBatchSize));
    assert_eq!(km.kmeans_minibatch(2, 2, usize::MAX, Initialization::RandomSample, &fixed, &mut rng).err(), Some(KMeansError::TooLarge));
    assert!(km.kmeans_minibatch(8, 8, 2, Initialization::RandomSample, &fixed, &mut rng).is_ok());
}

#[test]
fn batch_step_moves_centroids_by_the_running_mean() {
    let km = KMeans::new(&two_groups(), 8, 1, 2, 2, EuclideanDistance).unwrap();
    let mut centroids = StrideBuffer::<F>::zeroed(2, 2).unwrap();
    centroids.set_nth(1, &fs(&[100.0]), 1);
    let mut counts = vec![0, 1];
    let distsum = minibatch::batch_step(&km, &mut centroids, &mut counts, &vec![0, 2, 1, 4]);
    assert_eq!(distsum, Ok(F(1.0 + 4.0 + 1.0 + 9.0)));
    assert_eq!(counts, vec![3, 2]);
    assert_eq!(centroids.bfr, fs(&[2.0, 0.0, 100.5, 0.0]));
}

#[test]
fn mini_batch_runs_settle_on_all_samples() {
    let samples = grid(150, 3);
    let km = KMeans::new(&samples, 150, 3, 4, 3, EuclideanDistance).unwrap();
    let mut rng = StdRng::seed_from_u64(1337);
    let patient = AbortStrategy::NoImprovementForXIterations { x: 5, threshold: F(0.0005), abort_on_negative: false };
    let result = km.kmeans_minibatch(20, 4, 60, Initialization::RandomSample, &patient, &mut rng).unwrap();
    assert!(result.iterations >= 1 && result.iterations <= 60);
    assert!(result.state.assignments.iter().all(|a| *a < 4));
    assert_eq!(result.state.centroid_frequency.iter().sum::<usize>(), 150);
    assert_eq!(result.state.centroid_frequency, tally(&result.state.assignments, 4));
    let found = assign_all(&km, &result.state.centroids, 4);
    assert_eq!(found.assignments, result.state.assignments);
    assert_eq!(found.distsum, result.state.distsum);
    let state = KMeansState::new(&km, 4).unwrap();
    let none = minibatch::run(&km, state, 20, 0, &patient, &mut rng).unwrap();
    assert_eq!((none.iterations, none.state.centroid_frequency.clone()), (0, vec![150, 0, 0, 0]));
}

#[test]
fn histogram_distance_clusters_counts() {
    let samples = fs(&[9.0, 1.0, 0.0, 8.0, 2.0, 0.0, 1.0, 9.0, 0.0, 0.0, 10.0, 0.0]);
    let km = KMeans::new(&samples, 4, 3, 4, 1, HistogramDistance).unwrap();
    let mut state = KMeansState::new(&km, 2).unwrap();
    set_centroids(&mut state, &[&[10.0, 0.0, 0.0], &[0.0, 10.0, 0.0]]);
    let result = lloyd::run(&km, state, 4, &AbortStrategy::FixedIterations).unwrap();
    assert_eq!(result.state.assignments, vec![0, 0, 1, 1]);
    assert_eq!(result.centroid(0), &fs(&[8.5, 1.5, 0.0, 0.0])[..]);
}

#[test]
fn whole_numbers_saturate_at_the_ends_of_their_range() {
    assert_eq!(<i64 as Primitive>::zero(), 0);
    assert_eq!(<i64 as Primitive>::from_count(3), 3);
    assert_eq!(<i64 as Primitive>::from_count(usize::MAX), i64::MAX);
    assert_eq!(Primitive::plus(40i64, 2), 42);
    assert_eq!(Primitive::plus(i64::MAX, 1), i64::MAX);
    assert_eq!(Primitive::plus(i64::MIN, -1), i64::MIN);
    assert_eq!(Primitive::minus(40i64, 42), -2);
    assert_eq!(Primitive::minus(i64::MIN, 1), i64::MIN);
    assert_eq!(Primitive::minus(i64::MAX, -1), i64::MAX);
    assert_eq!(Primitive::times(-6i64, 7), -42);
    assert_eq!(Primitive::times(i64::MAX, 2), i64::MAX);
    assert_eq!(Primitive::times(i64::MAX, -2), i64::MIN);
    assert_eq!(Primitive::times(i64::MIN, -1), i64::MAX);
    assert_eq!(Primitive::divide(7i64, 2), 3);
    assert_eq!(Primitive::divide(-7i64, 2), -3);
    assert_eq!(Primitive::divide(7i64, -2), -3);
    assert_eq!(Primitive::divide(-7i64, -2), 3);
    assert_eq!(Primitive::divide(5i64, 0), i64::MAX);
    assert_eq!(Primitive::divide(-5i64, 0), i64::MIN);
    assert_eq!(Primitive::divide(0i64, 0), i64::MAX);
    assert_eq!(Primitive::divide(i64::MIN, -1), i64::MAX);
    assert!(Primitive::less(-1i64, 0) && !Primitive::less(0i64, 0));
    assert!(Primitive::is_finite(0i64) && Primitive::is_finite(i64::MAX - 1));
    assert!(!Primitive::is_finite(i64::MAX) && !Primitive::is_finite(i64::MIN));
}

#[test]
fn whole_numbers_cluster() {
    let samples: Vec<i64> = vec![1, 101, 2, 102, 3, 103, 4, 104];
    let km = KMeans::new(&samples, 8, 1, 4, 2, EuclideanDistance).unwrap();
    let mut state = KMeansState::new(&km, 2).unwrap();
    state.centroids.set_nth(0, &[0], 1);
    state.centroids.set_nth(1, &[100], 1);
    let result = lloyd::run(&km, state, 10, &AbortStrategy::NoImprovement { threshold: 1 }).unwrap();
    assert_eq!(result.state.assignments, vec![0, 1, 0, 1, 0, 1, 0, 1]);
    assert_eq!(result.centroid(0), &[2, 0, 0, 0]);
    assert_eq!(result.centroid(1), &[102, 0, 0, 0]);
    assert_eq!((result.iterations, result.state.distsum), (3, 12));
    let mut rng = StdRng::seed_from_u64(9);
    let result = km.kmeans_minibatch(4, 2, 20, Initialization::KMeansPlusPlus, &AbortStrategy::FixedIterations, &mut rng).unwrap();
    assert_eq!(result.iterations, 20);
    assert_eq!(result.state.centroid_frequency.iter().sum::<usize>(), 8);
    let far = vec![0, i64::MAX - 1];
    let km = KMeans::new(&far, 2, 1, 1, 1, EuclideanDistance).unwrap();
    let state = KMeansState::new(&km, 1).unwrap();
    assert_eq!(lloyd::run(&km, state, 1, &AbortStrategy::FixedIterations).err(), Some(KMeansError::NonFiniteDistance));
}
