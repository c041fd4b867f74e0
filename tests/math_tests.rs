use imshow::accumulator::PixelAccumulator;
use imshow::math::{indices, weighted_indices, weights, Linspace};

fn shares(entries: &[(usize, u64)], lo: u64, hi: u64) -> Vec<f64> {
    entries.iter().map(|e| e.1 as f64 / (hi - lo) as f64).collect()
}

fn collect(mut steps: Linspace) -> Vec<(u64, u64)> {
    let mut all = Vec::new();
    while let Some(step) = steps.next() {
        all.push(step);
    }
    all
}

#[test]
fn test_result_length_equals_count() {
    let count = 138;
    let steps = Linspace::new(0, 11, count);
    assert_eq!(count, collect(steps).len());
}

#[test]
fn test_produces_correct_values() {
    let steps: Vec<(f64, f64)> = collect(Linspace::new(0, 10, 4))
        .iter()
        .map(|r| (r.0 as f64 / 4.0, r.1 as f64 / 4.0))
        .collect();
    let expected = vec![(0.0, 2.5), (2.5, 5.0), (5.0, 7.5), (7.5, 10.0)];
    assert_eq!(expected, steps);
}

#[test]
fn linspace_ranges_match_next() {
    let steps = Linspace::new(3, 17, 9);
    assert_eq!(steps.ranges(), collect(Linspace::new(3, 17, 9)));
    assert_eq!(steps.ranges().len(), 9);
}

#[test]
fn linspace_next_hands_out_each_range_once() {
    let mut steps = Linspace::new(0, 10, 4);
    assert_eq!(steps.next(), Some((0, 10)));
    assert_eq!(steps.next(), Some((10, 20)));
    assert_eq!(steps.next(), Some((20, 30)));
    assert_eq!(steps.next(), Some((30, 40)));
    assert_eq!(steps.next(), None);
    assert_eq!(steps.next(), None);
}

#[test]
fn linspace_with_offset_start() {
    // [2, 5] in three cells of width one: boundaries 6, 9, 12, 15 over 3.
    assert_eq!(Linspace::new(2, 5, 3).ranges(), vec![(6, 9), (9, 12), (12, 15)]);
}

#[test]
fn test_weights_and_indices_have_same_length() {
    // (0.0, 71 / 15) and (0.2, 10.5)
    let bounds = vec![(0, 71, 15), (2, 105, 10)];
    for b in bounds {
        let weights = weights(b.0, b.1, b.2);
        let indices = indices(b.0, b.1, b.2);
        assert_eq!(weights.len(), indices.len());
    }
}

#[test]
fn test_gap_between_lo_and_hi_less_than_1() {
    // (0.2, 0.7)
    let expected = vec![0.5];
    let actual = weights(2, 7, 10);
    assert!((expected[0] - actual[0] as f64 / 10.0).abs() <= f64::EPSILON);
}

#[test]
fn math_test_gap_between_lo_and_hi_less_than_1() {
    let expected = vec![0];
    let actual = indices(2, 7, 10);
    assert_eq!(expected, actual);
}

#[test]
fn test_many_weights() {
    // (1.4, 4.2)
    let expected = vec![0.6, 1.0, 1.0, 0.2];
    let actual = weights(14, 42, 10);
    assert_eq!(expected.len(), actual.len());
    for (e, a) in expected.iter().zip(actual.iter()) {
        let a = *a as f64 / 10.0;
        assert!((e - a).abs() <= f64::EPSILON, "{} != {}", e, a);
    }
}

#[test]
fn test_many_weights_starting_at_0() {
    // (0.0, 4.7)
    let expected = vec![1.0, 1.0, 1.0, 1.0, 0.7];
    let actual = weights(0, 47, 10);
    assert!((expected[0] - actual[0] as f64 / 10.0).abs() <= f64::EPSILON);
    assert_eq!(actual, vec![10, 10, 10, 10, 7]);
}

#[test]
fn test_indices() {
    let expected = vec![1, 2, 3, 4];
    let actual = indices(14, 42, 10);
    assert_eq!(expected, actual);
}

#[test]
fn single_pixel_footprint_gets_full_weight() {
    let r = weighted_indices(2, 7, 10);
    assert_eq!(r, vec![(0, 5)]);
    assert_eq!(shares(&r, 2, 7), vec![1.0]);
}

#[test]
fn fractional_footprint_weights() {
    let r = weighted_indices(14, 42, 10);
    let idx: Vec<usize> = r.iter().map(|e| e.0).collect();
    let raw: Vec<u64> = r.iter().map(|e| e.1).collect();
    assert_eq!(idx, vec![1, 2, 3, 4]);
    assert_eq!(raw, vec![6, 10, 10, 2]);
    let expected = [0.214, 0.357, 0.357, 0.0714];
    let got = shares(&r, 14, 42);
    for (e, g) in expected.iter().zip(got.iter()) {
        assert!((e - g).abs() < 1e-3, "{} != {}", e, g);
    }
    assert!((got.iter().sum::<f64>() - 1.0).abs() <= 1e-9);
}

#[test]
fn weights_sum_to_range_length() {
    for (lo, hi, scale) in [(0, 1, 1), (3, 4, 7), (13, 200, 9), (0, 71, 15), (2, 105, 10), (5, 6, 3)] {
        let r = weighted_indices(lo, hi, scale);
        assert_eq!(r.iter().map(|e| e.1).sum::<u64>(), hi - lo);
        assert_eq!(weights(lo, hi, scale).len(), indices(lo, hi, scale).len());
        let total: f64 = shares(&r, lo, hi).iter().sum();
        assert!((total - 1.0).abs() <= 1e-9);
    }
}

#[test]
fn range_ending_on_pixel_boundary_has_no_zero_weight() {
    // [0.5, 2.0)
    assert_eq!(weighted_indices(5, 20, 10), vec![(0, 5), (1, 10)]);
    // [1.0, 3.0)
    assert_eq!(weighted_indices(10, 30, 10), vec![(1, 10), (2, 10)]);
}

#[test]
fn short_range_across_a_boundary_covers_both_pixels() {
    // [0.8, 1.5)
    assert_eq!(weighted_indices(8, 15, 10), vec![(0, 2), (1, 5)]);
}

#[test]
fn accumulator_rounds_half_weight_pixel() {
    let mut acc = PixelAccumulator::new(2);
    acc.add_pixel([255, 10, 62, 255], 1);
    assert_eq!(acc.to_rgb(), (128, 5, 31));
}

#[test]
fn accumulator_merges_rows_by_weight() {
    let mut first = PixelAccumulator::new(4);
    first.add_pixel([100, 0, 40, 0], 3);
    first.add_pixel([0, 200, 80, 0], 1);
    let mut second = PixelAccumulator::new(4);
    second.add_pixel([20, 20, 20, 0], 4);
    let mut all = PixelAccumulator::new(8);
    all.add_row(&first, 1);
    all.add_row(&second, 1);
    // red (300 + 80) / 8 = 47.5, green (200 + 80) / 8 = 35, blue (200 + 80) / 8 = 35
    assert_eq!(all.to_rgb(), (48, 35, 35));
    assert_eq!(all.weight, 8);
}
