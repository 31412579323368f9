use spikefit::prominence::prominence_bases;
use spikefit::searcher::{find_peaks_impl, local_maxima};
use spikefit::widths::width_crossings;
use spikefit::SpikefitError;

// The signals of these tests are written with floating-point samples; they
// reach the library as order codes, and the threshold, prominence and width
// of each candidate are decided in floating point, sample against parameter.

fn code(v: f64) -> i64 {
    let v = if v == 0.0 { 0.0f64 } else { v };
    let bits = v.to_bits() as i64;
    if bits < 0 { bits ^ i64::MAX } else { bits }
}

fn codes(x: &[f64]) -> Vec<i64> {
    x.iter().map(|&v| code(v)).collect()
}

fn prominences(x: &[f64], peaks: &[usize]) -> Vec<f64> {
    let bases = prominence_bases(&codes(x), peaks).unwrap();
    peaks.iter().zip(bases.iter()).map(|(&p, &b)| x[p] - x[b]).collect()
}

fn half_width(x: &[f64], p: usize, prominence: f64) -> f64 {
    let level = x[p] - prominence * 0.5;
    let (l, r) = width_crossings(&codes(x), p, code(level));
    let left = match l {
        Some(j) => j as f64 + (level - x[j]) / (x[j + 1] - x[j]),
        None => p as f64,
    };
    let right = match r {
        Some(j) => (j - 1) as f64 + (level - x[j - 1]) / (x[j] - x[j - 1]),
        None => p as f64,
    };
    right - left
}

fn find_peaks_impl_f64(
    x: &[f64],
    height: Option<f64>,
    threshold: Option<f64>,
    distance: Option<usize>,
    prominence: Option<f64>,
    width: Option<f64>,
) -> Result<Vec<usize>, SpikefitError> {
    let n = x.len();
    let c = codes(x);
    let candidates = if n >= 3 { local_maxima(&c) } else { Vec::new() };
    let threshold_mask = threshold.map(|th| {
        (0..n)
            .map(|i| {
                if i + 1 == n {
                    i > 0 && x[i] - x[i - 1] >= th
                } else {
                    i > 0 && x[i] - x[i - 1] >= th && x[i] - x[i + 1] >= th
                }
            })
            .collect::<Vec<bool>>()
    });
    let prominence_mask = prominence.map(|p| {
        let proms = prominences(x, &candidates);
        let mut mask = vec![false; n];
        for (k, &i) in candidates.iter().enumerate() {
            mask[i] = proms[k] >= p;
        }
        mask
    });
    let width_mask = width.map(|w| {
        let proms = prominences(x, &candidates);
        let mut mask = vec![false; n];
        for (k, &i) in candidates.iter().enumerate() {
            mask[i] = half_width(x, i, proms[k]) >= w;
        }
        mask
    });
    find_peaks_impl(
        &c,
        height.map(code),
        threshold_mask.as_deref(),
        distance,
        prominence_mask.as_deref(),
        width_mask.as_deref(),
    )
}

fn peaks(x: &[f64]) -> Vec<usize> {
    find_peaks_impl_f64(x, None, None, None, None, None).unwrap()
}

#[test]
fn test_single_peak() {
    assert_eq!(peaks(&[0.0, 1.0, 0.0]), vec![1]);
}

#[test]
fn test_multiple_peaks() {
    assert_eq!(peaks(&[0.0, 2.0, 0.0, 3.0, 0.0, 1.0, 0.0]), vec![1, 3, 5]);
}

#[test]
fn test_no_peaks_flat() {
    assert_eq!(peaks(&[1.0, 1.0, 1.0, 1.0]), Vec::<usize>::new());
}

#[test]
fn test_no_peaks_monotone_increasing() {
    assert_eq!(peaks(&[1.0, 2.0, 3.0, 4.0]), vec![3]);
}

#[test]
fn test_no_peaks_monotone_decreasing() {
    assert_eq!(peaks(&[4.0, 3.0, 2.0, 1.0]), Vec::<usize>::new());
}

#[test]
fn test_last_point_peak() {
    assert_eq!(peaks(&[0.0, 1.0, 0.5, 2.0]), vec![1, 3]);
}

#[test]
fn test_signal_too_short_returns_error() {
    assert!(find_peaks_impl_f64(&[1.0f64, 2.0], None, None, None, None, None).is_err());
    assert!(find_peaks_impl_f64(&[1.0f64], None, None, None, None, None).is_err());
    assert!(find_peaks_impl_f64(&[] as &[f64], None, None, None, None, None).is_err());
}

#[test]
fn test_exactly_three_points() {
    assert_eq!(peaks(&[0.0, 1.0, 0.0]), vec![1]);
    assert_eq!(peaks(&[1.0, 0.0, 1.0]), vec![2]);
}

#[test]
fn test_height_filters_low_peaks() {
    let x = &[0.0, 1.0, 0.0, 3.0, 0.0, 2.0, 0.0];
    let result = find_peaks_impl_f64(x, Some(2.0), None, None, None, None).unwrap();
    assert_eq!(result, vec![3, 5]);
}

#[test]
fn test_height_keeps_exact_threshold() {
    let x = &[0.0, 2.0, 0.0, 3.0, 0.0];
    let result = find_peaks_impl_f64(x, Some(2.0), None, None, None, None).unwrap();
    assert_eq!(result, vec![1, 3]);
}

#[test]
fn test_height_filters_all() {
    let x = &[0.0, 1.0, 0.0, 2.0, 0.0];
    let result = find_peaks_impl_f64(x, Some(5.0), None, None, None, None).unwrap();
    assert_eq!(result, Vec::<usize>::new());
}

#[test]
fn test_threshold_basic() {
    let x = &[0.0, 1.0, 0.0, 2.0, 0.0];
    let result = find_peaks_impl_f64(x, None, Some(1.5), None, None, None).unwrap();
    assert_eq!(result, vec![3]);
}

#[test]
fn test_threshold_zero_keeps_all() {
    let x = &[0.0, 1.0, 0.0, 2.0, 0.0];
    let result = find_peaks_impl_f64(x, None, Some(0.0), None, None, None).unwrap();
    assert_eq!(result, vec![1, 3]);
}

#[test]
fn test_distance_keeps_highest() {
    let x = &[0.0, 1.0, 0.0, 3.0, 0.0, 2.0, 0.0];
    let result = find_peaks_impl_f64(x, None, None, Some(3), None, None).unwrap();
    assert_eq!(result, vec![3]);
}

#[test]
fn test_distance_far_enough_keeps_both() {
    let x = &[0.0, 2.0, 0.0, 0.0, 0.0, 3.0, 0.0];
    let result = find_peaks_impl_f64(x, None, None, Some(3), None, None).unwrap();
    assert_eq!(result, vec![1, 5]);
}

#[test]
fn test_distance_zero_keeps_all() {
    let x = &[0.0, 1.0, 0.0, 2.0, 0.0];
    let result = find_peaks_impl_f64(x, None, None, Some(0), None, None).unwrap();
    assert_eq!(result, vec![1, 3]);
}

#[test]
fn test_prominence_filters_shallow_peak() {
    let x = &[0.0, 3.0, 4.0, 3.0, 0.0, 5.0, 0.0];
    let result = find_peaks_impl_f64(x, None, None, None, Some(3.0), None).unwrap();
    assert_eq!(result, vec![2, 5]);
}

#[test]
fn test_prominence_zero_keeps_all() {
    let x = &[0.0, 1.0, 0.0, 2.0, 0.0];
    let result = find_peaks_impl_f64(x, None, None, None, Some(0.0), None).unwrap();
    assert_eq!(result, vec![1, 3]);
}

#[test]
fn test_width_filters_narrow_peak() {
    let x = &[0.0, 0.0, 3.0, 0.0, 0.0, 1.0, 2.0, 1.0, 0.0];
    let result = find_peaks_impl_f64(x, None, None, None, None, Some(2.0)).unwrap();
    assert_eq!(result, vec![6]);
}

#[test]
fn test_all_filters_no_peaks_survive() {
    let x = &[0.0, 1.0, 0.0, 2.0, 0.0, 1.5, 0.0];
    let result =
        find_peaks_impl_f64(x, Some(5.0), Some(2.0), Some(4), Some(3.0), Some(3.0)).unwrap();
    assert_eq!(result, Vec::<usize>::new());
}

#[test]
fn test_plateau_not_detected_as_peak() {
    assert_eq!(peaks(&[0.0, 1.0, 1.0, 0.0]), Vec::<usize>::new());
}

#[test]
fn test_negative_values() {
    assert_eq!(peaks(&[-3.0, -1.0, -3.0]), vec![1]);
}

#[test]
fn test_all_same_value() {
    assert_eq!(peaks(&[2.0, 2.0, 2.0, 2.0]), Vec::<usize>::new());
}

#[test]
fn prominence_base_lies_past_a_lower_rise() {
    let x = [0.0f64, 2.0, 1.0, 3.0, 0.0];
    assert_eq!(prominences(&x, &[3]), vec![3.0]);
}
