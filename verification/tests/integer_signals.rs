use spikefit::options::peaks_or_local_maxima;
use spikefit::prominence::{peak_prominences_impl, prominence_bases, prominence_mask};
use spikefit::distance::select_by_distance;
use spikefit::searcher::{find_peaks_impl, local_maxima, threshold_mask};
use spikefit::widths::width_crossings;
use spikefit::{PeakWidthsOptions, SpikefitError, SpikefitWidths};

#[test]
fn local_maxima_lists_interior_maxima_and_rising_last_sample() {
    assert_eq!(local_maxima(&[0, 1, 0, 3, 0, 2, 0]), vec![1, 3, 5]);
    assert_eq!(local_maxima(&[0, 1, 0, 3]), vec![1, 3]);
    assert_eq!(local_maxima(&[5, 1]), Vec::<usize>::new());
    assert_eq!(local_maxima(&[1, 5]), vec![1]);
    assert_eq!(local_maxima(&[7]), Vec::<usize>::new());
    assert_eq!(local_maxima(&[]), Vec::<usize>::new());
}

#[test]
fn find_peaks_without_filters_equals_local_maxima() {
    let x = [3, 1, 4, 1, 5, 9, 2, 6, 5, 3, 5];
    let found = find_peaks_impl(&x, None, None, None, None, None).unwrap();
    assert_eq!(found, local_maxima(&x));
    let found0 = find_peaks_impl(&x, None, None, Some(0), None, None).unwrap();
    assert_eq!(found0, local_maxima(&x));
    assert_eq!(found, vec![2, 5, 7, 10]);
}

#[test]
fn find_peaks_refuses_short_signals() {
    assert_eq!(
        find_peaks_impl(&[1, 2], None, None, None, None, None),
        Err(SpikefitError::SignalTooShort { len: 3 })
    );
}

#[test]
fn prominence_base_is_lowest_point_before_a_higher_sample() {
    let x = [0, 1, 0, 3, 0, 2, 0];
    assert_eq!(peak_prominences_impl(&x, &[1, 3, 5]).unwrap(), vec![1, 3, 2]);
    // No sample left of peak 3 is higher, so its left base is the lowest
    // sample on that side, past the intermediate rise to 2.
    let w = [0, 2, 1, 3, 0];
    assert_eq!(prominence_bases(&w, &[3]).unwrap(), vec![4]);
    assert_eq!(peak_prominences_impl(&w, &[3]).unwrap(), vec![3]);
    // The higher sample 4 bounds the left side of peak 3: left base 1 (value 1).
    let v = [0, 4, 1, 3, 2, 2, 0];
    assert_eq!(prominence_bases(&v, &[3]).unwrap(), vec![2]);
    assert_eq!(peak_prominences_impl(&v, &[3]).unwrap(), vec![2]);
    // The higher of the two bases counts.
    let y = [0, 4, 2, 3, 2, 6, 1];
    assert_eq!(prominence_bases(&y, &[5]).unwrap(), vec![6]);
    assert_eq!(peak_prominences_impl(&y, &[5]).unwrap(), vec![5]);
    // Equal samples do not bound a side.
    let z = [1, 3, 3, 3, 0];
    assert_eq!(peak_prominences_impl(&z, &[3]).unwrap(), vec![2]);
}

#[test]
fn prominence_spans_the_whole_integer_range() {
    let x = [i64::MIN, i64::MAX, i64::MIN];
    assert_eq!(peak_prominences_impl(&x, &[1]).unwrap(), vec![u64::MAX]);
}

#[test]
fn prominence_errors() {
    assert_eq!(
        peak_prominences_impl(&[], &[0]),
        Err(SpikefitError::SignalTooShort { len: 0 })
    );
    assert_eq!(
        peak_prominences_impl(&[0, 1, 0], &[1, 7, 9]),
        Err(SpikefitError::PeakOutOfBounds { index: 7, len: 3 })
    );
    assert_eq!(
        prominence_bases(&[0, 1, 0], &[3]),
        Err(SpikefitError::PeakOutOfBounds { index: 3, len: 3 })
    );
    assert_eq!(peak_prominences_impl(&[0, 1, 0], &[]).unwrap(), Vec::<u64>::new());
}

#[test]
fn interior_maxima_have_positive_prominence_and_last_sample_zero() {
    let x = [0, 2, 1, 3, 2, 5];
    let peaks = local_maxima(&x);
    assert_eq!(peaks, vec![1, 3, 5]);
    let proms = peak_prominences_impl(&x, &peaks).unwrap();
    assert!(proms[0] > 0 && proms[1] > 0);
    assert_eq!(proms[2], 0);
}

#[test]
fn prominence_is_bounded_by_height_above_lowest_sample() {
    let x = [4, -2, 7, 1, 9, 3];
    let peaks = local_maxima(&x);
    let proms = peak_prominences_impl(&x, &peaks).unwrap();
    for (k, &p) in peaks.iter().enumerate() {
        assert!(proms[k] as i128 <= x[p] as i128 - (-2));
    }
}

#[test]
fn distance_keeps_highest_and_breaks_ties_to_the_left() {
    let x = [0, 5, 0, 5, 0, 0, 0];
    assert_eq!(select_by_distance(&x, &[1, 3], 2), vec![1]);
    // A removed peak no longer removes its own neighbours.
    let y = [0, 3, 0, 4, 0, 3, 0];
    assert_eq!(select_by_distance(&y, &[1, 3, 5], 2), vec![3]);
    let z = [0, 4, 0, 3, 0, 2, 0];
    assert_eq!(select_by_distance(&z, &[1, 3, 5], 2), vec![1, 5]);
}

#[test]
fn distance_survivors_are_apart_and_top_peak_survives() {
    let x = [0, 2, 1, 6, 1, 3, 2, 5, 0, 4, 0, 7, 1];
    let peaks = local_maxima(&x);
    for d in 1..6usize {
        let kept = select_by_distance(&x, &peaks, d);
        assert!(kept.contains(&11));
        for a in 0..kept.len() {
            for b in a + 1..kept.len() {
                assert!(kept[b] - kept[a] > d);
            }
        }
        // Every removed peak lies near a kept higher one.
        for &p in &peaks {
            if !kept.contains(&p) {
                assert!(kept.iter().any(|&q| (q as i64 - p as i64).abs() <= d as i64
                    && (x[q] > x[p] || (x[q] == x[p] && q < p))));
            }
        }
    }
}

#[test]
fn find_peaks_with_distance_reports_peaks_apart() {
    let x = [0, 2, 1, 6, 1, 3, 2, 5, 0, 4, 0, 7, 1];
    let found = find_peaks_impl(&x, None, None, Some(3), None, None).unwrap();
    assert_eq!(found, vec![3, 7, 11]);
}

#[test]
fn threshold_mask_compares_with_neighbours() {
    let x = [0, 3, 1, 4, 0, 2];
    assert_eq!(threshold_mask(&x, 2), vec![false, true, false, true, false, true]);
    assert_eq!(threshold_mask(&x, 3), vec![false, false, false, true, false, false]);
    let found = find_peaks_impl(&x, None, Some(&threshold_mask(&x, 3)), None, None, None).unwrap();
    assert_eq!(found, vec![3]);
}

#[test]
fn height_and_masks_filter_in_turn() {
    let x = [0, 2, 0, 5, 0, 3, 0, 4, 0];
    assert_eq!(find_peaks_impl(&x, Some(3), None, None, None, None).unwrap(), vec![3, 5, 7]);
    let prominent = [false, false, false, true, false, false, false, true, false];
    assert_eq!(
        find_peaks_impl(&x, Some(3), None, None, Some(&prominent), None).unwrap(),
        vec![3, 7]
    );
    let wide = [false, false, false, false, false, false, false, true, false];
    assert_eq!(
        find_peaks_impl(&x, Some(3), None, None, Some(&prominent), Some(&wide)).unwrap(),
        vec![7]
    );
    // A mask that does not cover a sample rejects a peak there.
    let short = [true, true, true, true];
    assert_eq!(find_peaks_impl(&x, None, Some(&short), None, None, None).unwrap(), vec![1, 3]);
}

#[test]
fn width_crossings_find_nearest_samples_at_or_below_level() {
    let x = [0, 1, 4, 6, 5, 2, 0];
    assert_eq!(width_crossings(&x, 3, 3), (Some(1), Some(5)));
    assert_eq!(width_crossings(&x, 3, 4), (Some(2), Some(5)));
    assert_eq!(width_crossings(&x, 3, -1), (None, None));
    assert_eq!(width_crossings(&x, 0, 0), (None, Some(6)));
}

#[test]
fn peak_widths_options_builder() {
    let x = [1.0f64, 2.0, 1.0];
    let peaks = [1usize];
    let o = PeakWidthsOptions::new(&x);
    assert!(o.peaks.is_none() && o.rel_height.is_none());
    let o = o.peaks(&peaks).rel_height(0.8);
    assert_eq!(o.peaks, Some(&peaks[..]));
    assert_eq!(o.rel_height, Some(0.8));
    assert_eq!(o.x, &x[..]);
}

#[test]
fn widths_default_is_empty() {
    let w: SpikefitWidths<f64> = SpikefitWidths::default();
    assert!(w.widths.is_empty() && w.left_intersections.is_empty() && w.right_intersections.is_empty());
}

#[test]
fn raising_the_height_only_removes_peaks() {
    let x = [0, 2, 1, 6, 1, 3, 2, 5, 0, 4, 0, 7, 1, 3, 0];
    for d in [None, Some(0usize), Some(2), Some(4)] {
        let mut previous: Option<Vec<usize>> = None;
        for h in -1..9i64 {
            let found = find_peaks_impl(&x, Some(h), None, d, None, None).unwrap();
            if let Some(prev) = &previous {
                assert!(found.iter().all(|p| prev.contains(p)));
            }
            previous = Some(found);
        }
    }
}

#[test]
fn reported_peaks_are_local_maxima() {
    let x = [5, 3, 8, 8, 2, 9, 1, 4, 4, 6];
    let maxima = local_maxima(&x);
    assert_eq!(maxima, vec![5, 9]);
    let mask = threshold_mask(&x, 1);
    let found = find_peaks_impl(&x, Some(0), Some(&mask), Some(1), None, None).unwrap();
    assert!(found.iter().all(|p| maxima.contains(p)));
    assert_eq!(found, vec![5, 9]);
}

#[test]
fn small_threshold_keeps_every_local_maximum() {
    let x = [0, 1, 0, 5, 4, 6, -3, -2];
    let maxima = local_maxima(&x);
    assert_eq!(maxima, vec![1, 3, 5, 7]);
    for th in [-5i64, 0, 1] {
        let mask = threshold_mask(&x, th);
        assert!(maxima.iter().all(|&i| mask[i]));
        assert_eq!(find_peaks_impl(&x, None, Some(&mask), None, None, None).unwrap(), maxima);
    }
    let mask = threshold_mask(&x, 2);
    assert_eq!(find_peaks_impl(&x, None, Some(&mask), None, None, None).unwrap(), vec![5]);
}

#[test]
fn prominence_mask_marks_local_maxima_prominent_enough() {
    let x = [0, 3, 2, 4, 1, 5, 3, 6];
    let maxima = local_maxima(&x);
    assert_eq!(maxima, vec![1, 3, 5, 7]);
    assert_eq!(peak_prominences_impl(&x, &maxima).unwrap(), vec![1, 3, 2, 0]);
    assert_eq!(
        prominence_mask(&x, 2),
        vec![false, false, false, true, false, true, false, false]
    );
    assert_eq!(prominence_mask(&x, 0).iter().filter(|&&b| b).count(), 4);
    let found = find_peaks_impl(&x, None, None, None, Some(&prominence_mask(&x, 2)), None).unwrap();
    assert_eq!(found, vec![3, 5]);
    let all = find_peaks_impl(&x, None, None, None, None, None).unwrap();
    let proms = peak_prominences_impl(&x, &all).unwrap();
    let expected: Vec<usize> = all.iter().zip(proms.iter()).filter(|(_, &p)| p >= 2).map(|(&i, _)| i).collect();
    assert_eq!(found, expected);
}

#[test]
fn absent_peak_list_means_every_local_maximum() {
    let x = [0, 2, 1, 3, 0, 4];
    assert_eq!(peaks_or_local_maxima(&x, None), vec![1, 3, 5]);
    assert_eq!(peaks_or_local_maxima(&x, Some(&[4, 0])), vec![4, 0]);
}
