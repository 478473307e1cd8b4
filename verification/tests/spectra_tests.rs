use libs_processing::spectra::{GOLD_242_HIGH, GOLD_242_LOW, GOLD_267_HIGH, GOLD_267_LOW};
use libs_processing::spectra::{
    accumulation_extent, get_index_of_lambda, get_subset, line_for_lambda, line_holds_lambda,
    scale_added_plots, subset_stops_at,
};

fn rows(values: &[(f32, f32)]) -> Vec<(u32, u32)> {
    values.iter().map(|(w, x)| (w.to_bits(), x.to_bits())).collect()
}

fn bits(values: &[f32]) -> Vec<u32> {
    values.iter().map(|v| v.to_bits()).collect()
}

#[test]
fn subset_keeps_rows_in_range() {
    let data = rows(&[(239.0, 1.0), (240.0, 2.0), (250.0, 3.0), (320.0, 4.0), (321.0, 5.0), (300.0, 6.0)]);
    let kept = get_subset(&data, 240.0f32.to_bits(), 320.0f32.to_bits());
    assert_eq!(kept, rows(&[(240.0, 2.0), (250.0, 3.0), (320.0, 4.0)]));
}

#[test]
fn subset_stops_only_at_rows_not_below_start() {
    let data = rows(&[(5.0, 1.0), (30.0, 2.0)]);
    // 5.0 lies above the finish but below the start: it is skipped, not a stop.
    let kept = get_subset(&data, 10.0f32.to_bits(), 4.0f32.to_bits());
    assert!(kept.is_empty());
    assert!(!subset_stops_at(5.0f32.to_bits(), 10.0f32.to_bits(), 4.0f32.to_bits()));
    assert!(subset_stops_at(30.0f32.to_bits(), 10.0f32.to_bits(), 4.0f32.to_bits()));
}

#[test]
fn subset_never_keeps_nan_rows() {
    let data = rows(&[(f32::NAN, 1.0), (250.0, 2.0), (400.0, 3.0)]);
    let kept = get_subset(&data, 240.0f32.to_bits(), 320.0f32.to_bits());
    assert_eq!(kept, rows(&[(250.0, 2.0)]));
}

#[test]
fn subset_with_nan_bound_is_empty() {
    let data = rows(&[(1.0, 1.0), (3.0, 2.0)]);
    assert!(get_subset(&data, f32::NAN.to_bits(), 2.0f32.to_bits()).is_empty());
    assert!(get_subset(&data, 0.0f32.to_bits(), f32::NAN.to_bits()).is_empty());
    assert!(get_subset(&rows(&[(1.0, 1.0)]), f32::NAN.to_bits(), 2.0f32.to_bits()).is_empty());
}

#[test]
fn line_for_lambda_is_first_line_above_it() {
    let w = bits(&[240.0, 241.0, 242.0, 243.0]);
    assert_eq!(line_for_lambda(241.5f32.to_bits(), &w), Some(2));
    assert_eq!(line_for_lambda(241.0f32.to_bits(), &w), Some(2));
    assert_eq!(line_for_lambda(239.0f32.to_bits(), &w), Some(0));
    assert_eq!(line_for_lambda(250.0f32.to_bits(), &w), None);
    assert_eq!(line_for_lambda(0.0f32.to_bits(), &w), None);
    assert!(line_holds_lambda(242.8f32.to_bits(), 243.0f32.to_bits()));
    assert!(!line_holds_lambda((-1.0f32).to_bits(), 243.0f32.to_bits()));
}

#[test]
fn accumulation_extent_cases() {
    let a = bits(&[240.0, 241.0, 242.0]);
    assert_eq!(accumulation_extent(&a, &bits(&[240.0, 241.0])), None);
    assert_eq!(accumulation_extent(&a, &bits(&[240.0, 241.0, 242.0])), Some(3));
    assert_eq!(accumulation_extent(&a, &bits(&[240.0, 241.5, 242.0])), Some(1));
    assert_eq!(accumulation_extent(&bits(&[0.0]), &bits(&[-0.0])), Some(1));
    assert_eq!(accumulation_extent(&bits(&[f32::NAN]), &bits(&[f32::NAN])), Some(0));
}

#[test]
fn index_of_gold_lines() {
    assert_eq!(get_index_of_lambda(267.59f32.to_bits()), 2599);
    assert_eq!(get_index_of_lambda(267.6f32.to_bits()), 2599);
    assert_eq!(get_index_of_lambda(267.61f32.to_bits()), 2599);
    assert_eq!(get_index_of_lambda(242.80f32.to_bits()), 1886);
    assert_eq!(get_index_of_lambda(242.79f32.to_bits()), 1886);
    assert_eq!(get_index_of_lambda(242.82f32.to_bits()), 1886);
    assert_eq!(get_index_of_lambda(312.29f32.to_bits()), 3970);
    assert_eq!(get_index_of_lambda(267.62f32.to_bits()), 3970);
    assert_eq!(get_index_of_lambda(f32::NAN.to_bits()), 3970);
}

#[test]
fn window_edges_match_literals() {
    assert_eq!(GOLD_267_LOW, 267.59f32.to_bits());
    assert_eq!(GOLD_267_HIGH, 267.61f32.to_bits());
    assert_eq!(GOLD_242_LOW, 242.79f32.to_bits());
    assert_eq!(GOLD_242_HIGH, 242.82f32.to_bits());
}

#[test]
fn scaling_placeholder_runs() {
    scale_added_plots();
}

#[test]
fn subset_of_rows_all_below_finish_keeps_all_in_range() {
    let data = rows(&[(239.0, 1.0), (240.0, 2.0), (250.0, 3.0), (300.0, 4.0)]);
    let kept = get_subset(&data, 240.0f32.to_bits(), 320.0f32.to_bits());
    assert_eq!(kept, rows(&[(240.0, 2.0), (250.0, 3.0), (300.0, 4.0)]));
}

#[test]
fn subset_with_start_above_every_row_is_empty() {
    let data = rows(&[(5.0, 1.0), (30.0, 2.0)]);
    let kept = get_subset(&data, 100.0f32.to_bits(), 4.0f32.to_bits());
    assert!(kept.is_empty());
}

#[test]
fn subset_of_no_rows_is_empty() {
    assert!(get_subset(&Vec::new(), 240.0f32.to_bits(), 320.0f32.to_bits()).is_empty());
}
