use rhythmviz::spectrum::{normalize_spectrum, window_slice};

#[test]
fn window_slice_copies_in_range_and_zero_fills() {
    let samples = vec![1i64, 2, 3];
    assert_eq!(window_slice(&samples, 1, 4), vec![2, 3, 0, 0]);
    assert_eq!(window_slice(&samples, 0, 3), vec![1, 2, 3]);
    assert_eq!(window_slice(&samples, 10, 2), vec![0, 0]);
    assert_eq!(window_slice(&samples, 0, 0), Vec::<i64>::new());
}

#[test]
fn normalize_silent_spectrum_stays_all_zero() {
    assert_eq!(normalize_spectrum(&vec![0, 0, 0, 0]), vec![0, 0, 0, 0]);
    assert_eq!(normalize_spectrum(&vec![]), Vec::<u64>::new());
}

#[test]
fn normalize_maps_loudest_bin_to_800() {
    assert_eq!(normalize_spectrum(&vec![4, 2, 0]), vec![800, 400, 0]);
    assert_eq!(normalize_spectrum(&vec![3]), vec![800]);
}

#[test]
fn normalize_scales_proportionally_with_truncation() {
    // 800 / 3 truncates per bin
    assert_eq!(normalize_spectrum(&vec![3, 1, 2]), vec![800, 266, 533]);
}

#[test]
fn normalize_handles_huge_bins_without_overflow() {
    let m = u64::MAX;
    assert_eq!(normalize_spectrum(&vec![m, m / 2]), vec![800, 399]);
}
