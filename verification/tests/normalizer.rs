use gis_view::normalize::{
    compute_global_percentiles, compute_percentiles, normalize, normalize_shared,
    normalize_with_range, percentile_position, sample_is_valid, stretch_value, Fraction, Sample,
};

fn values(raw: &[i64]) -> Vec<Sample> {
    raw.iter().map(|v| Sample::Value(*v)).collect()
}

fn frac(num: u64, den: u64) -> Fraction {
    Fraction { num, den }
}

#[test]
fn window_ends_map_to_black_and_white() {
    let band = values(&[10, 20, 15, 12]);
    let out = normalize_with_range(&band, None, 10, 20);
    assert_eq!(out, vec![0, 255, 127, 51]);
}

#[test]
fn values_outside_the_window_are_clamped() {
    let band = values(&[-1000, 0, 100, 5000, i64::MIN, i64::MAX]);
    let out = normalize_with_range(&band, None, 0, 100);
    assert_eq!(out, vec![0, 0, 255, 255, 0, 255]);
}

#[test]
fn stretch_rounds_down() {
    assert_eq!(stretch_value(1, 0, 3), 85);
    assert_eq!(stretch_value(2, 0, 3), 170);
    assert_eq!(stretch_value(1, 0, 256), 0);
    assert_eq!(stretch_value(255, 0, 256), 254);
    assert_eq!(stretch_value(50, 0, 100), 127);
}

#[test]
fn stretch_handles_the_widest_window() {
    assert_eq!(stretch_value(0, i64::MIN, i64::MAX), 127);
    assert_eq!(stretch_value(i64::MIN, i64::MIN, i64::MAX), 0);
    assert_eq!(stretch_value(i64::MAX, i64::MIN, i64::MAX), 255);
}

#[test]
fn window_without_width_gives_mid_gray() {
    assert_eq!(stretch_value(7, 5, 5), 128);
    assert_eq!(stretch_value(7, 9, 3), 128);
}

#[test]
fn shared_range_of_identical_bands_equals_single_normalization() {
    let band = values(&[40, 3, 17, 99, 250, 8, 8, 61, 12, 77, 5, 300]);
    let low = frac(2, 100);
    let high = frac(98, 100);
    let single = normalize(&band, None, low, high);
    let shared = normalize_shared(&band, &band, &band, None, low, high);
    assert_eq!(shared.0, single);
    assert_eq!(shared.1, single);
    assert_eq!(shared.2, single);
    assert_eq!(
        compute_global_percentiles(&band, &band, &band, None, low, high),
        compute_percentiles(&band, None, low, high)
    );
}

#[test]
fn shared_range_of_identical_bands_with_awkward_percentiles() {
    let band = values(&[9, 1, 4, 7, 2, 8, 3]);
    for (ln, hn, den) in [(1u64, 2u64, 3u64), (1, 6, 7), (0, 1, 1), (1, 1, 1), (3, 5, 11)] {
        let low = frac(ln, den);
        let high = frac(hn, den);
        assert_eq!(
            compute_global_percentiles(&band, &band, &band, Some(4), low, high),
            compute_percentiles(&band, Some(4), low, high)
        );
    }
}

#[test]
fn flat_array_is_mid_gray() {
    let band = values(&[42; 9]);
    let out = normalize(&band, None, frac(2, 100), frac(98, 100));
    assert_eq!(out, vec![128; 9]);
    let shared = normalize_shared(&band, &band, &band, Some(7), frac(1, 50), frac(49, 50));
    assert_eq!(shared.0, vec![128; 9]);
    assert_eq!(shared.2, vec![128; 9]);
}

#[test]
fn array_of_nodata_only_is_black() {
    let band = values(&[-9999; 6]);
    let out = normalize(&band, Some(-9999), frac(2, 100), frac(98, 100));
    assert_eq!(out, vec![0; 6]);
    assert_eq!(compute_percentiles(&band, Some(-9999), frac(2, 100), frac(98, 100)), (0, 1));
}

#[test]
fn empty_pool_gives_the_unit_range() {
    let none: Vec<Sample> = Vec::new();
    let junk = vec![Sample::NonFinite, Sample::Value(5), Sample::NonFinite];
    assert_eq!(
        compute_global_percentiles(&none, &junk, &none, Some(5), frac(2, 100), frac(98, 100)),
        (0, 1)
    );
    assert_eq!(normalize(&none, None, frac(0, 1), frac(1, 1)), Vec::<u8>::new());
}

#[test]
fn nodata_and_non_finite_samples_are_black() {
    let band = vec![
        Sample::Value(0),
        Sample::NonFinite,
        Sample::Value(-1),
        Sample::Value(100),
        Sample::Value(50),
    ];
    let out = normalize_with_range(&band, Some(-1), 0, 100);
    assert_eq!(out, vec![0, 0, 0, 255, 127]);
    assert!(!sample_is_valid(Sample::NonFinite, None));
    assert!(!sample_is_valid(Sample::Value(-1), Some(-1)));
    assert!(sample_is_valid(Sample::Value(-1), Some(1)));
    assert!(sample_is_valid(Sample::Value(-1), None));
}

#[test]
fn nodata_equal_to_the_window_end_stays_black() {
    let band = values(&[10, 20]);
    assert_eq!(normalize_with_range(&band, Some(20), 10, 20), vec![0, 0]);
}

#[test]
fn percentiles_are_read_from_the_sorted_pool() {
    let r = values(&[50, 10, 40]);
    let g = values(&[30, 20, 60]);
    let b = values(&[90, 80, 70, 100]);
    // pooled and sorted: 10 20 30 40 50 60 70 80 90 100
    assert_eq!(compute_global_percentiles(&r, &g, &b, None, frac(2, 10), frac(8, 10)), (30, 90));
    assert_eq!(compute_global_percentiles(&r, &g, &b, None, frac(0, 1), frac(1, 1)), (10, 100));
    assert_eq!(compute_global_percentiles(&r, &g, &b, None, frac(1, 4), frac(3, 4)), (30, 80));
    // without the value 10: 20 30 40 50 60 70 80 90 100
    assert_eq!(
        compute_global_percentiles(&r, &g, &b, Some(10), frac(2, 10), frac(8, 10)),
        (30, 90)
    );
    assert_eq!(
        compute_global_percentiles(&r, &g, &b, Some(10), frac(1, 2), frac(1, 1)),
        (60, 100)
    );
}

#[test]
fn percentile_position_rounds_down_and_stays_inside() {
    assert_eq!(percentile_position(10, frac(2, 100)), 0);
    assert_eq!(percentile_position(10, frac(98, 100)), 9);
    assert_eq!(percentile_position(100, frac(2, 100)), 2);
    assert_eq!(percentile_position(100, frac(98, 100)), 98);
    assert_eq!(percentile_position(100, frac(1, 1)), 99);
    assert_eq!(percentile_position(1, frac(1, 2)), 0);
    assert_eq!(percentile_position(7, frac(1, 3)), 2);
    assert_eq!(percentile_position(usize::MAX, frac(u64::MAX, u64::MAX)), usize::MAX - 1);
}

#[test]
fn shared_range_keeps_bands_in_proportion() {
    let r = values(&[0, 100]);
    let g = values(&[0, 50]);
    let b = values(&[50, 100]);
    let out = normalize_shared(&r, &g, &b, None, frac(0, 1), frac(1, 1));
    assert_eq!(out.0, vec![0, 255]);
    assert_eq!(out.1, vec![0, 127]);
    assert_eq!(out.2, vec![127, 255]);
}

#[test]
fn fraction_validity() {
    assert!(frac(0, 1).is_valid());
    assert!(frac(5, 5).is_valid());
    assert!(!frac(6, 5).is_valid());
    assert!(!frac(0, 0).is_valid());
}

#[test]
fn stretch_keeps_the_order_of_values() {
    let mut last = 0;
    for v in -50..350 {
        let byte = stretch_value(v, 0, 300);
        assert!(byte >= last);
        last = byte;
    }
    assert_eq!(last, 255);
}

fn float_stretch(v: f64, low: f64, high: f64) -> u8 {
    let range = high - low;
    if range > 0.0 {
        (((v - low) / range) * 255.0).clamp(0.0, 255.0) as u8
    } else {
        128
    }
}

#[test]
fn stretch_agrees_with_floating_point_on_whole_numbers() {
    for (low, high) in [(0i64, 1000i64), (0, 255), (-128, 127), (0, 65535), (100, 4095)] {
        let mut v = low - 10;
        while v <= high + 10 {
            assert_eq!(
                stretch_value(v, low, high),
                float_stretch(v as f64, low as f64, high as f64),
                "value {} in {}..{}",
                v,
                low,
                high
            );
            v += 1;
        }
    }
}
