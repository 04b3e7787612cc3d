use cafe::simd::{
    filter_4way_d1_avx2, filter_4way_d2_avx2, filter_4way_h_avx2, filter_4way_scalar, filter_4way_v_avx2, filter_average_avx2,
    filter_average_scalar, filter_gradient_avx2, filter_gradient_scalar, filter_sub_avx2, filter_sub_scalar,
    filter_tr_directional_avx2, filter_tr_directional_scalar, filter_up_avx2, filter_up_scalar, unfilter_average_avx2,
    unfilter_sub_avx2, unfilter_up_avx2, unfilter_up_scalar,
};

fn unfilter_generic(filtered: &[u8], prev_row: Option<&[u8]>, bpp: usize, pred_fn: impl Fn(u8, u8, u8, u8) -> u8) -> Vec<u8> {
    let mut out = vec![0u8; filtered.len()];
    for i in 0..filtered.len() {
        let a = if i >= bpp { out[i - bpp] } else { 0 };
        let b = prev_row.map(|p| p[i]).unwrap_or(0);
        let c = if i >= bpp { prev_row.map(|p| p[i - bpp]).unwrap_or(0) } else { 0 };
        let d = if i + bpp < filtered.len() { prev_row.map(|p| p[i + bpp]).unwrap_or(0) } else { 0 };
        out[i] = filtered[i].wrapping_add(pred_fn(a, b, c, d));
    }
    out
}

fn gradient_pred(a: u8, b: u8, c: u8, _d: u8) -> u8 {
    a.wrapping_add(b).wrapping_sub(c)
}
fn h_pred(a: u8, b: u8, _c: u8, _d: u8) -> u8 {
    ((a as u16 * 3 + b as u16) / 4) as u8
}
fn v_pred(a: u8, b: u8, _c: u8, _d: u8) -> u8 {
    ((a as u16 + b as u16 * 3) / 4) as u8
}
fn d1_pred(a: u8, b: u8, c: u8, _d: u8) -> u8 {
    ((a as u16 + b as u16 + c as u16 * 2) / 4) as u8
}
fn d2_pred(a: u8, b: u8, c: u8, _d: u8) -> u8 {
    ((a as u16 * 2 + b as u16 * 2 + c as u16) / 5) as u8
}
fn tr_pred(a: u8, b: u8, c: u8, d: u8) -> u8 {
    let avg2 = |x: u8, y: u8| ((x as u16 + y as u16) >> 1) as u8;
    avg2(avg2(a, c), avg2(b, d))
}

fn test_rows(width: usize) -> (Vec<u8>, Vec<u8>) {
    let row: Vec<u8> = (0..width).map(|i| ((i * 197) % 256) as u8).collect();
    let prev: Vec<u8> = (0..width).map(|i| ((i * 131 + 7) % 256) as u8).collect();
    (row, prev)
}

#[test]
fn test_filter_sub_avx2_roundtrip() {
    let row = vec![10u8, 20, 30, 40, 50, 60, 70, 80, 90, 100];
    let filtered = filter_sub_avx2(&row, 1);
    let unfiltered = unfilter_sub_avx2(&filtered, 1);
    assert_eq!(unfiltered, row, "Filter 1 (Sub) roundtrip failed");
}

#[test]
fn test_filter_up_avx2_roundtrip() {
    let row = vec![100u8, 110, 120, 130, 140, 150];
    let prev = vec![50u8, 60, 70, 80, 90, 100];
    let filtered = filter_up_avx2(&row, Some(&prev));
    let unfiltered = unfilter_up_avx2(&filtered, Some(&prev));
    assert_eq!(unfiltered, row, "Filter 2 (Up) roundtrip failed");
}

#[test]
fn test_filter_average_avx2_roundtrip() {
    let row = vec![100u8, 110, 120, 130, 140, 150];
    let prev = vec![50u8, 60, 70, 80, 90, 100];
    let filtered = filter_average_avx2(&row, Some(&prev), 1);
    let unfiltered = unfilter_average_avx2(&filtered, Some(&prev), 1);
    assert_eq!(unfiltered, row, "Filter 3 (Average) roundtrip failed");
}

#[test]
fn test_filter_sub_avx2_large_bpp() {
    let row = vec![10u8; 40];
    let filtered = filter_sub_avx2(&row, 4);
    let unfiltered = unfilter_sub_avx2(&filtered, 4);
    assert_eq!(unfiltered, row, "Filter 1 (Sub) with bpp=4 failed");
}

#[test]
fn test_filter_sub_avx2_large_row() {
    let row: Vec<u8> = (0..2048).map(|i| ((i * 7) % 256) as u8).collect();
    let filtered = filter_sub_avx2(&row, 1);
    let unfiltered = unfilter_sub_avx2(&filtered, 1);
    assert_eq!(unfiltered, row, "Filter 1 (Sub) large row failed");
}

#[test]
fn test_filter_up_avx2_large_row() {
    let row: Vec<u8> = (0..2048).map(|i| ((i * 11) % 256) as u8).collect();
    let prev: Vec<u8> = (0..2048).map(|i| ((i * 13) % 256) as u8).collect();
    let filtered = filter_up_avx2(&row, Some(&prev));
    let unfiltered = unfilter_up_avx2(&filtered, Some(&prev));
    assert_eq!(unfiltered, row, "Filter 2 (Up) large row failed");
}

#[test]
fn test_filter_average_avx2_carry_bit_large_values() {
    let width = 100;
    let row: Vec<u8> = (0..width).map(|i| 200u8.wrapping_add(i as u8)).collect();
    let prev: Vec<u8> = (0..width).map(|i| 210u8.wrapping_add(i as u8)).collect();
    let filtered = filter_average_avx2(&row, Some(&prev), 1);
    let unfiltered = unfilter_average_avx2(&filtered, Some(&prev), 1);
    assert_eq!(unfiltered, row, "Filter 3 (Average) AVX2 carry-bit roundtrip failed");
    let scalar_filtered = filter_average_scalar(&row, Some(&prev), 1);
    assert_eq!(filtered, scalar_filtered, "AVX2 average filter diverges from scalar reference (carry-bit bug)");
}

#[test]
fn test_filter_average_avx2_matches_scalar_random() {
    let width = 257;
    let row: Vec<u8> = (0..width).map(|i| ((i * 197) % 256) as u8).collect();
    let prev: Vec<u8> = (0..width).map(|i| ((i * 131 + 7) % 256) as u8).collect();
    let avx2_filtered = filter_average_avx2(&row, Some(&prev), 4);
    let scalar_filtered = filter_average_scalar(&row, Some(&prev), 4);
    assert_eq!(avx2_filtered, scalar_filtered, "AVX2 and scalar average filter diverge");
}

#[test]
fn test_filter_average_no_prev_row() {
    let row: Vec<u8> = (0..64).map(|i| ((i * 3) % 256) as u8).collect();
    let filtered = filter_average_avx2(&row, None, 1);
    let scalar_filtered = filter_average_scalar(&row, None, 1);
    assert_eq!(filtered, scalar_filtered);
}

#[test]
fn test_filter_gradient_avx2_matches_scalar_and_roundtrips() {
    for &bpp in &[1usize, 3, 4] {
        let (row, prev) = test_rows(257);
        let avx2_filtered = filter_gradient_avx2(&row, Some(&prev), bpp);
        let scalar_filtered = filter_gradient_scalar(&row, Some(&prev), bpp);
        assert_eq!(avx2_filtered, scalar_filtered, "Gradient bpp={bpp}");
        let unfiltered = unfilter_generic(&avx2_filtered, Some(&prev), bpp, gradient_pred);
        assert_eq!(unfiltered, row, "Gradient roundtrip bpp={bpp}");
        let no_prev = filter_gradient_avx2(&row, None, bpp);
        let no_prev_scalar = filter_gradient_scalar(&row, None, bpp);
        assert_eq!(no_prev, no_prev_scalar, "Gradient no-prev bpp={bpp}");
    }
}

#[test]
fn test_directional_filters_carry_bit_large_values() {
    let bpp = 1;
    let width = 100;
    let row: Vec<u8> = (0..width).map(|i| 200u8.wrapping_add(i as u8)).collect();
    let prev: Vec<u8> = (0..width).map(|i| 210u8.wrapping_add(i as u8)).collect();

    let avx2_filtered = filter_4way_h_avx2(&row, Some(&prev), bpp);
    let scalar_filtered = filter_4way_scalar(&row, Some(&prev), bpp, |a, b, _c| ((a as u16 * 3 + b as u16) / 4) as u8);
    assert_eq!(avx2_filtered, scalar_filtered, "filter_4way_h_avx2 carry-bit mismatch");

    let avx2_filtered = filter_4way_v_avx2(&row, Some(&prev), bpp);
    let scalar_filtered = filter_4way_scalar(&row, Some(&prev), bpp, |a, b, _c| ((a as u16 + b as u16 * 3) / 4) as u8);
    assert_eq!(avx2_filtered, scalar_filtered, "filter_4way_v_avx2 carry-bit mismatch");

    let avx2_filtered = filter_4way_d1_avx2(&row, Some(&prev), bpp);
    let scalar_filtered =
        filter_4way_scalar(&row, Some(&prev), bpp, |a, b, c| ((a as u16 + b as u16 + c as u16 * 2) / 4) as u8);
    assert_eq!(avx2_filtered, scalar_filtered, "filter_4way_d1_avx2 carry-bit mismatch");

    let avx2_filtered = filter_4way_d2_avx2(&row, Some(&prev), bpp);
    let scalar_filtered =
        filter_4way_scalar(&row, Some(&prev), bpp, |a, b, c| ((a as u16 * 2 + b as u16 * 2 + c as u16) / 5) as u8);
    assert_eq!(avx2_filtered, scalar_filtered, "filter_4way_d2_avx2 carry-bit mismatch");
}

#[test]
fn test_filter_4way_h_avx2_matches_scalar_and_roundtrips() {
    for &bpp in &[1usize, 3, 4] {
        let (row, prev) = test_rows(257);
        let pred = |a: u8, b: u8, _c: u8| ((a as u16 * 3 + b as u16) / 4) as u8;
        let avx2_filtered = filter_4way_h_avx2(&row, Some(&prev), bpp);
        assert_eq!(avx2_filtered, filter_4way_scalar(&row, Some(&prev), bpp, pred), "4wayH bpp={bpp}");
        assert_eq!(unfilter_generic(&avx2_filtered, Some(&prev), bpp, h_pred), row, "4wayH roundtrip bpp={bpp}");
        assert_eq!(filter_4way_h_avx2(&row, None, bpp), filter_4way_scalar(&row, None, bpp, pred), "4wayH no-prev bpp={bpp}");
    }
}

#[test]
fn test_filter_4way_v_avx2_matches_scalar_and_roundtrips() {
    for &bpp in &[1usize, 3, 4] {
        let (row, prev) = test_rows(257);
        let pred = |a: u8, b: u8, _c: u8| ((a as u16 + b as u16 * 3) / 4) as u8;
        let avx2_filtered = filter_4way_v_avx2(&row, Some(&prev), bpp);
        assert_eq!(avx2_filtered, filter_4way_scalar(&row, Some(&prev), bpp, pred), "4wayV bpp={bpp}");
        assert_eq!(unfilter_generic(&avx2_filtered, Some(&prev), bpp, v_pred), row, "4wayV roundtrip bpp={bpp}");
        assert_eq!(filter_4way_v_avx2(&row, None, bpp), filter_4way_scalar(&row, None, bpp, pred), "4wayV no-prev bpp={bpp}");
    }
}

#[test]
fn test_filter_4way_d1_avx2_matches_scalar_and_roundtrips() {
    for &bpp in &[1usize, 3, 4] {
        let (row, prev) = test_rows(257);
        let pred = |a: u8, b: u8, c: u8| ((a as u16 + b as u16 + c as u16 * 2) / 4) as u8;
        let avx2_filtered = filter_4way_d1_avx2(&row, Some(&prev), bpp);
        assert_eq!(avx2_filtered, filter_4way_scalar(&row, Some(&prev), bpp, pred), "4wayD1 bpp={bpp}");
        assert_eq!(unfilter_generic(&avx2_filtered, Some(&prev), bpp, d1_pred), row, "4wayD1 roundtrip bpp={bpp}");
        assert_eq!(filter_4way_d1_avx2(&row, None, bpp), filter_4way_scalar(&row, None, bpp, pred), "4wayD1 no-prev bpp={bpp}");
    }
}

#[test]
fn test_filter_4way_d2_avx2_matches_scalar_and_roundtrips() {
    for &bpp in &[1usize, 3, 4] {
        let (row, prev) = test_rows(257);
        let pred = |a: u8, b: u8, c: u8| ((a as u16 * 2 + b as u16 * 2 + c as u16) / 5) as u8;
        let avx2_filtered = filter_4way_d2_avx2(&row, Some(&prev), bpp);
        assert_eq!(avx2_filtered, filter_4way_scalar(&row, Some(&prev), bpp, pred), "4wayD2 bpp={bpp}");
        assert_eq!(unfilter_generic(&avx2_filtered, Some(&prev), bpp, d2_pred), row, "4wayD2 roundtrip bpp={bpp}");
        assert_eq!(filter_4way_d2_avx2(&row, None, bpp), filter_4way_scalar(&row, None, bpp, pred), "4wayD2 no-prev bpp={bpp}");
    }
}

#[test]
fn test_4way_d2_reciprocal_division_by_5_exact_for_all_sums() {
    for sum in 0u32..=1275 {
        let expected = sum / 5;
        let approx = (sum * 13108) >> 16;
        assert_eq!(expected, approx, "reciprocal /5 approximation diverges at sum={sum}");
    }
}

#[test]
fn test_filter_tr_directional_avx2_matches_scalar_and_roundtrips() {
    for &bpp in &[1usize, 3, 4] {
        let (row, prev) = test_rows(257);
        let avx2_filtered = filter_tr_directional_avx2(&row, Some(&prev), bpp);
        let scalar_filtered = filter_tr_directional_scalar(&row, Some(&prev), bpp);
        assert_eq!(avx2_filtered, scalar_filtered, "TR-directional bpp={bpp}");
        assert_eq!(unfilter_generic(&avx2_filtered, Some(&prev), bpp, tr_pred), row, "TR-directional roundtrip bpp={bpp}");
        let no_prev = filter_tr_directional_avx2(&row, None, bpp);
        let no_prev_scalar = filter_tr_directional_scalar(&row, None, bpp);
        assert_eq!(no_prev, no_prev_scalar, "TR-directional no-prev bpp={bpp}");
    }
}

#[test]
fn test_filter_tr_directional_avx2_small_row_no_overread() {
    for &bpp in &[1usize, 4] {
        let width = bpp + 10;
        let row: Vec<u8> = (0..width).map(|i| ((i * 53) % 256) as u8).collect();
        let prev: Vec<u8> = (0..width).map(|i| ((i * 29 + 3) % 256) as u8).collect();
        let avx2_filtered = filter_tr_directional_avx2(&row, Some(&prev), bpp);
        let scalar_filtered = filter_tr_directional_scalar(&row, Some(&prev), bpp);
        assert_eq!(avx2_filtered, scalar_filtered, "TR small row bpp={bpp}");
    }
}

#[test]
fn test_sub_and_up_exact_values() {
    assert_eq!(filter_sub_scalar(&[10, 20, 35], 1), vec![10, 10, 15]);
    assert_eq!(filter_up_scalar(&[10, 20], Some(&[3, 25])), vec![7, 251]);
    assert_eq!(unfilter_up_scalar(&[7, 251], Some(&[3, 25])), vec![10, 20]);
    assert_eq!(filter_up_scalar(&[10, 20], None), vec![10, 20]);
}
