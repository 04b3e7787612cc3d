use cafe::constants::{F_AVERAGE, F_TR_DIRECTIONAL, F_WEIGHTED, NUM_FILTERS};
use cafe::error::CafeError;
use cafe::filter::{
    apply_predictive_filter, apply_predictive_filter_with_code, filter_block, tr_directional_predictor, undo_predictive_filter,
    weighted_predict, weighted_update, FilterHeuristic, WeightedState, WEIGHTED_INIT_WEIGHT,
};

/// Shannon entropy (bits) of a byte slice.
fn shannon_entropy(data: &[u8]) -> f64 {
    if data.is_empty() {
        return 0.0;
    }
    let mut counts = [0u32; 256];
    for &b in data {
        counts[b as usize] += 1;
    }
    let n = data.len() as f64;
    counts
        .iter()
        .filter(|&&c| c > 0)
        .map(|&c| {
            let p = c as f64 / n;
            -p * p.log2()
        })
        .sum()
}

/// The filter code with the lowest entropy summed row by row (the first
/// on ties), as the entropy heuristic picks it.
fn entropy_choice(tile: &[u8], h: usize, bpr: usize, bpp: usize) -> u8 {
    let mut best = 0u8;
    let mut best_score = f64::INFINITY;
    for f in 0..NUM_FILTERS {
        let filtered = filter_block(tile, h, bpr, bpp, f);
        let score: f64 = filtered.chunks_exact(bpr).map(shannon_entropy).sum();
        if score < best_score {
            best_score = score;
            best = f;
        }
    }
    best
}

#[test]
fn test_num_filters_includes_new_predictors() {
    assert_eq!(NUM_FILTERS, 16);
    assert_eq!(F_TR_DIRECTIONAL, 14);
    assert_eq!(F_WEIGHTED, 15);
}

#[test]
fn test_tr_directional_predictor_formula() {
    assert_eq!(tr_directional_predictor(40, 30, 20, 10), 25);
    assert_eq!(tr_directional_predictor(40, 30, 20, 200), 72);
}

#[test]
fn test_tr_directional_uses_tr_neighbor() {
    assert_eq!(tr_directional_predictor(100, 100, 100, 0), 75);
    assert_eq!(tr_directional_predictor(100, 100, 100, 200), 125);
}

#[test]
fn test_weighted_predictor_adapts() {
    let mut state = WeightedState::default();
    let pred = weighted_predict(&state, 100, 100, 100, 100);
    assert_eq!(pred, ((8 * 4 * 100 + 16) >> 5) as u8);

    weighted_update(&mut state, 100, 200, 200, 200, 100);
    assert!(state.weight[0] > state.weight[1], "W weight should increase (error 0), N weight decrease");
    assert_eq!(state.weight[0], WEIGHTED_INIT_WEIGHT + 1);
    assert_eq!(state.weight[1], WEIGHTED_INIT_WEIGHT - 1);
}

#[test]
fn test_tr_directional_roundtrip() {
    let data: Vec<u8> = (0..160).map(|i| ((i * 37) % 256) as u8).collect();
    for bpp in [1usize, 4usize] {
        let filtered = filter_block(&data, 4, 40, bpp, F_TR_DIRECTIONAL);
        let mut out = Vec::with_capacity(1 + filtered.len());
        out.push(F_TR_DIRECTIONAL);
        out.extend_from_slice(&filtered);
        let undone = undo_predictive_filter(&out, 4, 40, bpp).unwrap();
        assert_eq!(undone, data, "roundtrip F_TR_DIRECTIONAL bpp={bpp}");
    }
}

#[test]
fn test_weighted_roundtrip() {
    let data: Vec<u8> = (0..160).map(|i| ((i * 37 + (i / 3) * 7) % 256) as u8).collect();
    for bpp in [1usize, 4usize] {
        let filtered = filter_block(&data, 4, 40, bpp, F_WEIGHTED);
        let mut out = Vec::with_capacity(1 + filtered.len());
        out.push(F_WEIGHTED);
        out.extend_from_slice(&filtered);
        let undone = undo_predictive_filter(&out, 4, 40, bpp).unwrap();
        assert_eq!(undone, data, "roundtrip F_WEIGHTED bpp={bpp}");
    }
}

#[test]
fn test_apply_predictive_filter_roundtrips_with_new_filters() {
    let data: Vec<u8> = (0..240).map(|i| ((i * 13) % 256) as u8).collect();
    // entropy heuristic: the choice is made here, the filtering by the library
    let code = entropy_choice(&data, 4, 60, 4);
    let out = apply_predictive_filter_with_code(&data, 4, 60, 4, code).unwrap();
    let undone = undo_predictive_filter(&out, 4, 60, 4).unwrap();
    assert_eq!(undone, data, "roundtrip with heuristic Entropy");
    let out = apply_predictive_filter(&data, 4, 60, 4, FilterHeuristic::CompressionTest, 19).unwrap();
    let undone = undo_predictive_filter(&out, 4, 60, 4).unwrap();
    assert_eq!(undone, data, "roundtrip with heuristic CompressionTest");
}

#[test]
fn test_undo_rejects_invalid_filter_code() {
    let mut data = vec![NUM_FILTERS, 0, 1, 2, 3];
    data.extend_from_slice(&[0u8; 36]);
    match undo_predictive_filter(&data, 1, 36, 4) {
        Err(CafeError::UnsupportedFeature(msg, _)) => {
            assert!(msg.contains("invalid filter code"));
        }
        other => panic!("expected UnsupportedFeature, got {other:?}"),
    }
}

#[test]
fn test_tr_directional_selected_on_recurrence_field() {
    let w = 64;
    let h = 32;
    let mut trfield = vec![0u8; w * h];
    for (x, cell) in trfield.iter_mut().take(w).enumerate() {
        *cell = ((x * 3) % 256) as u8;
    }
    for y in 0..h {
        trfield[y * w] = ((y * 5) % 256) as u8;
    }
    for y in 1..h {
        for x in 1..w - 1 {
            let l = trfield[y * w + (x - 1)];
            let tl = trfield[(y - 1) * w + (x - 1)];
            let t = trfield[(y - 1) * w + x];
            let tr = trfield[(y - 1) * w + (x + 1)];
            trfield[y * w + x] = tr_directional_predictor(l, t, tl, tr);
        }
    }
    let ftype = entropy_choice(&trfield, h, w, 1);
    assert_eq!(ftype, F_TR_DIRECTIONAL);
}

#[test]
fn test_weighted_beats_average_on_mixed_direction() {
    let w = 64;
    let h = 32;
    let mut mixed = vec![0u8; w * h];
    for y in 0..h {
        for x in 0..w {
            mixed[y * w + x] = if y < 16 { x as u8 } else { (y % 256) as u8 };
        }
    }
    let absres = |f: u8| -> u64 {
        filter_block(&mixed, h, w, 1, f).iter().map(|&r| (r as i8).unsigned_abs() as u64).sum::<u64>()
    };
    assert!(absres(F_WEIGHTED) < absres(F_AVERAGE), "F_WEIGHTED should adapt better than F_AVERAGE on mixed direction");
}

#[test]
fn test_msad_picks_lowest_residual_sum() {
    // a constant image: every residual of the Sub filter past the first
    // pixel is zero, so the sum of residuals picks a filter whose output
    // sums no higher than Sub's
    let data = vec![7u8; 64];
    let out = apply_predictive_filter(&data, 4, 16, 1, FilterHeuristic::Msad, 19).unwrap();
    let sum: u64 = out[1..].iter().map(|&b| b as u64).sum();
    let sub: u64 = filter_block(&data, 4, 16, 1, 1).iter().map(|&b| b as u64).sum();
    assert!(sum <= sub);
    assert_eq!(undo_predictive_filter(&out, 4, 16, 1).unwrap(), data);
}

#[test]
fn test_apply_predictive_filter_truncated() {
    let data = vec![0u8; 10];
    assert!(matches!(apply_predictive_filter(&data, 4, 4, 1, FilterHeuristic::Msad, 19), Err(CafeError::TruncatedFile(..))));
}
