use cafe::error::CafeError;
use cafe::quantize::{quantize_kmeans, quantize_median_cut};

fn red_gradient() -> Vec<u8> {
    let mut rgba = Vec::new();
    for i in 0..100 {
        let shade = ((i * 255 / 100) as u8).saturating_add(50);
        rgba.extend_from_slice(&[shade, 0, 0, 255]);
    }
    rgba
}

#[test]
fn test_median_cut_simple() {
    let rgba = vec![
        255, 0, 0, 255, 0, 255, 0, 255, 0, 0, 255, 255, 255, 255, 0, 255, 255, 0, 255, 255, 0, 255, 255, 255, 128, 128, 128, 255,
        255, 255, 255, 255,
    ];
    let palette = quantize_median_cut(&rgba, 8).unwrap();
    assert_eq!(palette.entries.len(), 8, "Should have 8 palette entries");
}

#[test]
fn test_median_cut_reduction() {
    let rgba = red_gradient();
    let palette = quantize_median_cut(&rgba, 2).unwrap();
    assert!(palette.entries.len() <= 2, "Should quantize to at most 2 palette entries");
    for entry in &palette.entries {
        assert!(entry.r >= 50, "Entry should have red >= 50, got r={}", entry.r);
    }
}

#[test]
fn test_kmeans_already_under_max_colors() {
    let rgba = vec![255, 0, 0, 255, 0, 255, 0, 255, 0, 0, 255, 255];
    let palette = quantize_kmeans(&rgba, 8).unwrap();
    assert_eq!(palette.entries.len(), 3, "Should have exactly 3 palette entries (one per unique color)");
}

#[test]
fn test_kmeans_reduction() {
    let rgba = red_gradient();
    let palette = quantize_kmeans(&rgba, 2).unwrap();
    assert!(palette.entries.len() <= 2, "Should quantize to at most 2 palette entries, got {}", palette.entries.len());
    for entry in &palette.entries {
        assert!(entry.r >= 50, "Entry should have red >= 50, got r={}", entry.r);
        assert_eq!(entry.g, 0);
        assert_eq!(entry.b, 0);
        assert_eq!(entry.a, 255);
    }
}

#[test]
fn test_kmeans_deterministic_across_runs() {
    let mut rgba = Vec::new();
    for i in 0..300u32 {
        let r = ((i * 37) % 256) as u8;
        let g = ((i * 71) % 256) as u8;
        let b = ((i * 113) % 256) as u8;
        rgba.extend_from_slice(&[r, g, b, 255]);
    }
    let palette1 = quantize_kmeans(&rgba, 16).unwrap();
    let palette2 = quantize_kmeans(&rgba, 16).unwrap();
    assert_eq!(palette1.entries.len(), palette2.entries.len());
    for (e1, e2) in palette1.entries.iter().zip(palette2.entries.iter()) {
        assert_eq!(e1.r, e2.r);
        assert_eq!(e1.g, e2.g);
        assert_eq!(e1.b, e2.b);
        assert_eq!(e1.a, e2.a);
    }
}

#[test]
fn test_kmeans_rejects_invalid_max_colors() {
    let rgba = vec![255, 0, 0, 255];
    assert!(quantize_kmeans(&rgba, 0).is_err());
    assert!(quantize_kmeans(&rgba, 257).is_err());
}

#[test]
fn test_kmeans_rejects_non_rgba_length() {
    let rgba = vec![255, 0, 0];
    assert!(quantize_kmeans(&rgba, 8).is_err());
}

#[test]
fn test_quantized_palettes_respect_max_and_opacity() {
    let mut rgba = Vec::new();
    for i in 0..200u32 {
        rgba.extend_from_slice(&[(i * 3 % 256) as u8, (i * 5 % 256) as u8, (i * 11 % 256) as u8, (i % 256) as u8]);
    }
    for max in [1usize, 4, 16] {
        for p in [quantize_median_cut(&rgba, max).unwrap(), quantize_kmeans(&rgba, max).unwrap()] {
            assert!(p.entries.len() <= max && !p.entries.is_empty());
            assert!(p.entries.iter().all(|e| e.a == 255));
        }
    }
}

#[test]
fn test_median_cut_error_kinds() {
    assert!(matches!(quantize_median_cut(&[1, 2, 3], 4).map(|p| p.entries.len()), Err(CafeError::UnsupportedFeature(..))));
    assert!(quantize_median_cut(&[], 4).is_err());
    assert!(quantize_median_cut(&[1, 2, 3, 255], 0).is_err());
}

#[test]
fn test_kmeans_two_clear_clusters() {
    // dark and bright clusters: the two centroids are their exact means
    let mut rgba = Vec::new();
    for v in [10u8, 12, 14] {
        rgba.extend_from_slice(&[v, v, v, 255]);
    }
    for v in [200u8, 202, 204] {
        rgba.extend_from_slice(&[v, v, v, 255]);
    }
    let p = quantize_kmeans(&rgba, 2).unwrap();
    let mut rs: Vec<u8> = p.entries.iter().map(|e| e.r).collect();
    rs.sort();
    assert_eq!(rs, vec![12, 202]);
}

#[test]
fn test_palettes_stay_within_channel_ranges() {
    // Red in 40..=200, green in 10..=90, blue fixed at 77.
    let mut rgba = Vec::new();
    for i in 0..300u32 {
        let r = 40 + (i * 37 % 161) as u8;
        let g = 10 + (i * 11 % 81) as u8;
        rgba.extend_from_slice(&[r, g, 77, 255]);
    }
    for palette in [quantize_median_cut(&rgba, 5).unwrap(), quantize_kmeans(&rgba, 5).unwrap()] {
        assert!(!palette.entries.is_empty() && palette.entries.len() <= 5);
        for e in &palette.entries {
            assert!((40..=200).contains(&e.r), "r = {}", e.r);
            assert!((10..=90).contains(&e.g), "g = {}", e.g);
            assert_eq!(e.b, 77);
            assert_eq!(e.a, 255);
        }
    }
}
