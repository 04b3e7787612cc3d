use cafe::simd_packing::{pack_1bit_samples, pack_2bit_samples, pack_4bit_samples, unpack_1bit_samples, unpack_2bit_samples, unpack_4bit_samples};

#[test]
fn test_pack_unpack_1bit_roundtrip() {
    let original = vec![0, 1, 1, 0, 1, 1, 1, 0, 0, 1, 0, 1];
    let packed = pack_1bit_samples(&original, original.len()).unwrap();
    let unpacked = unpack_1bit_samples(&packed, original.len()).unwrap();
    assert_eq!(original, unpacked, "1-bit roundtrip failed");
}

#[test]
fn test_pack_unpack_2bit_roundtrip() {
    let original = vec![0, 1, 2, 3, 2, 1, 0, 3];
    let packed = pack_2bit_samples(&original, original.len()).unwrap();
    let unpacked = unpack_2bit_samples(&packed, original.len()).unwrap();
    assert_eq!(original, unpacked, "2-bit roundtrip failed");
}

#[test]
fn test_pack_unpack_4bit_roundtrip() {
    let original = vec![0, 1, 5, 15, 8, 3, 10, 7];
    let packed = pack_4bit_samples(&original, original.len()).unwrap();
    let unpacked = unpack_4bit_samples(&packed, original.len()).unwrap();
    assert_eq!(original, unpacked, "4-bit roundtrip failed");
}

#[test]
fn test_pack_unpack_1bit_large_roundtrip() {
    let width = 512;
    let original: Vec<u8> = (0..width).map(|i| if (i * 7) % 11 < 5 { 1 } else { 0 }).collect();
    let packed = pack_1bit_samples(&original, width).unwrap();
    let unpacked = unpack_1bit_samples(&packed, width).unwrap();
    assert_eq!(original, unpacked, "1-bit large roundtrip failed");
}

#[test]
fn test_pack_unpack_2bit_large_roundtrip() {
    let width = 512;
    let original: Vec<u8> = (0..width).map(|i| ((i * 13) % 256) as u8 % 4).collect();
    let packed = pack_2bit_samples(&original, width).unwrap();
    let unpacked = unpack_2bit_samples(&packed, width).unwrap();
    assert_eq!(original, unpacked, "2-bit large roundtrip failed");
}

#[test]
fn test_pack_unpack_4bit_large_roundtrip() {
    let width = 512;
    let original: Vec<u8> = (0..width).map(|i| ((i * 17) % 256) as u8 % 16).collect();
    let packed = pack_4bit_samples(&original, width).unwrap();
    let unpacked = unpack_4bit_samples(&packed, width).unwrap();
    assert_eq!(original, unpacked, "4-bit large roundtrip failed");
}

#[test]
fn test_pack_unpack_1bit_edge_cases() {
    for width in &[1usize, 8, 16, 32, 33, 255, 256, 1024] {
        let zeros: Vec<u8> = vec![0; *width];
        let packed = pack_1bit_samples(&zeros, *width).unwrap();
        let unpacked = unpack_1bit_samples(&packed, *width).unwrap();
        assert_eq!(zeros, unpacked, "1-bit all-zeros failed for width {width}");
        let ones: Vec<u8> = vec![1; *width];
        let packed = pack_1bit_samples(&ones, *width).unwrap();
        let unpacked = unpack_1bit_samples(&packed, *width).unwrap();
        assert_eq!(ones, unpacked, "1-bit all-ones failed for width {width}");
    }
}

#[test]
fn test_pack_unpack_2bit_edge_cases() {
    for width in &[1usize, 4, 8, 16, 17, 32, 255, 256, 1024] {
        let pattern: Vec<u8> = (0..*width).map(|i| ((i * 5) % 4) as u8).collect();
        let packed = pack_2bit_samples(&pattern, *width).unwrap();
        let unpacked = unpack_2bit_samples(&packed, *width).unwrap();
        assert_eq!(pattern, unpacked, "2-bit pattern failed for width {width}");
    }
}

#[test]
fn test_pack_unpack_4bit_edge_cases() {
    for width in &[1usize, 2, 8, 9, 16, 32, 255, 256, 1024] {
        let pattern: Vec<u8> = (0..*width).map(|i| ((i * 7) % 16) as u8).collect();
        let packed = pack_4bit_samples(&pattern, *width).unwrap();
        let unpacked = unpack_4bit_samples(&packed, *width).unwrap();
        assert_eq!(pattern, unpacked, "4-bit pattern failed for width {width}");
    }
}

#[test]
fn test_pack_2bit_out_of_range_rejected() {
    let bad = vec![0u8, 1, 4, 2];
    assert!(pack_2bit_samples(&bad, bad.len()).is_err());
}

#[test]
fn test_pack_4bit_out_of_range_rejected() {
    let bad = vec![0u8, 1, 16, 2];
    assert!(pack_4bit_samples(&bad, bad.len()).is_err());
}

#[test]
fn test_pack_exact_bytes() {
    // most significant bits first
    assert_eq!(pack_1bit_samples(&[1, 0, 1, 1, 0, 0, 0, 1, 1], 9).unwrap(), vec![0b1011_0001, 0b1000_0000]);
    assert_eq!(pack_2bit_samples(&[3, 0, 1, 2, 1], 5).unwrap(), vec![0b1100_0110, 0b0100_0000]);
    assert_eq!(pack_4bit_samples(&[0xA, 0x5, 0xF], 3).unwrap(), vec![0xA5, 0xF0]);
    assert_eq!(unpack_4bit_samples(&[0xA5, 0xF0], 3).unwrap(), vec![0xA, 0x5, 0xF]);
}

#[test]
fn test_unpack_truncated() {
    assert!(unpack_1bit_samples(&[0xFF], 9).is_err());
    assert!(unpack_4bit_samples(&[], 1).is_err());
}
