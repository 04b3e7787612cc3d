use cafe::error::CafeError;
use cafe::shuffle::{apply_byte_shuffle, undo_byte_shuffle};

#[test]
fn test_shuffle_apply_undo_roundtrip_2byte() {
    let original = vec![0x12, 0x34, 0x56, 0x78, 0x9A, 0xBC];
    let shuffled = apply_byte_shuffle(&original, 2, 3, 1).unwrap();
    assert_eq!(shuffled, vec![0x12, 0x56, 0x9A, 0x34, 0x78, 0xBC]);
    let unshuffled = undo_byte_shuffle(&shuffled, 2, 3, 1).unwrap();
    assert_eq!(unshuffled, original);
}

#[test]
fn test_shuffle_invalid_bpp_rejected() {
    let data = vec![0u8; 8];
    assert!(apply_byte_shuffle(&data, 1, 4, 1).is_err());
    assert!(apply_byte_shuffle(&data, 3, 4, 1).is_err());
    assert!(apply_byte_shuffle(&data, 5, 4, 1).is_err());
}

#[test]
fn test_shuffle_overflow_protection() {
    let data = vec![0u8; 100];
    assert!(apply_byte_shuffle(&data, 2, u32::MAX, u32::MAX).is_err());
}

#[test]
fn test_shuffle_truncated_buffer() {
    let data = vec![0u8; 10];
    assert!(undo_byte_shuffle(&data, 2, 10, 1).is_err());
}

#[test]
fn test_shuffle_4byte_pixel() {
    let original = vec![0x11, 0x22, 0x33, 0x44, 0x55, 0x66, 0x77, 0x88];
    let shuffled = apply_byte_shuffle(&original, 4, 2, 1).unwrap();
    assert_eq!(shuffled, vec![0x11, 0x55, 0x22, 0x66, 0x33, 0x77, 0x44, 0x88]);
    let unshuffled = undo_byte_shuffle(&shuffled, 4, 2, 1).unwrap();
    assert_eq!(unshuffled, original);
}

#[test]
fn test_shuffle_error_kinds() {
    assert!(matches!(apply_byte_shuffle(&[0u8; 6], 3, 2, 1), Err(CafeError::UnsupportedFeature(..))));
    assert!(matches!(apply_byte_shuffle(&[0u8; 6], 2, 2, 1), Err(CafeError::TruncatedFile(..))));
}

#[test]
fn test_shuffle_roundtrip_16byte() {
    let original: Vec<u8> = (0..64).map(|i| (i * 7 % 251) as u8).collect();
    let shuffled = apply_byte_shuffle(&original, 16, 2, 2).unwrap();
    assert_eq!(shuffled[1], original[16]);
    assert_eq!(undo_byte_shuffle(&shuffled, 16, 2, 2).unwrap(), original);
}
