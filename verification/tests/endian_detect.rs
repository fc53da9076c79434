use binbloom::{Arch, Endianness, EndiannessDetector};

/// Construct a 32-bit firmware where many little-endian reads share the same
/// high bytes (0x0800_xxxx) -> should be detected as little-endian.
fn le_firmware_32() -> Vec<u8> {
    let mut data = Vec::new();
    for i in 0..2000u32 {
        // Pointers into 0x08000000..0x0800ffff, 4-aligned.
        let ptr = 0x0800_0000 + ((i * 4) & 0xffff);
        data.extend_from_slice(&ptr.to_le_bytes());
    }
    data
}

#[test]
fn detects_little_endian_32() {
    let data = le_firmware_32();
    let d = EndiannessDetector::new(Arch::Bits32);
    assert_eq!(d.detect(&data), Endianness::Little);
}

#[test]
fn detects_big_endian_32() {
    // Same pointers but stored big-endian -> should be detected as BE.
    let mut data = Vec::new();
    for i in 0..2000u32 {
        let ptr = 0x0800_0000 + ((i * 4) & 0xffff);
        data.extend_from_slice(&ptr.to_be_bytes());
    }
    let d = EndiannessDetector::new(Arch::Bits32);
    assert_eq!(d.detect(&data), Endianness::Big);
}

#[test]
fn detects_little_endian_64() {
    let mut data = Vec::new();
    for i in 0..2000u64 {
        let ptr = 0x0000_0000_8000_0000 + ((i * 8) & 0xffff);
        data.extend_from_slice(&ptr.to_le_bytes());
    }
    let d = EndiannessDetector::new(Arch::Bits64);
    assert_eq!(d.detect(&data), Endianness::Little);
}

#[test]
fn tiny_input_defaults_to_le() {
    let d = EndiannessDetector::new(Arch::Bits32);
    assert_eq!(d.detect(&[0u8; 4]), Endianness::Little);
}

#[test]
fn msb_mask_is_high_bits() {
    // size 1024 -> log2 = 10 -> shift 9 -> low 9 bits cleared.
    assert_eq!(EndiannessDetector::msb_mask(1024), u64::MAX << 9);
}

#[test]
fn msb_mask_small_and_odd_sizes() {
    assert_eq!(EndiannessDetector::msb_mask(1), u64::MAX);
    assert_eq!(EndiannessDetector::msb_mask(2), u64::MAX);
    assert_eq!(EndiannessDetector::msb_mask(1500), u64::MAX << 9);
}

#[test]
fn detects_big_endian_64() {
    let mut data = Vec::new();
    for i in 0..2000u64 {
        let ptr = 0x0000_0000_8000_0000 + ((i * 8) & 0xffff);
        data.extend_from_slice(&ptr.to_be_bytes());
    }
    let d = EndiannessDetector::new(Arch::Bits64);
    assert_eq!(d.detect(&data), Endianness::Big);
}
