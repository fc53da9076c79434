use binbloom::{Arch, Endianness, PointerReader};

const DATA: [u8; 8] = [0x78, 0x56, 0x34, 0x12, 0xef, 0xcd, 0xab, 0x90];

#[test]
fn read_32_le() {
    let r = PointerReader::new(Arch::Bits32, Endianness::Little);
    assert_eq!(r.read(&DATA, 0), 0x1234_5678);
}

#[test]
fn read_32_be() {
    let r = PointerReader::new(Arch::Bits32, Endianness::Big);
    assert_eq!(r.read(&DATA, 0), 0x7856_3412);
}

#[test]
fn read_64_le() {
    let r = PointerReader::new(Arch::Bits64, Endianness::Little);
    assert_eq!(r.read(&DATA, 0), 0x90ab_cdef_1234_5678);
}

#[test]
fn read_64_be() {
    let r = PointerReader::new(Arch::Bits64, Endianness::Big);
    assert_eq!(r.read(&DATA, 0), 0x7856_3412_efcd_ab90);
}

#[test]
fn unknown_endian_reads_as_le() {
    let r = PointerReader::new(Arch::Bits32, Endianness::Unknown);
    assert_eq!(r.read(&DATA, 0), 0x1234_5678);
}

#[test]
fn read_as_overrides_default() {
    let r = PointerReader::new(Arch::Bits32, Endianness::Little);
    assert_eq!(r.read_as(Endianness::Big, &DATA, 0), 0x7856_3412);
}

#[test]
fn out_of_bounds_is_zero_padded() {
    let r = PointerReader::new(Arch::Bits32, Endianness::Little);
    // Only one byte available -> the rest are treated as zero.
    assert_eq!(r.read(&[0xaa], 0), 0x0000_00aa);
    // Entirely past the end -> zero.
    assert_eq!(r.read(&DATA, 100), 0);
}

#[test]
fn ascii_detection_32() {
    let r = PointerReader::new(Arch::Bits32, Endianness::Little);
    // "ABCD" -> all printable.
    assert!(r.is_ascii_ptr(0x4443_4241));
    // contains 0x00 -> not all printable.
    assert!(!r.is_ascii_ptr(0x4443_4200));
    // contains 0xff -> not printable.
    assert!(!r.is_ascii_ptr(0xff43_4241));
}

#[test]
fn ascii_detection_64_ignores_high_bytes_for_32() {
    // For a 32-bit reader only the low 4 bytes matter.
    let r = PointerReader::new(Arch::Bits32, Endianness::Little);
    assert!(r.is_ascii_ptr(0xffff_ffff_4443_4241));
}

#[test]
fn reader_reports_its_settings() {
    let r = PointerReader::new(Arch::Bits64, Endianness::Big);
    assert_eq!(r.size(), 8);
    assert_eq!(r.arch(), Arch::Bits64);
    // A 64-bit read straddling the end keeps the available bytes.
    assert_eq!(r.read(&DATA, 6), 0xab90_0000_0000_0000);
    // Space and tilde bound the printable range; DEL and 0x1f fall outside.
    assert!(r.is_ascii_ptr(0x7e20_7e20_7e20_7e20));
    assert!(!r.is_ascii_ptr(0x7e20_7e20_7e20_7e7f));
    assert!(!r.is_ascii_ptr(0x7e20_7e20_7e20_7e1f));
}
