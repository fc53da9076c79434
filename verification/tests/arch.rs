use binbloom::{Arch, BinbloomError};

#[test]
fn pointer_sizes() {
    assert_eq!(Arch::Bits32.pointer_size(), 4);
    assert_eq!(Arch::Bits64.pointer_size(), 8);
}

#[test]
fn max_values() {
    assert_eq!(Arch::Bits32.max_value(), 0xffff_ffff);
    assert_eq!(Arch::Bits64.max_value(), u64::MAX);
}

#[test]
fn parse_valid_and_invalid() {
    assert_eq!(Arch::parse("32").unwrap(), Arch::Bits32);
    assert_eq!(Arch::parse("64").unwrap(), Arch::Bits64);
    assert!(matches!(
        Arch::parse("128"),
        Err(BinbloomError::InvalidArch(_))
    ));
}

#[test]
fn default_is_32bit() {
    assert_eq!(Arch::default(), Arch::Bits32);
}

#[test]
fn parse_keeps_rejected_text() {
    match Arch::parse(" 32") {
        Err(BinbloomError::InvalidArch(s)) => assert_eq!(s, " 32"),
        _ => panic!("expected an invalid architecture"),
    }
}
