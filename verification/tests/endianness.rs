use binbloom::{BinbloomError, Endianness};

#[test]
fn parse_case_insensitive() {
    assert_eq!(Endianness::parse("le").unwrap(), Endianness::Little);
    assert_eq!(Endianness::parse("LE").unwrap(), Endianness::Little);
    assert_eq!(Endianness::parse("be").unwrap(), Endianness::Big);
    assert_eq!(Endianness::parse("Be").unwrap(), Endianness::Big);
}

#[test]
fn parse_invalid() {
    assert!(matches!(
        Endianness::parse("middle"),
        Err(BinbloomError::InvalidEndianness(_))
    ));
}

#[test]
fn labels() {
    assert_eq!(Endianness::Little.label(), "LE");
    assert_eq!(Endianness::Big.label(), "BE");
}

#[test]
fn default_is_unknown() {
    assert_eq!(Endianness::default(), Endianness::Unknown);
}

#[test]
fn parse_invalid_carries_lowered_text() {
    match Endianness::parse("MiDdLe") {
        Err(BinbloomError::InvalidEndianness(s)) => assert_eq!(s, "middle"),
        _ => panic!("expected an invalid endianness"),
    }
    assert_eq!(Endianness::Unknown.label(), "unknown");
}
