use binbloom::firmware::DEFAULT_ALIGNMENT;
use binbloom::{Arch, BinbloomError, Endianness, Firmware, LogLevel, Logger};

#[test]
fn too_small_file_rejected() {
    let err = Firmware::from_bytes(vec![0u8; 3], Arch::Bits32);
    assert!(matches!(err, Err(BinbloomError::FileTooSmall { .. })));
}

#[test]
fn forced_endianness_used() {
    let fw = Firmware::from_bytes(vec![0u8; 64], Arch::Bits32)
        .unwrap()
        .with_endianness(Endianness::Big);
    assert_eq!(fw.resolve_endianness(), Endianness::Big);
}

#[test]
fn too_small_reports_sizes() {
    match Firmware::from_bytes(vec![0u8; 7], Arch::Bits64) {
        Err(BinbloomError::FileTooSmall { required, actual }) => {
            assert_eq!(required, 8);
            assert_eq!(actual, 7);
        }
        _ => panic!("expected a size error"),
    }
    let fw = Firmware::from_bytes(vec![0u8; 8], Arch::Bits64).unwrap();
    assert_eq!(fw.len(), 8);
    assert!(!fw.is_empty());
    assert_eq!(fw.arch(), Arch::Bits64);
}

#[test]
fn builders_keep_the_image() {
    let fw = Firmware::from_bytes(vec![1u8; 16], Arch::Bits32)
        .unwrap()
        .with_alignment(0x100)
        .with_deep(true)
        .with_threads(0)
        .with_pointer_alignment(true)
        .with_logger(Logger::new(LogLevel::Debug));
    assert_eq!(fw.content(), vec![1u8; 16].as_slice());
    assert_eq!(fw.arch(), Arch::Bits32);
    assert_eq!(DEFAULT_ALIGNMENT, 0x1000);
    // No endianness forced: detected from the content.
    assert_eq!(fw.resolve_endianness(), Endianness::Little);
}
