use binbloom::cli::{Cli, SettingsError};
use binbloom::{Arch, Endianness, LogLevel};

fn cli(arch: &str, endian: Option<&str>, align: Option<&str>, verbose: u8) -> Cli {
    Cli {
        arch: arch.to_string(),
        base: None,
        endian: endian.map(|s| s.to_string()),
        align: align.map(|s| s.to_string()),
        deep: false,
        functions: None,
        threads: 1,
        ptr_aligned: false,
        verbose,
        firmware: "fw.bin".to_string(),
    }
}

#[test]
fn hex_is_fixed_width() {
    assert_eq!(Cli::hex(0x6000_0000, Arch::Bits32), "0x60000000");
    assert_eq!(Cli::hex(0x1, Arch::Bits32), "0x00000001");
    // Only the low 32 bits on a 32-bit architecture.
    assert_eq!(Cli::hex(0x1_2345_6789, Arch::Bits32), "0x23456789");
    assert_eq!(Cli::hex(0xdead_beef, Arch::Bits64), "0x00000000deadbeef");
    assert_eq!(Cli::hex(u64::MAX, Arch::Bits64), "0xffffffffffffffff");
}

#[test]
fn parse_number_hex_and_decimal() {
    assert_eq!(Cli::parse_number("0x1000"), Ok(0x1000));
    assert_eq!(Cli::parse_number("0X1F"), Ok(0x1f));
    assert_eq!(Cli::parse_number("  4096\n"), Ok(4096));
    assert_eq!(Cli::parse_number("+12"), Ok(12));
    assert_eq!(Cli::parse_number("18446744073709551615"), Ok(u64::MAX));
    assert_eq!(Cli::parse_number("18446744073709551616"), Err(()));
    assert_eq!(Cli::parse_number("0x"), Err(()));
    assert_eq!(Cli::parse_number("12a"), Err(()));
    assert_eq!(Cli::parse_number(""), Err(()));
    assert_eq!(Cli::parse_number("-1"), Err(()));
    assert_eq!(Cli::parse_number("0x-1"), Err(()));
}

#[test]
fn settings_from_command_line() {
    let s = cli("64", Some("BE"), Some("0x100"), 1).settings().ok().unwrap();
    assert_eq!(s.arch, Arch::Bits64);
    assert_eq!(s.endian, Endianness::Big);
    assert_eq!(s.alignment, 0x100);
    assert_eq!(s.level, LogLevel::Info);
    let d = cli("32", None, None, 0).settings().ok().unwrap();
    assert_eq!(d.endian, Endianness::Unknown);
    assert_eq!(d.alignment, 0x1000);
    assert_eq!(d.level, LogLevel::Warning);
}

#[test]
fn settings_errors_in_order() {
    assert!(matches!(cli("16", Some("xx"), Some("zz"), 0).settings(), Err(SettingsError::Invalid(_))));
    assert!(matches!(cli("32", Some("xx"), Some("zz"), 0).settings(), Err(SettingsError::Invalid(_))));
    assert!(matches!(cli("32", Some("le"), Some("zz"), 0).settings(), Err(SettingsError::Alignment)));
}
