use binbloom::symbols::SymbolFile;
use binbloom::{PoiList, PoiType};

#[test]
fn parses_basic_lines() {
    let text = "0x08001000 reset_handler\n0x08001234 main\n";
    let mut list = PoiList::new();
    let n = SymbolFile::parse_into(text, &mut list);
    assert_eq!(n, 2);
    let offsets: Vec<u64> = list.iter().map(|p| p.offset).collect();
    assert_eq!(offsets, vec![0x0800_1000, 0x0800_1234]);
    assert!(list.iter().all(|p| p.poi_type == PoiType::Function));
}

#[test]
fn dedupes_repeated_addresses() {
    let text = "0x1000 a\n0x1000 b\n";
    let mut list = PoiList::new();
    assert_eq!(SymbolFile::parse_into(text, &mut list), 1);
    assert_eq!(list.count(), 1);
}

#[test]
fn skips_lines_without_name() {
    // No trailing name -> ignored.
    let text = "0x2000\n0x3000 named\n";
    let mut list = PoiList::new();
    assert_eq!(SymbolFile::parse_into(text, &mut list), 1);
    assert_eq!(list.iter().next().unwrap().offset, 0x3000);
}

#[test]
fn skips_non_hex_and_blank_lines() {
    let text = "\n# a comment\nnot an address here\n0xdeadbeef func\n";
    let mut list = PoiList::new();
    assert_eq!(SymbolFile::parse_into(text, &mut list), 1);
    assert_eq!(list.iter().next().unwrap().offset, 0xdead_beef);
}

#[test]
fn tolerates_leading_garbage_before_0x() {
    let text = "  junk 0x40 sym\n";
    let mut list = PoiList::new();
    assert_eq!(SymbolFile::parse_into(text, &mut list), 1);
    assert_eq!(list.iter().next().unwrap().offset, 0x40);
}

#[test]
fn only_newline_terminated_lines_count() {
    let mut list = PoiList::new();
    assert_eq!(SymbolFile::parse_into("0x10 a\r\n0x20 b", &mut list), 1);
    assert_eq!(list.count(), 1);
    assert_eq!(list.iter().next().unwrap().offset, 0x10);
}

#[test]
fn symbol_lines_edge_cases() {
    let mut list = PoiList::new();
    // Upper-case prefix, tab separator, optional plus sign, and an address
    // too large for 64 bits.
    let text = "0XAB\tname\n0x+cd f\n0x1ffffffffffffffff big\n0x zz\n";
    assert_eq!(SymbolFile::parse_into(text, &mut list), 2);
    let offsets: Vec<u64> = list.iter().map(|p| p.offset).collect();
    assert_eq!(offsets, vec![0xab, 0xcd]);
    // An existing POI at an address keeps the symbol out.
    assert_eq!(SymbolFile::parse_into("0xab again\n", &mut list), 0);
}
