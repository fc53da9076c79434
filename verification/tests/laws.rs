//! Concrete instances of the library's laws.

use binbloom::symbols::SymbolFile;
use binbloom::{
    Arch, BaseAddressFinder, Endianness, EndiannessDetector, MemoryMap, Poi, PoiList, PoiType,
    RegionType,
};

#[test]
fn step_between_words_is_symmetric() {
    let values = [0u64, 1, 0x1000, 0x8000_0000, 0xffff_ffff, 0x1_0000_0005, u64::MAX];
    for &a in &values {
        for &b in &values {
            assert_eq!(
                BaseAddressFinder::value_delta_abs(a, b),
                BaseAddressFinder::value_delta_abs(b, a)
            );
        }
    }
}

#[test]
fn sorted_insertion_stays_sorted_and_unique() {
    let mut list = PoiList::new();
    for off in [5u64, 3, 9, 3, 1, 9, 7, 0, 5] {
        list.add_unique_sorted(&Poi::new(off, 1, PoiType::GenericPointer));
    }
    let offsets: Vec<u64> = list.iter().map(|p| p.offset).collect();
    assert_eq!(offsets, vec![0, 1, 3, 5, 7, 9]);
}

#[test]
fn unique_additions_never_repeat_offsets() {
    let mut list = PoiList::new();
    for off in [4u64, 2, 4, 8, 2, 1] {
        list.add_unique(off, 1, PoiType::Function);
    }
    let offsets: Vec<u64> = list.iter().map(|p| p.offset).collect();
    assert_eq!(offsets, vec![4, 2, 8, 1]);
}

#[test]
fn symbol_files_never_repeat_addresses() {
    let mut list = PoiList::new();
    let added = SymbolFile::parse_into("0x10 a\n0x20 b\n0x10 c\n0x20 d\n0x30 e\n", &mut list);
    assert_eq!(added, 3);
    let offsets: Vec<u64> = list.iter().map(|p| p.offset).collect();
    assert_eq!(offsets, vec![0x10, 0x20, 0x30]);
}

#[test]
fn neighbouring_regions_differ_in_kind() {
    let c = Some(RegionType::Code);
    let d = Some(RegionType::InitData);
    let u = Some(RegionType::UninitData);
    let map = MemoryMap::from_chunk_classes(&[c, c, None, c, d, d, u, None, u, c]);
    let kinds: Vec<RegionType> = map.iter().map(|r| r.region_type).collect();
    assert_eq!(
        kinds,
        vec![RegionType::Code, RegionType::InitData, RegionType::UninitData, RegionType::Code]
    );
    for w in kinds.windows(2) {
        assert_ne!(w[0], w[1]);
    }
}

#[test]
fn detection_always_settles() {
    for arch in [Arch::Bits32, Arch::Bits64] {
        let d = EndiannessDetector::new(arch);
        for data in [vec![], vec![0u8; 3], vec![0xffu8; 100], (0..=255u8).collect::<Vec<u8>>()] {
            let e = d.detect(&data);
            assert!(e == Endianness::Little || e == Endianness::Big);
        }
    }
}
