use binbloom::{
    Arch, BaseAddressFinder, BinbloomError, Endianness, FoundReason, Logger, MemoryMap, Poi,
    PoiList, PoiType, RegionType, ScoredCandidate,
};
use binbloom::base_address::BaseAddressResult;

fn finder<'a>(
    content: &'a [u8],
    memory: &'a MemoryMap,
    arch: Arch,
    endian: Endianness,
) -> BaseAddressFinder<'a> {
    BaseAddressFinder::new(
        content,
        arch,
        endian,
        memory,
        0x1000,
        false,
        1,
        false,
        None,
        Logger::default(),
    )
}

#[test]
fn value_delta_truncates_to_32_bits() {
    // Difference of exactly 0x1000 is not "> 0x1000".
    assert_eq!(BaseAddressFinder::value_delta_abs(0x1000, 0), 0x1000);
    assert_eq!(BaseAddressFinder::value_delta_abs(0, 0x1000), 0x1000);
    // Large 64-bit-only difference wraps in the low 32 bits.
    assert_eq!(
        BaseAddressFinder::value_delta_abs(0x1_0000_0005, 0x1_0000_0000),
        5
    );
}

#[test]
fn index_value_arrays() {
    // 10 increasing 32-bit values, each +4 from the previous (< 0x1000),
    // then a far-away value to break the run (a run that reaches EOF is not
    // flushed).
    let mut data = vec![0u8; 4];
    for i in 0..10u32 {
        data.extend_from_slice(&(0x100 + i * 4).to_le_bytes());
    }
    data.extend_from_slice(&0x5000u32.to_le_bytes()); // > 0x1000 jump -> breaks the run
    data.extend_from_slice(&[0u8; 8]); // padding past the end

    let mem = MemoryMap::new();
    let f = finder(&data, &mem, Arch::Bits32, Endianness::Little);
    let list = f.index_poi(false);
    let arrays: Vec<&Poi> = list
        .iter()
        .filter(|p| p.poi_type == PoiType::Array)
        .collect();
    assert_eq!(arrays.len(), 1);
    assert_eq!(arrays[0].offset, 4);
}

#[test]
fn value_array_count_is_its_length_in_elements() {
    let mut data = vec![0u8; 4];
    for i in 0..10u32 {
        data.extend_from_slice(&(0x100 + i * 4).to_le_bytes());
    }
    data.extend_from_slice(&0x5000u32.to_le_bytes());
    data.extend_from_slice(&[0u8; 8]);
    let mem = MemoryMap::new();
    let f = finder(&data, &mem, Arch::Bits32, Endianness::Little);
    let list = f.index_poi(false);
    let arrays: Vec<&Poi> = list
        .iter()
        .filter(|p| p.poi_type == PoiType::Array)
        .collect();
    assert_eq!(arrays.len(), 1);
    assert_eq!(arrays[0].count, 10);

    // Nine elements are too few for an array.
    let mut short = vec![0u8; 4];
    for i in 0..9u32 {
        short.extend_from_slice(&(0x100 + i * 4).to_le_bytes());
    }
    short.extend_from_slice(&0x5000u32.to_le_bytes());
    short.extend_from_slice(&[0u8; 8]);
    let f = finder(&short, &mem, Arch::Bits32, Endianness::Little);
    let list = f.index_poi(false);
    assert!(list.iter().all(|p| p.poi_type != PoiType::Array));
}

#[test]
fn empty_poi_list_errors() {
    let data = vec![0u8; 64];
    let mem = MemoryMap::new();
    let f = finder(&data, &mem, Arch::Bits32, Endianness::Little);
    let empty = PoiList::new();
    assert!(matches!(
        f.compute_candidates(&empty),
        Err(BinbloomError::NoPointsOfInterest)
    ));
}

#[test]
fn value_delta_extremes() {
    // The smallest 32-bit integer stays itself.
    assert_eq!(BaseAddressFinder::value_delta_abs(0x8000_0000, 0), i32::MIN);
    assert_eq!(BaseAddressFinder::value_delta_abs(0, 0x8000_0000), i32::MIN);
    assert_eq!(BaseAddressFinder::value_delta_abs(5, 5), 0);
    assert_eq!(BaseAddressFinder::value_delta_abs(0, 1), 1);
}

#[test]
fn value_arrays_count_elements() {
    // Eleven close values make an array of eleven elements.
    let mut data = Vec::new();
    for i in 0..11u32 {
        data.extend_from_slice(&(0x2000 + i * 0x10).to_le_bytes());
    }
    data.extend_from_slice(&0x9000_0000u32.to_le_bytes());
    data.extend_from_slice(&[0u8; 4]);
    let mem = MemoryMap::new();
    let f = finder(&data, &mem, Arch::Bits32, Endianness::Little);
    let list = f.index_poi(false);
    let arrays: Vec<(u64, i32)> = list
        .iter()
        .filter(|p| p.poi_type == PoiType::Array)
        .map(|p| (p.offset, p.count))
        .collect();
    assert_eq!(arrays, vec![(0, 11)]);
}

#[test]
fn pointers_resolve_into_known_regions() {
    // A 1 KiB code region, then a word pointing into it for base 0x1000.
    let mut data = vec![0u8; 2048];
    data[1024..1028].copy_from_slice(&0x1010u32.to_le_bytes());
    data[1028..1032].copy_from_slice(&0x17f0u32.to_le_bytes());
    let mem = MemoryMap::from_chunk_classes(&[Some(RegionType::Code), Some(RegionType::InitData)]);
    let f = finder(&data, &mem, Arch::Bits32, Endianness::Little);
    let list = f.index_poi_pointers(0x1000);
    let found: Vec<(u64, PoiType)> = list.iter().map(|p| (p.offset, p.poi_type)).collect();
    assert_eq!(
        found,
        vec![(1024, PoiType::FunctionPointer), (1028, PoiType::GenericPointer)]
    );
}

#[test]
fn more_candidates_skip_excluded_and_zero() {
    let c = |a: u64, s: u64| ScoredCandidate {
        base_address: a,
        votes: 1,
        score: s,
        has_valid_array: false,
    };
    let result = BaseAddressResult {
        base_address: 0x100,
        confident: true,
        reason: FoundReason::BestMatchAgrees,
        num_base_addresses_tested: 4,
        candidates: vec![c(0x100, 9), c(0x200, 5), c(0x300, 0), c(0x400, 2)],
        more_exclude: Some(0x100),
    };
    let more: Vec<u64> = result.more_candidates().iter().map(|c| c.base_address).collect();
    assert_eq!(more, vec![0x200, 0x400]);
}

#[test]
fn functions_found_through_code_pointer_arrays() {
    // Code region [0, 1024); an array of ten code pointers sharing the high
    // bit 31 at offset 1024.
    let mut data = vec![0u8; 2048];
    for i in 0..10u32 {
        let p = 0x8000_0000 + 0x40 * i;
        let off = 1024 + 4 * i as usize;
        data[off..off + 4].copy_from_slice(&p.to_le_bytes());
    }
    let mem = MemoryMap::from_chunk_classes(&[Some(RegionType::Code), Some(RegionType::InitData)]);
    let f = finder(&data, &mem, Arch::Bits32, Endianness::Little);
    let mut list = PoiList::new();
    list.add(1024, 10, PoiType::Array);
    f.index_functions(&mut list);
    let functions: Vec<u64> = list
        .iter()
        .filter(|p| p.poi_type == PoiType::Function)
        .map(|p| p.offset)
        .collect();
    assert_eq!(functions, (0..10u64).map(|i| 0x40 * i).collect::<Vec<_>>());
}

#[test]
fn pointers_near_the_top_of_the_address_space() {
    // base + image length passes 2^64: a word just above base still points
    // into the image.
    let mut data = vec![0u8; 16];
    data[0..8].copy_from_slice(&(u64::MAX - 4).to_be_bytes());
    let mem = MemoryMap::from_chunk_classes(&[Some(RegionType::InitData)]);
    let f = finder(&data, &mem, Arch::Bits64, Endianness::Big);
    let list = f.index_poi_pointers(u64::MAX - 7);
    let found: Vec<(u64, PoiType)> = list.iter().map(|p| (p.offset, p.poi_type)).collect();
    assert_eq!(found, vec![(0, PoiType::GenericPointer)]);
}

#[test]
fn empty_arrays_are_never_read_during_refinement() {
    // An array POI without elements may sit anywhere: refinement reads no
    // word of it.
    let data = vec![0u8; 64];
    let mem = MemoryMap::new();
    let f = finder(&data, &mem, Arch::Bits32, Endianness::Little);
    let mut list = PoiList::new();
    list.add(u64::MAX, 0, PoiType::Array);
    list.add(0x10, 1, PoiType::String);
    let scored = f.refine_one((0x1000, 3), &list);
    assert_eq!(scored.base_address, 0x1000);
    assert_eq!(scored.votes, 3);
    assert!(!scored.has_valid_array);
}
