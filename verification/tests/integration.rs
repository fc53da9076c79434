//! End-to-end tests over synthetic firmware images exercising the whole
//! pipeline through the public library API.

use binbloom::memregion::MEMORY_REGION_MIN_SIZE;
use binbloom::{
    Arch, Endianness, Firmware, FoundReason, Logger, MemoryMap, RegionType, UdsFinder,
};

/// Normalised Shannon entropy of a chunk, in `[0, 1]`.
fn shannon(data: &[u8]) -> f64 {
    if data.is_empty() {
        return 0.0;
    }
    let mut counts = [0u32; 256];
    for &b in data {
        counts[b as usize] += 1;
    }
    let size = data.len() as f64;
    let mut h = 0.0;
    for &c in counts.iter() {
        if c > 0 {
            let p = c as f64 / size;
            h -= p * p.log2();
        }
    }
    h / 8.0
}

/// The memory map of an image with the default entropy bands.
fn memory_map(data: &[u8]) -> MemoryMap {
    let classes: Vec<Option<RegionType>> = data
        .chunks_exact(MEMORY_REGION_MIN_SIZE)
        .map(|c| {
            let e = shannon(c);
            if (0.0..0.05).contains(&e) {
                Some(RegionType::UninitData)
            } else if (0.05..0.6).contains(&e) {
                Some(RegionType::InitData)
            } else if (0.6..0.9).contains(&e) {
                Some(RegionType::Code)
            } else {
                None
            }
        })
        .collect();
    MemoryMap::from_chunk_classes(&classes)
}

/// Build a 32-bit little-endian firmware whose base address is `0x60000000`:
/// twelve NUL-terminated strings, preceded by an array of twelve pointers that
/// each point at one of those strings (base + string offset).
fn base_address_firmware() -> (Vec<u8>, u64) {
    let base: u32 = 0x6000_0000;
    let n = 12usize;
    let str_start = 0x100usize;
    let stride = 0x10usize;

    let mut data = vec![0u8; str_start + n * stride];

    // Pointer array at offset 0: P_i = base + (str_start + i*stride).
    for i in 0..n {
        let target = (str_start + i * stride) as u32;
        let ptr = base + target;
        let p = i * 4;
        data[p..p + 4].copy_from_slice(&ptr.to_le_bytes());
    }

    // Strings, each at its referenced offset.
    for i in 0..n {
        let off = str_start + i * stride;
        let s = format!("string_{i:02}"); // 9 printable chars
        data[off..off + s.len()].copy_from_slice(s.as_bytes());
    }

    (data, base as u64)
}

/// Build a 32-bit firmware with an array of two-word structures whose second
/// word's low byte cycles through distinct valid UDS request IDs, with base
/// `0x20000000`. The first word of each structure points into a code region.
///
/// A trailing 13th structure carries an *invalid* RID byte: a RID run is only
/// recorded when it is terminated by a non-RID/repeat byte.
fn uds_firmware() -> (Vec<u8>, u64) {
    let base: u32 = 0x2000_0000;
    let total = 3072usize;
    let mut data = vec![0u8; total];

    // Code region [1024, 2048): 128 distinct non-printable bytes -> entropy
    // ~0.875 (code band) and no accidental strings.
    for i in 0..1024 {
        data[1024 + i] = 0x80u8.wrapping_add((i % 128) as u8);
    }

    // 12 valid RIDs followed by a terminating invalid one (0x00).
    let rids: [u8; 13] = [
        0x10, 0x11, 0x14, 0x19, 0x22, 0x23, 0x24, 0x27, 0x28, 0x29, 0x2A, 0x2C, 0x00,
    ];
    for (k, &rid) in rids.iter().enumerate() {
        let off = k * 8; // [ptr:4][rid:1][pad:3]
        let code_target = 1024 + (k * 4) as u32; // inside the code region
        let ptr = base + code_target;
        data[off..off + 4].copy_from_slice(&ptr.to_le_bytes());
        data[off + 4] = rid;
    }

    (data, base as u64)
}

#[test]
fn finds_base_address_via_valid_array() {
    let (data, base) = base_address_firmware();
    let memory = memory_map(&data);
    let fw = Firmware::from_bytes(data, Arch::Bits32)
        .unwrap()
        .with_endianness(Endianness::Little);

    let analysis = fw.find_base_address(&memory, None).expect("analysis succeeds");
    assert_eq!(analysis.endianness, Endianness::Little);
    assert_eq!(analysis.result.base_address, base);
    assert!(analysis.result.confident);
    assert_eq!(analysis.result.reason, FoundReason::ValidArray);
}

#[test]
fn base_address_is_stable_across_thread_counts() {
    let (data, base) = base_address_firmware();
    let memory = memory_map(&data);
    for threads in [1usize, 2, 4, 8] {
        let fw = Firmware::from_bytes(data.clone(), Arch::Bits32)
            .unwrap()
            .with_endianness(Endianness::Little)
            .with_threads(threads);
        let analysis = fw.find_base_address(&memory, None).unwrap();
        assert_eq!(
            analysis.result.base_address, base,
            "thread count {threads} changed the result"
        );
    }
}

#[test]
fn detects_endianness_little_and_big() {
    // Many 4-aligned pointers sharing high bytes 0x0800 -> strong endian signal.
    let mut le = Vec::new();
    let mut be = Vec::new();
    for i in 0..4000u32 {
        let ptr = 0x0800_0000 + ((i * 4) & 0xffff);
        le.extend_from_slice(&ptr.to_le_bytes());
        be.extend_from_slice(&ptr.to_be_bytes());
    }

    let fw_le = Firmware::from_bytes(le, Arch::Bits32).unwrap();
    assert_eq!(fw_le.resolve_endianness(), Endianness::Little);

    let fw_be = Firmware::from_bytes(be, Arch::Bits32).unwrap();
    assert_eq!(fw_be.resolve_endianness(), Endianness::Big);
}

#[test]
fn finds_uds_database() {
    let (data, base) = uds_firmware();
    let memory = memory_map(&data);
    let fw = Firmware::from_bytes(data, Arch::Bits32)
        .unwrap()
        .with_endianness(Endianness::Little);

    let uds = fw.find_uds(base, &memory, None).expect("a UDS database is found");
    assert_eq!(uds.rid_count, 12);
    assert_eq!(uds.location, base + 4);
    assert_eq!(uds.structure.nb_members, 2);

    let decl = uds.structure_declaration();
    assert!(decl.starts_with("struct {"));
    assert!(decl.contains("code *p_field_0;")); // member 0 points to code
}

#[test]
fn rejects_too_small_image() {
    let err = Firmware::from_bytes(vec![0u8; 2], Arch::Bits64);
    assert!(err.is_err());
}

#[test]
fn base_address_report_details() {
    let (data, base) = base_address_firmware();
    let memory = memory_map(&data);
    let fw = Firmware::from_bytes(data, Arch::Bits32)
        .unwrap()
        .with_endianness(Endianness::Little)
        .with_deep(true);
    let analysis = fw.find_base_address(&memory, None).unwrap();
    let result = &analysis.result;
    assert_eq!(result.base_address, base);
    assert_eq!(result.more_exclude, Some(base));
    assert!(result.num_base_addresses_tested >= 1);
    // Ranked by non-increasing score, the winner among them.
    for w in result.candidates.windows(2) {
        assert!(w[0].score >= w[1].score);
    }
    assert!(result.candidates.iter().any(|c| c.base_address == base && c.has_valid_array));
    assert!(result.more_candidates().iter().all(|c| c.base_address != base && c.score > 0));
}

#[test]
fn seeded_search_uses_symbols() {
    let (data, base) = base_address_firmware();
    let memory = memory_map(&data);
    let fw = Firmware::from_bytes(data, Arch::Bits32)
        .unwrap()
        .with_endianness(Endianness::Little);
    let mut symbols = binbloom::PoiList::new();
    binbloom::symbols::SymbolFile::parse_into("0x100 first_string\n", &mut symbols);
    let analysis = fw.find_base_address(&memory, Some(&symbols)).unwrap();
    assert_eq!(analysis.result.base_address, base);
}

#[test]
fn no_points_of_interest_is_an_error() {
    // Zeros only: no string, no array, no function.
    let data = vec![0u8; 2048];
    let memory = memory_map(&data);
    let fw = Firmware::from_bytes(data, Arch::Bits32)
        .unwrap()
        .with_endianness(Endianness::Little);
    assert!(matches!(
        fw.find_base_address(&memory, None),
        Err(binbloom::BinbloomError::NoPointsOfInterest)
    ));
}

#[test]
fn uds_search_without_structures_finds_nothing() {
    let data = vec![0u8; 2048];
    let memory = memory_map(&data);
    let fw = Firmware::from_bytes(data, Arch::Bits32)
        .unwrap()
        .with_endianness(Endianness::Little);
    assert!(fw.find_uds(0x1000, &memory, None).is_none());
}

#[test]
fn shortlist_refine_conclude_matches_the_search() {
    let (data, base) = base_address_firmware();
    let memory = memory_map(&data);
    let fw = Firmware::from_bytes(data, Arch::Bits32)
        .unwrap()
        .with_endianness(Endianness::Little);
    let whole = fw.find_base_address(&memory, None).unwrap().result;
    let endian = fw.resolve_endianness();
    let pois = fw.search_points(endian, &memory, None);
    let finder = fw.make_finder(endian, &memory, None);
    let shortlist = finder.shortlist(&pois).unwrap();
    // Refine in reverse, then restore the order: each score stands alone.
    let mut scored: Vec<_> = shortlist.kept.iter().rev().map(|&c| finder.refine_one(c, &pois)).collect();
    scored.reverse();
    let parts = binbloom::BaseAddressFinder::conclude(&shortlist, scored);
    assert_eq!(parts.base_address, base);
    assert_eq!(parts.base_address, whole.base_address);
    assert_eq!(parts.reason, whole.reason);
    assert_eq!(parts.candidates.len(), whole.candidates.len());
    assert_eq!(parts.num_base_addresses_tested, whole.num_base_addresses_tested);
}

#[test]
fn checked_uds_search_agrees_with_plain_search() {
    let (data, base) = uds_firmware();
    let memory = memory_map(&data);
    let fw = Firmware::from_bytes(data, Arch::Bits32)
        .unwrap()
        .with_endianness(Endianness::Little);
    let finder = UdsFinder::new(
        fw.content(),
        fw.arch(),
        fw.resolve_endianness(),
        &memory,
        Logger::default(),
        None,
    );
    let checked = finder.find_checked(base).expect("the location fits in 64 bits");
    let uds = checked.expect("a UDS database is found");
    assert_eq!(uds.location, base + 4);
    assert_eq!(uds.rid_count, 12);
    // Near the top of the address space no 32-bit word points into the
    // image: the search finds nothing, and nothing overflows.
    assert!(matches!(finder.find_checked(u64::MAX - 7), Some(None)));
}

#[test]
fn cloned_firmware_gives_the_same_uds_result() {
    let (data, base) = uds_firmware();
    let memory = memory_map(&data);
    let fw = Firmware::from_bytes(data, Arch::Bits32)
        .unwrap()
        .with_endianness(Endianness::Little);
    let other = fw.clone().with_threads(4);
    let a = fw.find_uds(base, &memory, None).unwrap();
    let b = other.find_uds(base, &memory, None).unwrap();
    assert_eq!(a.location, b.location);
    assert_eq!(a.rid_count, b.rid_count);
    assert_eq!(other.len(), fw.len());
}
