use binbloom::memregion::MEMORY_REGION_MIN_SIZE;
use binbloom::{MemoryMap, RegionType};

/// Normalised Shannon entropy of a chunk, in `[0, 1]`.
fn shannon(data: &[u8]) -> f64 {
    if data.is_empty() {
        return 0.0;
    }
    let mut counts = [0u32; 256];
    for &b in data {
        counts[b as usize] += 1;
    }
    let size = data.len() as f64;
    let mut h = 0.0;
    for &c in counts.iter() {
        if c > 0 {
            let p = c as f64 / size;
            h -= p * p.log2();
        }
    }
    h / 8.0
}

/// The default entropy bands.
fn classify(e: f64) -> Option<RegionType> {
    if (0.0..0.05).contains(&e) {
        Some(RegionType::UninitData)
    } else if (0.05..0.6).contains(&e) {
        Some(RegionType::InitData)
    } else if (0.6..0.9).contains(&e) {
        Some(RegionType::Code)
    } else {
        None
    }
}

fn analyze(data: &[u8]) -> MemoryMap {
    let classes: Vec<Option<RegionType>> = data
        .chunks_exact(MEMORY_REGION_MIN_SIZE)
        .map(|c| classify(shannon(c)))
        .collect();
    MemoryMap::from_chunk_classes(&classes)
}

fn code_chunk() -> Vec<u8> {
    (0..MEMORY_REGION_MIN_SIZE).map(|i| (i % 128) as u8).collect()
}

fn uninit_chunk() -> Vec<u8> {
    vec![0u8; MEMORY_REGION_MIN_SIZE]
}

fn data_chunk() -> Vec<u8> {
    (0..MEMORY_REGION_MIN_SIZE).map(|i| (i % 16) as u8).collect()
}

#[test]
fn merges_consecutive_same_type() {
    let mut data = uninit_chunk();
    data.extend(uninit_chunk());
    data.extend(code_chunk());
    let map = analyze(&data);
    assert_eq!(map.len(), 2);
    let regions: Vec<_> = map.iter().collect();
    assert_eq!(regions[0].region_type, RegionType::UninitData);
    assert_eq!(regions[0].size, 2 * MEMORY_REGION_MIN_SIZE as u64);
    assert_eq!(regions[1].region_type, RegionType::Code);
    assert_eq!(regions[1].offset, 2 * MEMORY_REGION_MIN_SIZE as u64);
}

#[test]
fn get_type_locates_offset() {
    let mut data = data_chunk();
    data.extend(code_chunk());
    let map = analyze(&data);
    assert_eq!(map.get_type(0), RegionType::InitData);
    assert_eq!(map.get_type(MEMORY_REGION_MIN_SIZE as u64), RegionType::Code);
    assert_eq!(
        map.get_type(10 * MEMORY_REGION_MIN_SIZE as u64),
        RegionType::Unknown
    );
}

#[test]
fn max_code_addr_is_region_end() {
    let mut data = data_chunk();
    data.extend(code_chunk());
    data.extend(code_chunk());
    let map = analyze(&data);
    assert_eq!(map.max_code_addr(), 3 * MEMORY_REGION_MIN_SIZE as u64);
}

#[test]
fn trailing_partial_chunk_ignored() {
    // 1 full code chunk + a partial chunk that floor-division drops.
    let mut data = code_chunk();
    data.extend(vec![0u8; 100]);
    let map = analyze(&data);
    assert_eq!(map.len(), 1);
    assert_eq!(map.iter().next().unwrap().size, MEMORY_REGION_MIN_SIZE as u64);
}

#[test]
fn empty_when_too_small() {
    let map = analyze(&[0u8; 10]);
    assert!(map.is_empty());
    assert_eq!(map.get_type(0), RegionType::Unknown);
}

#[test]
fn unclassified_chunks_neither_end_nor_extend() {
    let code = Some(RegionType::Code);
    let data = Some(RegionType::InitData);
    let map = MemoryMap::from_chunk_classes(&[code, None, code, data, None]);
    let regions: Vec<(u64, u64, RegionType)> =
        map.iter().map(|r| (r.offset, r.size, r.region_type)).collect();
    assert_eq!(
        regions,
        vec![(0, 2048, RegionType::Code), (3072, 1024, RegionType::InitData)]
    );
    // Offsets inside the skipped chunk still fall in the code region.
    assert_eq!(map.get_type(1500), RegionType::Code);
    assert_eq!(map.get_type(2500), RegionType::Unknown);
    assert_eq!(map.max_code_addr(), 2048);
    assert!(MemoryMap::new().is_empty());
}
