use binbloom::{Arch, Poi, PoiList, PoiType};

#[test]
fn type_ordering_matches_c() {
    // "Is any kind of pointer" == `type >= GenericPointer` in binbloom.
    assert!(PoiType::FunctionPointer >= PoiType::GenericPointer);
    assert!(PoiType::String < PoiType::GenericPointer);
    assert_eq!(PoiType::NullPtrOrValue as i32, 14);
    assert_eq!(PoiType::String.as_signature(), 1);
}

#[test]
fn add_and_count() {
    let mut list = PoiList::new();
    list.add(0x10, 8, PoiType::String);
    list.add(0x20, 4, PoiType::Array);
    assert_eq!(list.count(), 2);
    let offsets: Vec<u64> = list.iter().map(|p| p.offset).collect();
    assert_eq!(offsets, vec![0x10, 0x20]);
}

#[test]
fn add_unique_dedupes_by_offset() {
    let mut list = PoiList::new();
    assert!(list.add_unique(0x10, 1, PoiType::Function));
    assert!(!list.add_unique(0x10, 1, PoiType::Function));
    assert_eq!(list.count(), 1);
}

#[test]
fn add_unique_sorted_keeps_order() {
    let mut list = PoiList::new();
    for off in [0x30u64, 0x10, 0x20, 0x10] {
        list.add_unique_sorted(&Poi::new(off, 1, PoiType::GenericPointer));
    }
    let offsets: Vec<u64> = list.iter().map(|p| p.offset).collect();
    assert_eq!(offsets, vec![0x10, 0x20, 0x30]);
}

#[test]
fn structure_array_stores_signature() {
    let mut list = PoiList::new();
    let sig = [PoiType::FunctionPointer.as_signature(), -1, 2];
    assert!(list.add_structure_array(0x100, 5, 3, &sig));
    assert!(!list.add_structure_array(0x100, 9, 3, &sig));
    let poi = list.iter().next().unwrap();
    assert_eq!(poi.poi_type, PoiType::StructurePointer);
    assert_eq!(poi.nb_members, 3);
    assert_eq!(poi.signature.as_deref(), Some(sig.as_slice()));
}

#[test]
fn index_strings_finds_runs() {
    // "HELLO!!" (7) is too short for min 8; "binbloom_rocks" (14) qualifies.
    let mut data = b"\x00HELLO!!\x00".to_vec();
    data.extend_from_slice(b"binbloom_rocks\x00");
    let list = PoiList::index_strings(&data, 8);
    assert_eq!(list.count(), 1);
    let poi = list.iter().next().unwrap();
    assert_eq!(poi.poi_type, PoiType::String);
    assert_eq!(poi.offset, 9);
    assert_eq!(poi.count, 14);
}

#[test]
fn index_strings_drops_unterminated_trailing_run() {
    // No terminating non-printable byte -> not recorded (matches C).
    let data = b"abcdefghij".to_vec();
    let list = PoiList::index_strings(&data, 8);
    assert_eq!(list.count(), 0);
}

#[test]
fn is_in_string_and_array() {
    let mut list = PoiList::new();
    list.add(0x10, 8, PoiType::String);
    list.add(0x40, 4, PoiType::Array);
    let base = 0x8000_0000;
    // String matches only its exact start.
    assert!(list.is_in(Arch::Bits32, base + 0x10, base));
    assert!(!list.is_in(Arch::Bits32, base + 0x11, base));
    // Array matches its whole span [0x40, 0x40 + 4*4).
    assert!(list.is_in(Arch::Bits32, base + 0x40, base));
    assert!(list.is_in(Arch::Bits32, base + 0x4f, base));
    assert!(!list.is_in(Arch::Bits32, base + 0x50, base));
}

#[test]
fn retyping_and_copies() {
    let mut list = PoiList::new();
    assert!(list.is_empty());
    list.add(0x10, 1, PoiType::GenericPointer);
    list.set_type(0, PoiType::StringPointer);
    assert_eq!(list.get(0).poi_type, PoiType::StringPointer);
    assert!(PoiType::StringPointer.is_pointer());
    assert!(!PoiType::Array.is_pointer());
    let sig = [1, 2];
    assert!(list.add_structure_array(0x20, 4, 2, &sig));
    let copy = list.get(1).duplicate();
    assert_eq!(copy.offset, 0x20);
    assert_eq!(copy.signature.as_deref(), Some(sig.as_slice()));
    assert!(PoiList::is_print(b' '));
    assert!(PoiList::is_print(b'~'));
    assert!(!PoiList::is_print(0x7f));
}

#[test]
fn append_strings_extends_a_list() {
    let mut list = PoiList::new();
    list.add(0x0, 3, PoiType::Array);
    list.append_strings(b"\x01printable text\x00short\x00", 8);
    let kinds: Vec<(u64, i32, PoiType)> = list.iter().map(|p| (p.offset, p.count, p.poi_type)).collect();
    assert_eq!(kinds, vec![(0, 3, PoiType::Array), (1, 14, PoiType::String)]);
}
