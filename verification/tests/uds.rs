use binbloom::{Arch, Poi, PoiType, UdsFinder, UdsResult};

#[test]
fn valid_rids_match_spec() {
    for v in [
        0x10, 0x11, 0x14, 0x19, 0x22, 0x23, 0x24, 0x27, 0x28, 0x29, 0x2A, 0x2C, 0x2E, 0x2F, 0x31,
        0x34, 0x35, 0x36, 0x37, 0x38, 0x3E, 0x83, 0x84, 0x85, 0x86, 0x87,
    ] {
        assert!(UdsFinder::is_valid_uds_rid(v), "{v:#x} should be valid");
    }
    for v in [0x00u8, 0x01, 0x12, 0x20, 0x39, 0x80, 0x88, 0xff] {
        assert!(!UdsFinder::is_valid_uds_rid(v), "{v:#x} should be invalid");
    }
}

#[test]
fn structure_declaration_renders_members() {
    let sig = vec![
        PoiType::FunctionPointer as i32,
        PoiType::StringPointer as i32,
        -1,
    ];
    let result = UdsResult {
        location: 0,
        rid_count: 3,
        structure: Poi {
            offset: 0,
            count: 5,
            signature: Some(sig),
            nb_members: 3,
            poi_type: PoiType::StructurePointer,
        },
        arch: Arch::Bits32,
    };
    let decl = result.structure_declaration();
    assert!(decl.contains("code *p_field_0;"));
    assert!(decl.contains("char *psz_field_1;"));
    assert!(decl.contains("uint32_t field_2;"));
}

#[test]
fn structure_declaration_exact_text() {
    let sig: Vec<i32> = vec![
        PoiType::PointerPointer as i32,
        PoiType::DataPointer as i32,
        PoiType::UninitDataPointer as i32,
        PoiType::Unknown as i32,
        PoiType::GenericPointer as i32,
        PoiType::String as i32,
        PoiType::NullPtrOrValue as i32,
        PoiType::StructurePointer as i32,
        PoiType::FunctionPointer as i32,
        PoiType::StringPointer as i32,
        -1,
        PoiType::Array as i32,
    ];
    let result = UdsResult {
        location: 0,
        rid_count: 3,
        structure: Poi {
            offset: 0,
            count: 5,
            signature: Some(sig),
            nb_members: 12,
            poi_type: PoiType::StructurePointer,
        },
        arch: Arch::Bits64,
    };
    assert_eq!(
        result.structure_declaration(),
        "struct {\n\tvoid *p_field_0;\n\tdata *p_field_1;\n\tvar *p_field_2;\n\tuint64_t dw_3;\n\
         \tvoid *p_field_4;\n\tchar *psz_field_5;\n\tuint64_t dw_6;\n\tvoid *p_field_7;\n\
         \tcode *p_field_8;\n\tchar *psz_field_9;\n\tuint64_t field_10;\n\tuint64_t dw_11;\n}\n"
    );
}

#[test]
fn structure_declaration_limits_and_missing_signature() {
    let mut poi = Poi {
        offset: 0,
        count: 5,
        signature: None,
        nb_members: 2,
        poi_type: PoiType::StructurePointer,
    };
    let r = UdsResult { location: 0, rid_count: 1, structure: poi.clone(), arch: Arch::Bits32 };
    assert_eq!(r.structure_declaration(), "struct {\n}\n");
    poi.signature = Some(vec![-1, -1, -1]);
    let r = UdsResult { location: 0, rid_count: 1, structure: poi, arch: Arch::Bits32 };
    assert_eq!(
        r.structure_declaration(),
        "struct {\n\tuint32_t field_0;\n\tuint32_t field_1;\n}\n"
    );
}
