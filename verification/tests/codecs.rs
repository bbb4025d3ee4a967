use relink::obj::{
    Module, Relocation, RelocKind, Section, SectionKind, Symbol, SymbolBinding, SymbolKind,
};
use relink::elf::{decode_object, encode_object};
use relink::rel::{
    bytes_to_ops, decode_rel_stream, encode_rel_relocations, encode_rel_stream, ops_to_bytes,
    ImportTarget, RelEntry, RelError, OP_END,
};
use relink::rso::{build_export_table, decode_rso, encode_rso, name_hash};
use relink::wire::DecodeError;

fn sample_module() -> Module {
    let mut m = Module::new(7);
    m.version = 1;
    let code = Section {
        name: b".text".to_vec(),
        kind: SectionKind::Code,
        align: 4,
        address: 0x1000,
        data: vec![0, 0, 0, 0, 0x4E, 0x80, 0x00, 0x20],
    };
    let data = Section {
        name: b".data".to_vec(),
        kind: SectionKind::Data,
        align: 8,
        address: 0x2000,
        data: vec![1, 2, 3, 4, 5, 6, 7, 8],
    };
    m.add_section(code).unwrap();
    m.add_section(data).unwrap();
    m.add_symbol(Symbol {
        name: b"start".to_vec(),
        section: Some(0),
        offset: 0,
        size: 8,
        binding: SymbolBinding::Global,
        kind: SymbolKind::Function,
    })
    .unwrap();
    m.add_symbol(Symbol {
        name: b"table".to_vec(),
        section: Some(1),
        offset: 4,
        size: 4,
        binding: SymbolBinding::Local,
        kind: SymbolKind::Object,
    })
    .unwrap();
    m.add_relocation(Relocation {
        section: 0,
        offset: 0,
        kind: RelocKind::Abs32,
        symbol: 1,
        addend: 0,
    })
    .unwrap();
    m.entry = Some(0);
    m
}

#[test]
fn object_round_trip_is_byte_identical() {
    let m = sample_module();
    let bytes = encode_object(&m);
    let decoded = decode_object(&bytes).unwrap();
    let again = encode_object(&decoded);
    assert_eq!(bytes, again);
    assert_eq!(decoded.module_id, 7);
    assert_eq!(decoded.version, 1);
    assert_eq!(decoded.entry, Some(0));
    assert_eq!(decoded.sections.len(), 2);
    assert_eq!(decoded.sections[0].name, b".text".to_vec());
    assert_eq!(decoded.sections[1].address, 0x2000);
    assert_eq!(decoded.symbols.len(), 2);
    assert_eq!(decoded.symbols[0].name, b"start".to_vec());
    assert_eq!(decoded.relocations.len(), 1);
    assert_eq!(decoded.relocations[0].symbol, 1);
}

#[test]
fn object_decode_rejects_bad_magic() {
    let m = sample_module();
    let mut bytes = encode_object(&m);
    bytes[0] = 0xFF;
    assert!(matches!(decode_object(&bytes), Err(DecodeError::BadMagic { .. })));
}

#[test]
fn object_decode_rejects_truncated_buffer() {
    let m = sample_module();
    let mut bytes = encode_object(&m);
    bytes.truncate(bytes.len() - 1);
    assert!(matches!(decode_object(&bytes), Err(DecodeError::Truncated { .. })));
}

#[test]
fn object_decode_rejects_trailing_bytes() {
    let m = sample_module();
    let mut bytes = encode_object(&m);
    bytes.push(0);
    assert!(matches!(decode_object(&bytes), Err(DecodeError::Trailing { .. })));
}

#[test]
fn object_decode_rejects_unknown_section_kind() {
    let m = sample_module();
    let mut bytes = encode_object(&m);
    // The first section's kind word sits after the header and its name.
    let kind_at = 32 + 4 + 5 + 3;
    bytes[kind_at] = 9;
    assert!(matches!(decode_object(&bytes), Err(DecodeError::BadValue { .. })));
}

#[test]
fn name_hash_matches_reference_vectors() {
    assert_eq!(name_hash(&b"main".to_vec()), 0x0007_37FE);
    assert_eq!(name_hash(&b"".to_vec()), 0);
    assert_eq!(name_hash(&b"a".to_vec()), 0x61);
    assert_eq!(name_hash(&b"VeryLongSymbolNameForFolding123".to_vec()), 0x0995_1343);
}

#[test]
fn export_table_is_sorted_by_hash_and_skips_locals() {
    let m = sample_module();
    // start: global (exported); table: local (not exported)
    let t = build_export_table(&m);
    assert_eq!(t.len(), 1);
    assert_eq!(t[0].symbol, 0);
    assert_eq!(t[0].hash, name_hash(&b"start".to_vec()));

    let mut m2 = sample_module();
    m2.add_symbol(Symbol {
        name: b"zz_helper".to_vec(),
        section: Some(0),
        offset: 4,
        size: 4,
        binding: SymbolBinding::Weak,
        kind: SymbolKind::Function,
    })
    .unwrap();
    let t2 = build_export_table(&m2);
    assert_eq!(t2.len(), 2);
    assert!(t2[0].hash <= t2[1].hash);
}

#[test]
fn rso_link_header_rests_zeroed_and_garbage_is_tolerated() {
    let m = sample_module();
    let ex = build_export_table(&m);
    let bytes = encode_rso(&m, &ex);
    for k in 12..20 {
        assert_eq!(bytes[k], 0);
    }
    let mut dirty = bytes.clone();
    for k in 12..20 {
        dirty[k] = 0xAB;
    }
    let (dm, dex) = decode_rso(&dirty).unwrap();
    assert_eq!(dm.module_id, m.module_id);
    assert_eq!(dm.sections.len(), 2);
    assert_eq!(dm.symbols.len(), 2);
    assert_eq!(dex.len(), ex.len());
    let clean = encode_rso(&dm, &dex);
    assert_eq!(clean, bytes);
}

#[test]
fn rel_stream_round_trip_reproduces_opcodes() {
    let entries = vec![
        RelEntry {
            module: 2,
            section: 1,
            offset: 0x20000,
            kind: RelocKind::Abs32,
            target_section: 3,
            target_addend: 0x44,
        },
        RelEntry {
            module: 0,
            section: 1,
            offset: 8,
            kind: RelocKind::Lo16,
            target_section: 1,
            target_addend: 0x10,
        },
        RelEntry {
            module: 0,
            section: 1,
            offset: 4,
            kind: RelocKind::Hi16,
            target_section: 1,
            target_addend: 0x10,
        },
        RelEntry {
            module: 0,
            section: 2,
            offset: 12,
            kind: RelocKind::Rel24,
            target_section: 1,
            target_addend: 0,
        },
    ];
    let ops = encode_rel_stream(&entries);
    assert_eq!(ops.last().unwrap().op, OP_END);
    let replayed = decode_rel_stream(&ops).unwrap();
    assert_eq!(replayed.len(), entries.len());
    // Canonical order: module groups ascending, sections ascending, offsets
    // ascending: a monotone cursor for the loader.
    for w in replayed.windows(2) {
        let ka = (w[0].module as u128, w[0].section, w[0].offset);
        let kb = (w[1].module as u128, w[1].section, w[1].offset);
        assert!(ka <= kb);
    }
    // Re-encoding what a decode produced yields the same opcode sequence.
    let ops2 = encode_rel_stream(&replayed);
    assert_eq!(ops, ops2);
    // And the byte spelling round-trips exactly.
    let bytes = ops_to_bytes(&ops);
    let ops3 = bytes_to_ops(&bytes).unwrap();
    assert_eq!(ops, ops3);
}

#[test]
fn rel_gap_beyond_delta_range_uses_skips() {
    let entries = vec![
        RelEntry {
            module: 0,
            section: 0,
            offset: 0,
            kind: RelocKind::Abs32,
            target_section: 0,
            target_addend: 0,
        },
        RelEntry {
            module: 0,
            section: 0,
            offset: 0x2_0000,
            kind: RelocKind::Abs32,
            target_section: 0,
            target_addend: 4,
        },
    ];
    let ops = encode_rel_stream(&entries);
    assert!(ops.iter().any(|o| o.op == 0 && o.delta == 0xFFFF));
    let replayed = decode_rel_stream(&ops).unwrap();
    assert_eq!(replayed[1].offset, 0x2_0000);
}

#[test]
fn rel_encode_fails_on_undetermined_target_module() {
    let mut m = Module::new(3);
    m.add_section(Section {
        name: b".text".to_vec(),
        kind: SectionKind::Code,
        align: 4,
        address: 0,
        data: vec![0; 8],
    })
    .unwrap();
    m.add_symbol(Symbol {
        name: b"external_thing".to_vec(),
        section: None,
        offset: 0,
        size: 0,
        binding: SymbolBinding::Global,
        kind: SymbolKind::NoType,
    })
    .unwrap();
    m.add_relocation(Relocation {
        section: 0,
        offset: 0,
        kind: RelocKind::Abs32,
        symbol: 0,
        addend: 0,
    })
    .unwrap();
    // No export offers the name: the encode must fail naming relocation 0
    // and produce no stream.
    let empty: Vec<ImportTarget> = Vec::new();
    let res = encode_rel_relocations(&m, &empty);
    assert_eq!(res.unwrap_err(), RelError::UnresolvedTarget { reloc: 0 });

    // With the name offered by module 9, the same encode succeeds.
    let map = vec![ImportTarget { name: b"external_thing".to_vec(), module: 9, section: 2, offset: 0x40 }];
    let ops = encode_rel_relocations(&m, &map).unwrap();
    let replayed = decode_rel_stream(&ops).unwrap();
    assert_eq!(replayed.len(), 1);
    assert_eq!(replayed[0].module, 9);
    assert_eq!(replayed[0].target_section, 2);
    assert_eq!(replayed[0].target_addend, 0x40);
}
