use relink::obj::{
    Module, Relocation, RelocKind, Section, SectionKind, Symbol, SymbolBinding, SymbolKind,
    ModelError, FunctionRange,
};
use relink::analysis::analyze;
use relink::resolve::{
    apply_resolutions, duplicate_globals, relocation_warnings, resolve, RelocClass, ResolveError,
    Warning,
};

fn section(name: &[u8], kind: SectionKind, address: u32, data: Vec<u8>) -> Section {
    Section { name: name.to_vec(), kind, align: 4, address, data }
}

fn func_symbol(name: &[u8], sec: u32, offset: u32, size: u32) -> Symbol {
    Symbol {
        name: name.to_vec(),
        section: Some(sec),
        offset,
        size,
        binding: SymbolBinding::Global,
        kind: SymbolKind::Function,
    }
}

fn ranges_equal(a: &[FunctionRange], b: &[FunctionRange]) -> bool {
    a.len() == b.len()
        && a.iter().zip(b.iter()).all(|(x, y)| {
            x.section == y.section && x.start == y.start && x.end == y.end
                && x.declared == y.declared && x.complete == y.complete && x.entries == y.entries
        })
}

#[test]
fn scenario_absolute_relocation_patches_resolved_address() {
    // A two-section object: one code, one data, one symbol per section, and
    // one absolute relocation in code targeting the data symbol.
    let mut m = Module::new(0);
    m.add_section(section(b".text", SectionKind::Code, 0x1000, vec![0xAA; 8])).unwrap();
    m.add_section(section(b".data", SectionKind::Data, 0x2000, vec![0x55; 16])).unwrap();
    m.add_symbol(func_symbol(b"entry", 0, 0, 8)).unwrap();
    m.add_symbol(Symbol {
        name: b"value".to_vec(),
        section: Some(1),
        offset: 4,
        size: 4,
        binding: SymbolBinding::Global,
        kind: SymbolKind::Object,
    })
    .unwrap();
    m.add_relocation(Relocation {
        section: 0,
        offset: 0,
        kind: RelocKind::Abs32,
        symbol: 1,
        addend: 0,
    })
    .unwrap();
    let before = m.sections[0].data.clone();
    let res = resolve(&m).unwrap();
    assert_eq!(res.len(), 1);
    assert_eq!(res[0].class, RelocClass::CrossSection);
    assert_eq!(res[0].address, 0x2004);
    apply_resolutions(&mut m, &res);
    // The patched word holds the resolved address of the data symbol.
    assert_eq!(&m.sections[0].data[0..4], &[0x00, 0x00, 0x20, 0x04]);
    // Every byte outside the relocation site is untouched.
    assert_eq!(&m.sections[0].data[4..], &before[4..]);
    assert_eq!(m.sections[1].data, vec![0x55; 16]);
}

#[test]
fn resolver_detects_branch_overflow() {
    let mut m = Module::new(0);
    m.add_section(section(b".text", SectionKind::Code, 0, vec![0; 4])).unwrap();
    m.add_section(section(b".far", SectionKind::Code, 0x0300_0000, vec![0; 4])).unwrap();
    m.add_symbol(func_symbol(b"far_away", 1, 0, 4)).unwrap();
    m.add_relocation(Relocation {
        section: 0,
        offset: 0,
        kind: RelocKind::Rel24,
        symbol: 0,
        addend: 0,
    })
    .unwrap();
    assert_eq!(resolve(&m).unwrap_err(), ResolveError::BranchOverflow { reloc: 0 });
}

#[test]
fn resolver_splits_high_and_low_halves() {
    let mut m = Module::new(0);
    m.add_section(
        section(b".text", SectionKind::Code, 0, vec![0x3C, 0x60, 0, 0, 0x38, 0x63, 0, 0]),
    )
    .unwrap();
    m.add_section(section(b".data", SectionKind::Data, 0x1234_0000, vec![0; 0x5680])).unwrap();
    m.add_symbol(Symbol {
        name: b"value".to_vec(),
        section: Some(1),
        offset: 0x5678,
        size: 4,
        binding: SymbolBinding::Global,
        kind: SymbolKind::Object,
    })
    .unwrap();
    m.add_relocation(Relocation {
        section: 0,
        offset: 0,
        kind: RelocKind::Hi16,
        symbol: 0,
        addend: 0,
    })
    .unwrap();
    m.add_relocation(Relocation {
        section: 0,
        offset: 4,
        kind: RelocKind::Lo16,
        symbol: 0,
        addend: 0,
    })
    .unwrap();
    let res = resolve(&m).unwrap();
    assert_eq!(res[0].patched, 0x3C60_1234);
    assert_eq!(res[1].patched, 0x3863_5678);
    apply_resolutions(&mut m, &res);
    assert_eq!(&m.sections[0].data[..], &[0x3C, 0x60, 0x12, 0x34, 0x38, 0x63, 0x56, 0x78]);
}

#[test]
fn resolver_marks_imports_as_valid_unresolved_state() {
    let mut m = Module::new(0);
    m.add_section(section(b".text", SectionKind::Code, 0, vec![7; 4])).unwrap();
    m.add_symbol(Symbol {
        name: b"elsewhere".to_vec(),
        section: None,
        offset: 0,
        size: 0,
        binding: SymbolBinding::Global,
        kind: SymbolKind::NoType,
    })
    .unwrap();
    m.add_relocation(Relocation {
        section: 0,
        offset: 0,
        kind: RelocKind::Abs32,
        symbol: 0,
        addend: 0,
    })
    .unwrap();
    let res = resolve(&m).unwrap();
    assert_eq!(res[0].class, RelocClass::Import);
    // An import leaves the patch site untouched until a later link.
    apply_resolutions(&mut m, &res);
    assert_eq!(m.sections[0].data, vec![7; 4]);
}

#[test]
fn resolver_reports_duplicate_globals_first_wins() {
    let mut m = Module::new(0);
    m.add_section(section(b".text", SectionKind::Code, 0, vec![0; 8])).unwrap();
    m.add_symbol(func_symbol(b"twice", 0, 0, 4)).unwrap();
    m.add_symbol(func_symbol(b"other", 0, 4, 4)).unwrap();
    m.add_symbol(func_symbol(b"twice", 0, 4, 4)).unwrap();
    let w = duplicate_globals(&m);
    assert_eq!(w.len(), 1);
    assert_eq!(w[0], Warning::DuplicateGlobal { first: 0, second: 2 });
}

#[test]
fn resolver_warns_on_call_relative_into_data() {
    let mut m = Module::new(0);
    m.add_section(section(b".text", SectionKind::Code, 0, vec![0; 4])).unwrap();
    m.add_section(section(b".data", SectionKind::Data, 0x100, vec![0; 8])).unwrap();
    m.add_symbol(Symbol {
        name: b"blob".to_vec(),
        section: Some(1),
        offset: 0,
        size: 4,
        binding: SymbolBinding::Global,
        kind: SymbolKind::Object,
    })
    .unwrap();
    m.add_relocation(Relocation {
        section: 0,
        offset: 0,
        kind: RelocKind::Rel24,
        symbol: 0,
        addend: 0,
    })
    .unwrap();
    let w = relocation_warnings(&m);
    assert_eq!(w.len(), 2);
    assert_eq!(w[0], Warning::KindMismatch { reloc: 0 });
    assert_eq!(w[1], Warning::SectionMismatch { reloc: 0 });
}

#[test]
fn scenario_conditional_branch_stays_one_function() {
    // One function with an internal conditional branch whose target has no
    // symbol: after analysis exactly one range spans entry to the furthest
    // terminating instruction; the target is an edge, not a new function.
    let mut m = Module::new(0);
    let code: Vec<u8> = vec![
        0x40, 0x82, 0x00, 0x08, // conditional branch forward by two words
        0x4E, 0x80, 0x00, 0x20, // return
        0x4E, 0x80, 0x00, 0x20, // return (the branch target)
    ];
    m.add_section(section(b".text", SectionKind::Code, 0, code)).unwrap();
    m.add_symbol(func_symbol(b"entry", 0, 0, 12)).unwrap();
    let ranges = analyze(&m, 0);
    assert_eq!(ranges.len(), 1);
    assert_eq!(ranges[0].start, 0);
    assert_eq!(ranges[0].end, 12);
    assert!(ranges[0].declared);
    assert!(ranges[0].complete);
    assert!(ranges[0].entries.is_empty());
}

#[test]
fn analysis_call_target_becomes_new_function() {
    let mut m = Module::new(0);
    let code: Vec<u8> = vec![
        0x48, 0x00, 0x00, 0x09, // call forward by two words
        0x4E, 0x80, 0x00, 0x20, // return
        0x4E, 0x80, 0x00, 0x20, // return: the callee
    ];
    m.add_section(section(b".text", SectionKind::Code, 0, code)).unwrap();
    m.add_symbol(func_symbol(b"entry", 0, 0, 8)).unwrap();
    let ranges = analyze(&m, 0);
    assert_eq!(ranges.len(), 2);
    assert_eq!((ranges[0].start, ranges[0].end), (0, 8));
    assert!(ranges[0].declared);
    assert_eq!((ranges[1].start, ranges[1].end), (8, 12));
    assert!(!ranges[1].declared);
}

#[test]
fn analysis_jump_table_entries_are_secondary_not_new_functions() {
    let mut m = Module::new(0);
    let code: Vec<u8> = vec![
        0x60, 0x00, 0x00, 0x00, // table address load (carries the relocation)
        0x60, 0x00, 0x00, 0x00, // index bound check
        0x4E, 0x80, 0x04, 0x20, // computed branch through the table
        0x4E, 0x80, 0x00, 0x20, // return: first table target
        0x4E, 0x80, 0x00, 0x20, // return: second table target
    ];
    let table: Vec<u8> = vec![0, 0, 0, 12, 0, 0, 0, 16];
    m.add_section(section(b".text", SectionKind::Code, 0, code)).unwrap();
    m.add_section(section(b".data", SectionKind::Data, 0x100, table)).unwrap();
    m.add_symbol(func_symbol(b"entry", 0, 0, 20)).unwrap();
    m.add_symbol(Symbol {
        name: b"jump_table".to_vec(),
        section: Some(1),
        offset: 0,
        size: 8,
        binding: SymbolBinding::Local,
        kind: SymbolKind::Object,
    })
    .unwrap();
    m.add_relocation(Relocation {
        section: 0,
        offset: 0,
        kind: RelocKind::Abs32,
        symbol: 1,
        addend: 0,
    })
    .unwrap();
    let ranges = analyze(&m, 0);
    assert_eq!(ranges.len(), 1);
    assert_eq!((ranges[0].start, ranges[0].end), (0, 20));
    assert!(ranges[0].complete);
    assert_eq!(ranges[0].entries, vec![12, 16]);
}

#[test]
fn analysis_twice_produces_identical_ranges() {
    let mut m = Module::new(0);
    let code: Vec<u8> = vec![
        0x40, 0x82, 0x00, 0x08,
        0x4E, 0x80, 0x00, 0x20,
        0x48, 0x00, 0x00, 0x09,
        0x4E, 0x80, 0x00, 0x20,
    ];
    m.add_section(section(b".text", SectionKind::Code, 0, code)).unwrap();
    m.add_symbol(func_symbol(b"entry", 0, 0, 16)).unwrap();
    let first = analyze(&m, 0);
    let second = analyze(&m, 0);
    assert!(ranges_equal(&first, &second));
    // Attaching the recovered ranges does not change what a rerun sees.
    m.attach_ranges(first);
    let third = analyze(&m, 0);
    assert!(ranges_equal(&second, &third));
}

#[test]
fn layout_check_finds_first_overlap() {
    let mut m = Module::new(0);
    m.add_section(section(b".text", SectionKind::Code, 0x1000, vec![0; 0x100])).unwrap();
    m.add_section(section(b".data", SectionKind::Data, 0x1100, vec![0; 0x100])).unwrap();
    assert_eq!(relink::resolve::check_layout(&m), None);
    m.add_section(section(b".clash", SectionKind::Data, 0x10FF, vec![0; 4])).unwrap();
    assert_eq!(relink::resolve::check_layout(&m), Some((0, 2)));
}

#[test]
fn model_rejects_out_of_bounds_relocation() {
    let mut m = Module::new(0);
    m.add_section(section(b".text", SectionKind::Code, 0, vec![0; 8])).unwrap();
    m.add_symbol(func_symbol(b"entry", 0, 0, 8)).unwrap();
    let err = m
        .add_relocation(Relocation {
            section: 0,
            offset: 6,
            kind: RelocKind::Abs32,
            symbol: 0,
            addend: 0,
        })
        .unwrap_err();
    assert_eq!(err, ModelError::OutOfBounds { section: 0, offset: 6 });
    assert_eq!(m.relocations.len(), 0);
}

#[test]
fn model_rejects_dangling_references() {
    let mut m = Module::new(0);
    m.add_section(section(b".text", SectionKind::Code, 0, vec![0; 8])).unwrap();
    let e1 = m
        .add_relocation(Relocation {
            section: 5,
            offset: 0,
            kind: RelocKind::Abs32,
            symbol: 0,
            addend: 0,
        })
        .unwrap_err();
    assert_eq!(e1, ModelError::BadSection { index: 5 });
    let e2 = m
        .add_relocation(Relocation {
            section: 0,
            offset: 0,
            kind: RelocKind::Abs32,
            symbol: 3,
            addend: 0,
        })
        .unwrap_err();
    assert_eq!(e2, ModelError::BadSymbol { index: 3 });
    let e3 = m
        .add_symbol(Symbol {
            name: b"x".to_vec(),
            section: Some(4),
            offset: 0,
            size: 0,
            binding: SymbolBinding::Local,
            kind: SymbolKind::NoType,
        })
        .unwrap_err();
    assert_eq!(e3, ModelError::BadSection { index: 4 });
}

#[test]
fn model_lookups_find_first_match() {
    let mut m = Module::new(0);
    m.add_section(section(b".text", SectionKind::Code, 0, vec![0; 8])).unwrap();
    m.add_section(section(b".data", SectionKind::Data, 0, vec![0; 8])).unwrap();
    m.add_symbol(func_symbol(b"f", 0, 0, 4)).unwrap();
    m.add_symbol(func_symbol(b"g", 0, 4, 4)).unwrap();
    m.add_symbol(func_symbol(b"f", 0, 4, 4)).unwrap();
    assert_eq!(m.symbol_by_name(&b"f".to_vec()), Some(0));
    assert_eq!(m.symbol_by_name(&b"g".to_vec()), Some(1));
    assert_eq!(m.symbol_by_name(&b"missing".to_vec()), None);
    assert_eq!(m.symbol_at(0, 4), Some(1));
    assert_eq!(m.symbol_at(1, 0), None);
    m.add_relocation(Relocation { section: 0, offset: 0, kind: RelocKind::Abs32, symbol: 0, addend: 0 })
        .unwrap();
    m.add_relocation(Relocation { section: 1, offset: 0, kind: RelocKind::Abs32, symbol: 0, addend: 0 })
        .unwrap();
    m.add_relocation(Relocation { section: 0, offset: 4, kind: RelocKind::Abs32, symbol: 0, addend: 0 })
        .unwrap();
    assert_eq!(m.relocations_for_section(0), vec![0, 2]);
    assert_eq!(m.relocations_for_section(1), vec![1]);
}
