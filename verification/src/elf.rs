//! Codec for the compiler-relocatable-object container: section headers,
//! symbol table, and one relocation list, all big-endian.
//!
//! Round trip: `decode_object` accepts exactly the buffers `spec_object_ok`
//! describes, and each accepted buffer is its result's one byte spelling,
//! so re-encoding whatever it produced yields the input buffer byte for
//! byte (its postcondition states the buffer equals `spec_encode_object` of
//! the result, which is `encode_object`'s postcondition).
//!
//! Layout choices, deliberate: records are stored densely, so a section's
//! declared `align` constrains its load `address` (see
//! `crate::resolve::check_layout`) rather than padding inside the
//! container, and the symbol table is emitted exactly in model order — the
//! decoder treats that verbatim order as the canonical grouping, which
//! keeps the round trip byte-exact.
use vstd::prelude::*;

use crate::obj::{
    Module, Relocation, RelocKind, Section, SectionKind, Symbol, SymbolBinding, SymbolKind,
    module_wf, reloc_wf, section_wf, symbol_wf,
};
use crate::wire::{be32, read_be32, take_be32, take_bytes, push_be32, push_bytes, DecodeError};

verus! {

/// Leading magic word of the object container.
pub const OBJ_MAGIC: u32 = 0x4F424A31;

/// Wire code of a section kind.
pub open spec fn section_kind_code(k: SectionKind) -> u32 {
    match k {
        SectionKind::Code => 0,
        SectionKind::Data => 1,
        SectionKind::Bss => 2,
        SectionKind::Metadata => 3,
    }
}

/// Wire code of a symbol binding.
pub open spec fn binding_code(b: SymbolBinding) -> u32 {
    match b {
        SymbolBinding::Local => 0,
        SymbolBinding::Global => 1,
        SymbolBinding::Weak => 2,
    }
}

/// Wire code of a symbol kind.
pub open spec fn symbol_kind_code(k: SymbolKind) -> u32 {
    match k {
        SymbolKind::Function => 0,
        SymbolKind::Object => 1,
        SymbolKind::NoType => 2,
    }
}

/// Wire code of a relocation kind.
pub open spec fn reloc_kind_code(k: RelocKind) -> u32 {
    match k {
        RelocKind::Abs32 => 0,
        RelocKind::Rel24 => 1,
        RelocKind::Hi16 => 2,
        RelocKind::Lo16 => 3,
    }
}

/// Section-table sentinel marking an external symbol.
pub open spec fn symbol_shndx(s: Symbol) -> u32 {
    match s.section {
        Option::Some(i) => i,
        Option::None => u32::MAX,
    }
}

/// Two's-complement wire image of a signed addend.
pub open spec fn i32_bits(x: i32) -> u32 {
    if x >= 0 {
        x as u32
    } else {
        (x + 0x1_0000_0000) as u32
    }
}

/// The signed addend spelled by its wire image.
pub open spec fn bits_i32(u: u32) -> i32 {
    if u < 0x8000_0000 {
        u as i32
    } else {
        (u - 0x1_0000_0000) as i32
    }
}

pub open spec fn enc_section(s: Section) -> Seq<u8> {
    be32(s.name@.len() as u32) + s.name@ + be32(section_kind_code(s.kind)) + be32(s.align) + be32(
        s.address,
    ) + be32(s.data@.len() as u32) + s.data@
}

pub open spec fn enc_symbol(s: Symbol) -> Seq<u8> {
    be32(s.name@.len() as u32) + s.name@ + be32(symbol_shndx(s)) + be32(s.offset) + be32(s.size)
        + be32(binding_code(s.binding)) + be32(symbol_kind_code(s.kind))
}

pub open spec fn enc_reloc(r: Relocation) -> Seq<u8> {
    be32(r.section) + be32(r.offset) + be32(reloc_kind_code(r.kind)) + be32(r.symbol) + be32(
        i32_bits(r.addend),
    )
}

pub open spec fn enc_sections(ss: Seq<Section>) -> Seq<u8>
    decreases ss.len(),
{
    if ss.len() == 0 {
        Seq::empty()
    } else {
        enc_sections(ss.drop_last()) + enc_section(ss.last())
    }
}

pub open spec fn enc_symbols(ss: Seq<Symbol>) -> Seq<u8>
    decreases ss.len(),
{
    if ss.len() == 0 {
        Seq::empty()
    } else {
        enc_symbols(ss.drop_last()) + enc_symbol(ss.last())
    }
}

pub open spec fn enc_relocs(rs: Seq<Relocation>) -> Seq<u8>
    decreases rs.len(),
{
    if rs.len() == 0 {
        Seq::empty()
    } else {
        enc_relocs(rs.drop_last()) + enc_reloc(rs.last())
    }
}

/// Wire image of the entry-point marker.
pub open spec fn entry_flag(e: Option<u32>) -> u32 {
    match e {
        Option::Some(_) => 1,
        Option::None => 0,
    }
}

pub open spec fn entry_value(e: Option<u32>) -> u32 {
    match e {
        Option::Some(i) => i,
        Option::None => 0,
    }
}

pub open spec fn enc_header(m: Module) -> Seq<u8> {
    be32(OBJ_MAGIC) + be32(m.version) + be32(m.module_id) + be32(entry_flag(m.entry)) + be32(
        entry_value(m.entry),
    ) + be32(m.sections@.len() as u32) + be32(m.symbols@.len() as u32) + be32(
        m.relocations@.len() as u32,
    )
}

/// The one byte spelling of a well-formed module in the object container.
pub open spec fn spec_encode_object(m: Module) -> Seq<u8> {
    enc_header(m) + enc_sections(m.sections@) + enc_symbols(m.symbols@) + enc_relocs(
        m.relocations@,
    )
}

/// The data lengths of a section list: all that later records' bounds
/// checks read of it.
pub open spec fn sec_lens(ss: Seq<Section>) -> Seq<int> {
    ss.map_values(|s: Section| s.data@.len() as int)
}

/// Whether one valid section record sits at `pos`: its data length and the
/// position after it.
pub open spec fn sec_rec_ok(b: Seq<u8>, pos: int) -> Option<(int, int)> {
    if pos + 4 > b.len() {
        Option::None
    } else {
        let nl = read_be32(b, pos) as int;
        if pos + 4 + nl > b.len() {
            Option::None
        } else {
            let p2 = pos + 4 + nl;
            if p2 + 4 > b.len() {
                Option::None
            } else if read_be32(b, p2) > 3 {
                Option::None
            } else if p2 + 8 > b.len() {
                Option::None
            } else if p2 + 12 > b.len() {
                Option::None
            } else if p2 + 16 > b.len() {
                Option::None
            } else {
                let dl = read_be32(b, p2 + 12) as int;
                if p2 + 16 + dl > b.len() {
                    Option::None
                } else {
                    Option::Some((dl, p2 + 16 + dl))
                }
            }
        }
    }
}

/// Whether `n` valid section records sit at `pos`: the accumulated data
/// lengths and the position after them.
pub open spec fn secs_ok(b: Seq<u8>, acc: Seq<int>, pos: int, n: nat) -> Option<(Seq<int>, int)>
    decreases n,
{
    if n == 0 {
        Option::Some((acc, pos))
    } else {
        match sec_rec_ok(b, pos) {
            Option::None => Option::None,
            Option::Some(r) => secs_ok(b, acc.push(r.0), r.1, (n - 1) as nat),
        }
    }
}

/// Whether one valid symbol record sits at `pos`, its section reference and
/// bounds checked against the section data lengths.
pub open spec fn sym_rec_ok(b: Seq<u8>, lens: Seq<int>, pos: int) -> Option<int> {
    if pos + 4 > b.len() {
        Option::None
    } else {
        let nl = read_be32(b, pos) as int;
        if pos + 4 + nl > b.len() {
            Option::None
        } else {
            let p2 = pos + 4 + nl;
            if p2 + 4 > b.len() {
                Option::None
            } else {
                let shndx = read_be32(b, p2);
                if shndx != u32::MAX && shndx as int >= lens.len() {
                    Option::None
                } else if p2 + 8 > b.len() {
                    Option::None
                } else if p2 + 12 > b.len() {
                    Option::None
                } else if shndx != u32::MAX && read_be32(b, p2 + 4) + read_be32(b, p2 + 8)
                    > lens[shndx as int] {
                    Option::None
                } else if p2 + 16 > b.len() {
                    Option::None
                } else if read_be32(b, p2 + 12) > 2 {
                    Option::None
                } else if p2 + 20 > b.len() {
                    Option::None
                } else if read_be32(b, p2 + 16) > 2 {
                    Option::None
                } else {
                    Option::Some(p2 + 20)
                }
            }
        }
    }
}

pub open spec fn syms_ok(b: Seq<u8>, lens: Seq<int>, pos: int, n: nat) -> Option<int>
    decreases n,
{
    if n == 0 {
        Option::Some(pos)
    } else {
        match sym_rec_ok(b, lens, pos) {
            Option::None => Option::None,
            Option::Some(p) => syms_ok(b, lens, p, (n - 1) as nat),
        }
    }
}

/// Whether one valid relocation record sits at `pos`, indices and offset
/// bounds checked.
pub open spec fn rel_rec_ok(b: Seq<u8>, lens: Seq<int>, n_symbols: int, pos: int) -> Option<int> {
    if pos + 4 > b.len() {
        Option::None
    } else {
        let section = read_be32(b, pos);
        if section as int >= lens.len() {
            Option::None
        } else if pos + 8 > b.len() {
            Option::None
        } else if read_be32(b, pos + 4) + 4 > lens[section as int] {
            Option::None
        } else if pos + 12 > b.len() {
            Option::None
        } else if read_be32(b, pos + 8) > 3 {
            Option::None
        } else if pos + 16 > b.len() {
            Option::None
        } else if read_be32(b, pos + 12) as int >= n_symbols {
            Option::None
        } else if pos + 20 > b.len() {
            Option::None
        } else {
            Option::Some(pos + 20)
        }
    }
}

pub open spec fn rels_ok(b: Seq<u8>, lens: Seq<int>, n_symbols: int, pos: int, n: nat) -> Option<
    int,
>
    decreases n,
{
    if n == 0 {
        Option::Some(pos)
    } else {
        match rel_rec_ok(b, lens, n_symbols, pos) {
            Option::None => Option::None,
            Option::Some(p) => rels_ok(b, lens, n_symbols, p, (n - 1) as nat),
        }
    }
}

/// The buffers the object decoder accepts: a sound header followed by
/// exactly the announced records, every index and bound valid, nothing
/// after them. `decode_object` succeeds on exactly these.
pub open spec fn spec_object_ok(b: Seq<u8>) -> bool {
    &&& b.len() >= 32
    &&& read_be32(b, 0) == OBJ_MAGIC
    &&& read_be32(b, 12) <= 1
    &&& (read_be32(b, 12) == 0 ==> read_be32(b, 16) == 0)
    &&& (read_be32(b, 12) == 1 ==> read_be32(b, 16) < read_be32(b, 24))
    &&& match secs_ok(b, Seq::empty(), 32, read_be32(b, 20) as nat) {
        Option::None => false,
        Option::Some(r) => match syms_ok(b, r.0, r.1, read_be32(b, 24) as nat) {
            Option::None => false,
            Option::Some(p2) => match rels_ok(
                b,
                r.0,
                read_be32(b, 24) as int,
                p2,
                read_be32(b, 28) as nat,
            ) {
                Option::None => false,
                Option::Some(p3) => p3 == b.len(),
            },
        },
    }
}

pub(crate) proof fn lemma_enc_sections_take(ss: Seq<Section>, i: int)
    requires
        0 <= i < ss.len(),
    ensures
        enc_sections(ss.take(i + 1)) == enc_sections(ss.take(i)) + enc_section(ss[i]),
{
    assert(ss.take(i + 1).drop_last() =~= ss.take(i));
    assert(ss.take(i + 1).last() == ss[i]);
}

pub(crate) proof fn lemma_enc_symbols_take(ss: Seq<Symbol>, i: int)
    requires
        0 <= i < ss.len(),
    ensures
        enc_symbols(ss.take(i + 1)) == enc_symbols(ss.take(i)) + enc_symbol(ss[i]),
{
    assert(ss.take(i + 1).drop_last() =~= ss.take(i));
    assert(ss.take(i + 1).last() == ss[i]);
}

pub(crate) proof fn lemma_enc_relocs_take(rs: Seq<Relocation>, i: int)
    requires
        0 <= i < rs.len(),
    ensures
        enc_relocs(rs.take(i + 1)) == enc_relocs(rs.take(i)) + enc_reloc(rs[i]),
{
    assert(rs.take(i + 1).drop_last() =~= rs.take(i));
    assert(rs.take(i + 1).last() == rs[i]);
}

pub(crate) fn encode_section_kind(k: SectionKind) -> (c: u32)
    ensures
        c == section_kind_code(k),
{
    match k {
        SectionKind::Code => 0,
        SectionKind::Data => 1,
        SectionKind::Bss => 2,
        SectionKind::Metadata => 3,
    }
}

fn decode_section_kind(c: u32) -> (r: Option<SectionKind>)
    ensures
        match r {
            Option::Some(k) => section_kind_code(k) == c,
            Option::None => c > 3,
        },
{
    match c {
        0 => Some(SectionKind::Code),
        1 => Some(SectionKind::Data),
        2 => Some(SectionKind::Bss),
        3 => Some(SectionKind::Metadata),
        _ => None,
    }
}

pub(crate) fn encode_binding(b: SymbolBinding) -> (c: u32)
    ensures
        c == binding_code(b),
{
    match b {
        SymbolBinding::Local => 0,
        SymbolBinding::Global => 1,
        SymbolBinding::Weak => 2,
    }
}

fn decode_binding(c: u32) -> (r: Option<SymbolBinding>)
    ensures
        match r {
            Option::Some(b) => binding_code(b) == c,
            Option::None => c > 2,
        },
{
    match c {
        0 => Some(SymbolBinding::Local),
        1 => Some(SymbolBinding::Global),
        2 => Some(SymbolBinding::Weak),
        _ => None,
    }
}

pub(crate) fn encode_symbol_kind(k: SymbolKind) -> (c: u32)
    ensures
        c == symbol_kind_code(k),
{
    match k {
        SymbolKind::Function => 0,
        SymbolKind::Object => 1,
        SymbolKind::NoType => 2,
    }
}

fn decode_symbol_kind(c: u32) -> (r: Option<SymbolKind>)
    ensures
        match r {
            Option::Some(k) => symbol_kind_code(k) == c,
            Option::None => c > 2,
        },
{
    match c {
        0 => Some(SymbolKind::Function),
        1 => Some(SymbolKind::Object),
        2 => Some(SymbolKind::NoType),
        _ => None,
    }
}

pub(crate) fn encode_reloc_kind(k: RelocKind) -> (c: u32)
    ensures
        c == reloc_kind_code(k),
{
    match k {
        RelocKind::Abs32 => 0,
        RelocKind::Rel24 => 1,
        RelocKind::Hi16 => 2,
        RelocKind::Lo16 => 3,
    }
}

fn decode_reloc_kind(c: u32) -> (r: Option<RelocKind>)
    ensures
        match r {
            Option::Some(k) => reloc_kind_code(k) == c,
            Option::None => c > 3,
        },
{
    match c {
        0 => Some(RelocKind::Abs32),
        1 => Some(RelocKind::Rel24),
        2 => Some(RelocKind::Hi16),
        3 => Some(RelocKind::Lo16),
        _ => None,
    }
}

/// Appends the three tables — sections, symbols, relocations — in their one
/// byte spelling.
#[verifier::rlimit(60)]
pub(crate) fn push_tables(m: &Module, out: &mut Vec<u8>)
    requires
        module_wf(*m),
    ensures
        final(out)@ == old(out)@ + enc_sections(m.sections@) + enc_symbols(m.symbols@) + enc_relocs(
            m.relocations@,
        ),
{
    let mut i: usize = 0;
    while i < m.sections.len()
        invariant
            module_wf(*m),
            i <= m.sections@.len(),
            out@ == old(out)@ + enc_sections(m.sections@.take(i as int)),
        decreases m.sections@.len() - i,
    {
        let s = &m.sections[i];
        assert(section_wf(m.sections@[i as int]));
        push_be32(out, s.name.len() as u32);
        push_bytes(out, &s.name);
        push_be32(out, encode_section_kind(s.kind));
        push_be32(out, s.align);
        push_be32(out, s.address);
        push_be32(out, s.data.len() as u32);
        push_bytes(out, &s.data);
        proof {
            lemma_enc_sections_take(m.sections@, i as int);
            assert(out@ =~= old(out)@ + enc_sections(m.sections@.take(i + 1)));
        }
        i = i + 1;
    }
    proof {
        assert(m.sections@.take(m.sections@.len() as int) =~= m.sections@);
    }
    let ghost base: Seq<u8> = old(out)@ + enc_sections(m.sections@);
    let mut i: usize = 0;
    while i < m.symbols.len()
        invariant
            module_wf(*m),
            i <= m.symbols@.len(),
            base == old(out)@ + enc_sections(m.sections@),
            out@ == base + enc_symbols(m.symbols@.take(i as int)),
        decreases m.symbols@.len() - i,
    {
        let s = &m.symbols[i];
        assert(symbol_wf(m.sections@, m.symbols@[i as int]));
        push_be32(out, s.name.len() as u32);
        push_bytes(out, &s.name);
        match s.section {
            Some(si) => push_be32(out, si),
            None => push_be32(out, u32::MAX),
        }
        push_be32(out, s.offset);
        push_be32(out, s.size);
        push_be32(out, encode_binding(s.binding));
        push_be32(out, encode_symbol_kind(s.kind));
        proof {
            lemma_enc_symbols_take(m.symbols@, i as int);
            assert(out@ =~= base + enc_symbols(m.symbols@.take(i + 1)));
        }
        i = i + 1;
    }
    proof {
        assert(m.symbols@.take(m.symbols@.len() as int) =~= m.symbols@);
    }
    let ghost base2: Seq<u8> = base + enc_symbols(m.symbols@);
    let mut i: usize = 0;
    while i < m.relocations.len()
        invariant
            module_wf(*m),
            i <= m.relocations@.len(),
            base2 == old(out)@ + enc_sections(m.sections@) + enc_symbols(m.symbols@),
            out@ == base2 + enc_relocs(m.relocations@.take(i as int)),
        decreases m.relocations@.len() - i,
    {
        let r = &m.relocations[i];
        push_be32(out, r.section);
        push_be32(out, r.offset);
        push_be32(out, encode_reloc_kind(r.kind));
        push_be32(out, r.symbol);
        let bits: u32 = if r.addend >= 0 {
            r.addend as u32
        } else {
            ((r.addend as i64) + 0x1_0000_0000) as u32
        };
        assert(bits == i32_bits(r.addend));
        push_be32(out, bits);
        proof {
            lemma_enc_relocs_take(m.relocations@, i as int);
            assert(out@ =~= base2 + enc_relocs(m.relocations@.take(i + 1)));
        }
        i = i + 1;
    }
    proof {
        assert(m.relocations@.take(m.relocations@.len() as int) =~= m.relocations@);
        assert(out@ =~= old(out)@ + enc_sections(m.sections@) + enc_symbols(m.symbols@)
            + enc_relocs(m.relocations@));
    }
}

/// Emits a well-formed module as the object container's bytes.
pub fn encode_object(m: &Module) -> (out: Vec<u8>)
    requires
        module_wf(*m),
    ensures
        out@ == spec_encode_object(*m),
{
    let mut out: Vec<u8> = Vec::new();
    push_be32(&mut out, OBJ_MAGIC);
    push_be32(&mut out, m.version);
    push_be32(&mut out, m.module_id);
    match m.entry {
        Some(e) => {
            push_be32(&mut out, 1);
            push_be32(&mut out, e);
        },
        None => {
            push_be32(&mut out, 0);
            push_be32(&mut out, 0);
        },
    }
    push_be32(&mut out, m.sections.len() as u32);
    push_be32(&mut out, m.symbols.len() as u32);
    push_be32(&mut out, m.relocations.len() as u32);
    proof {
        assert(out@ =~= enc_header(*m));
    }
    push_tables(m, &mut out);
    proof {
        assert(out@ =~= spec_encode_object(*m));
    }
    out
}

/// Parses one section record at `pos`.
pub(crate) fn parse_section(b: &Vec<u8>, pos: usize) -> (res: Result<(Section, usize), DecodeError>)
    requires
        pos <= b@.len(),
    ensures
        match res {
            Result::Ok(r) => {
                &&& pos <= r.1 <= b@.len()
                &&& b@.subrange(pos as int, r.1 as int) == enc_section(r.0)
                &&& section_wf(r.0)
                &&& sec_rec_ok(b@, pos as int) == Option::Some(
                    (r.0.data@.len() as int, r.1 as int),
                )
            },
            Result::Err(_) => sec_rec_ok(b@, pos as int) is None,
        },
{
    let (name_len, p1) = match take_be32(b, pos) {
        Ok(r) => r,
        Err(e) => { return Err(e); },
    };
    let (name, p2) = match take_bytes(b, p1, name_len as usize) {
        Ok(r) => r,
        Err(e) => { return Err(e); },
    };
    let (kind_c, p3) = match take_be32(b, p2) {
        Ok(r) => r,
        Err(e) => { return Err(e); },
    };
    let kind = match decode_section_kind(kind_c) {
        Some(k) => k,
        None => { return Err(DecodeError::BadValue { offset: p2, found: kind_c }); },
    };
    let (align, p4) = match take_be32(b, p3) {
        Ok(r) => r,
        Err(e) => { return Err(e); },
    };
    let (address, p5) = match take_be32(b, p4) {
        Ok(r) => r,
        Err(e) => { return Err(e); },
    };
    let (data_len, p6) = match take_be32(b, p5) {
        Ok(r) => r,
        Err(e) => { return Err(e); },
    };
    let (data, p7) = match take_bytes(b, p6, data_len as usize) {
        Ok(r) => r,
        Err(e) => { return Err(e); },
    };
    let s = Section { name, kind, align, address, data };
    proof {
        assert(b@.subrange(pos as int, p7 as int) =~= b@.subrange(pos as int, pos + 4)
            + b@.subrange(p1 as int, p1 + name_len) + b@.subrange(p2 as int, p2 + 4)
            + b@.subrange(p3 as int, p3 + 4) + b@.subrange(p4 as int, p4 + 4) + b@.subrange(
            p5 as int,
            p5 + 4,
        ) + b@.subrange(p6 as int, p6 + data_len));
        assert(b@.subrange(pos as int, p7 as int) =~= enc_section(s));
    }
    Ok((s, p7))
}

/// Parses one symbol record at `pos`, validating its section reference and
/// bounds against the already-parsed section table.
pub(crate) fn parse_symbol(b: &Vec<u8>, pos: usize, secs: &Vec<Section>) -> (res: Result<
    (Symbol, usize),
    DecodeError,
>)
    requires
        pos <= b@.len(),
        secs@.len() <= u32::MAX,
    ensures
        match res {
            Result::Ok(r) => {
                &&& pos <= r.1 <= b@.len()
                &&& b@.subrange(pos as int, r.1 as int) == enc_symbol(r.0)
                &&& symbol_wf(secs@, r.0)
                &&& sym_rec_ok(b@, sec_lens(secs@), pos as int) == Option::Some(r.1 as int)
            },
            Result::Err(_) => sym_rec_ok(b@, sec_lens(secs@), pos as int) is None,
        },
{
    let (name_len, p1) = match take_be32(b, pos) {
        Ok(r) => r,
        Err(e) => { return Err(e); },
    };
    let (name, p2) = match take_bytes(b, p1, name_len as usize) {
        Ok(r) => r,
        Err(e) => { return Err(e); },
    };
    let (shndx, p3) = match take_be32(b, p2) {
        Ok(r) => r,
        Err(e) => { return Err(e); },
    };
    let section: Option<u32> = if shndx == u32::MAX {
        None
    } else {
        if shndx as usize >= secs.len() {
            return Err(DecodeError::BadIndex {
                offset: p2,
                index: shndx,
                limit: secs.len() as u32,
            });
        }
        Some(shndx)
    };
    let (offset, p4) = match take_be32(b, p3) {
        Ok(r) => r,
        Err(e) => { return Err(e); },
    };
    let (size, p5) = match take_be32(b, p4) {
        Ok(r) => r,
        Err(e) => { return Err(e); },
    };
    match section {
        Some(si) => {
            if offset as u64 + size as u64 > secs[si as usize].data.len() as u64 {
                return Err(DecodeError::OutOfBounds { offset: p3 });
            }
        },
        None => {},
    }
    let (bind_c, p6) = match take_be32(b, p5) {
        Ok(r) => r,
        Err(e) => { return Err(e); },
    };
    let binding = match decode_binding(bind_c) {
        Some(x) => x,
        None => { return Err(DecodeError::BadValue { offset: p5, found: bind_c }); },
    };
    let (kind_c, p7) = match take_be32(b, p6) {
        Ok(r) => r,
        Err(e) => { return Err(e); },
    };
    let kind = match decode_symbol_kind(kind_c) {
        Some(x) => x,
        None => { return Err(DecodeError::BadValue { offset: p6, found: kind_c }); },
    };
    let s = Symbol { name, section, offset, size, binding, kind };
    proof {
        assert(symbol_shndx(s) == shndx);
        assert(b@.subrange(pos as int, p7 as int) =~= b@.subrange(pos as int, pos + 4)
            + b@.subrange(p1 as int, p1 + name_len) + b@.subrange(p2 as int, p2 + 4)
            + b@.subrange(p3 as int, p3 + 4) + b@.subrange(p4 as int, p4 + 4) + b@.subrange(
            p5 as int,
            p5 + 4,
        ) + b@.subrange(p6 as int, p6 + 4));
        assert(b@.subrange(pos as int, p7 as int) =~= enc_symbol(s));
    }
    Ok((s, p7))
}

/// Parses one relocation record at `pos`, validating indices and offset
/// bounds against the already-parsed tables.
pub(crate) fn parse_reloc(b: &Vec<u8>, pos: usize, secs: &Vec<Section>, n_symbols: u32) -> (res: Result<
    (Relocation, usize),
    DecodeError,
>)
    requires
        pos <= b@.len(),
        secs@.len() <= u32::MAX,
    ensures
        match res {
            Result::Ok(r) => {
                &&& pos <= r.1 <= b@.len()
                &&& b@.subrange(pos as int, r.1 as int) == enc_reloc(r.0)
                &&& reloc_wf(secs@, n_symbols as int, r.0)
                &&& rel_rec_ok(b@, sec_lens(secs@), n_symbols as int, pos as int)
                    == Option::Some(r.1 as int)
            },
            Result::Err(_) => rel_rec_ok(b@, sec_lens(secs@), n_symbols as int, pos as int)
                is None,
        },
{
    let (section, p1) = match take_be32(b, pos) {
        Ok(r) => r,
        Err(e) => { return Err(e); },
    };
    if section as usize >= secs.len() {
        return Err(DecodeError::BadIndex { offset: pos, index: section, limit: secs.len() as u32 });
    }
    let (offset, p2) = match take_be32(b, p1) {
        Ok(r) => r,
        Err(e) => { return Err(e); },
    };
    if offset as u64 + 4 > secs[section as usize].data.len() as u64 {
        return Err(DecodeError::OutOfBounds { offset: p1 });
    }
    let (kind_c, p3) = match take_be32(b, p2) {
        Ok(r) => r,
        Err(e) => { return Err(e); },
    };
    let kind = match decode_reloc_kind(kind_c) {
        Some(x) => x,
        None => { return Err(DecodeError::BadValue { offset: p2, found: kind_c }); },
    };
    let (symbol, p4) = match take_be32(b, p3) {
        Ok(r) => r,
        Err(e) => { return Err(e); },
    };
    if symbol >= n_symbols {
        return Err(DecodeError::BadIndex { offset: p3, index: symbol, limit: n_symbols });
    }
    let (addend_bits, p5) = match take_be32(b, p4) {
        Ok(r) => r,
        Err(e) => { return Err(e); },
    };
    let addend: i32 = if addend_bits < 0x8000_0000 {
        addend_bits as i32
    } else {
        ((addend_bits as i64) - 0x1_0000_0000) as i32
    };
    assert(addend == bits_i32(addend_bits));
    assert(i32_bits(addend) == addend_bits);
    let r = Relocation { section, offset, kind, symbol, addend };
    proof {
        assert(b@.subrange(pos as int, p5 as int) =~= b@.subrange(pos as int, pos + 4)
            + b@.subrange(p1 as int, p1 + 4) + b@.subrange(p2 as int, p2 + 4) + b@.subrange(
            p3 as int,
            p3 + 4,
        ) + b@.subrange(p4 as int, p4 + 4));
        assert(b@.subrange(pos as int, p5 as int) =~= enc_reloc(r));
    }
    Ok((r, p5))
}

/// Decodes an object buffer, validating every index and bound; it succeeds
/// on exactly the buffers `spec_object_ok` describes, and on success the
/// buffer is exactly the result's one byte spelling, so a following encode
/// reproduces it byte for byte. A malformed buffer is rejected without
/// producing any module.
#[verifier::rlimit(100)]
pub fn decode_object(b: &Vec<u8>) -> (res: Result<Module, DecodeError>)
    ensures
        match res {
            Result::Ok(m) => {
                &&& module_wf(m)
                &&& m.ranges@.len() == 0
                &&& b@ == spec_encode_object(m)
                &&& spec_object_ok(b@)
            },
            Result::Err(_) => !spec_object_ok(b@),
        },
{
    let (magic, p1) = match take_be32(b, 0) {
        Ok(r) => r,
        Err(e) => { return Err(e); },
    };
    if magic != OBJ_MAGIC {
        return Err(DecodeError::BadMagic { found: magic });
    }
    let (version, p2) = match take_be32(b, p1) {
        Ok(r) => r,
        Err(e) => { return Err(e); },
    };
    let (module_id, p3) = match take_be32(b, p2) {
        Ok(r) => r,
        Err(e) => { return Err(e); },
    };
    let (eflag, p4) = match take_be32(b, p3) {
        Ok(r) => r,
        Err(e) => { return Err(e); },
    };
    let (evalue, p5) = match take_be32(b, p4) {
        Ok(r) => r,
        Err(e) => { return Err(e); },
    };
    if eflag > 1 {
        return Err(DecodeError::BadValue { offset: p3, found: eflag });
    }
    if eflag == 0 && evalue != 0 {
        return Err(DecodeError::BadValue { offset: p4, found: evalue });
    }
    let (n_sections, p6) = match take_be32(b, p5) {
        Ok(r) => r,
        Err(e) => { return Err(e); },
    };
    let (n_symbols, p7) = match take_be32(b, p6) {
        Ok(r) => r,
        Err(e) => { return Err(e); },
    };
    let (n_relocs, p8) = match take_be32(b, p7) {
        Ok(r) => r,
        Err(e) => { return Err(e); },
    };
    if eflag == 1 && evalue >= n_symbols {
        return Err(DecodeError::BadIndex { offset: p4, index: evalue, limit: n_symbols });
    }
    let entry: Option<u32> = if eflag == 1 {
        Some(evalue)
    } else {
        None
    };
    let ghost header: Seq<u8> = be32(OBJ_MAGIC) + be32(version) + be32(module_id) + be32(eflag)
        + be32(evalue) + be32(n_sections) + be32(n_symbols) + be32(n_relocs);
    proof {
        assert(b@.subrange(0, p8 as int) =~= header);
    }
    let mut secs: Vec<Section> = Vec::new();
    let mut pos = p8;
    let mut i: u32 = 0;
    proof {
        assert(sec_lens(secs@) =~= Seq::<int>::empty());
    }
    while i < n_sections
        invariant
            i <= n_sections,
            pos <= b@.len(),
            secs@.len() == i,
            p8 == 32,
            n_sections == read_be32(b@, 20),
            b@.subrange(0, pos as int) == header + enc_sections(secs@),
            secs_ok(b@, Seq::empty(), 32, n_sections as nat) == secs_ok(
                b@,
                sec_lens(secs@),
                pos as int,
                (n_sections - i) as nat,
            ),
            forall|k: int| 0 <= k < secs@.len() ==> section_wf(#[trigger] secs@[k]),
        decreases n_sections - i,
    {
        let (s, p) = match parse_section(b, pos) {
            Ok(r) => r,
            Err(e) => {
                proof {
                    assert(secs_ok(b@, Seq::empty(), 32, read_be32(b@, 20) as nat) is None);
                    assert(!spec_object_ok(b@));
                }
                return Err(e);
            },
        };
        proof {
            assert(secs@.push(s).drop_last() =~= secs@);
            assert(b@.subrange(0, p as int) =~= b@.subrange(0, pos as int) + b@.subrange(
                pos as int,
                p as int,
            ));
            assert(b@.subrange(0, p as int) =~= header + enc_sections(secs@.push(s)));
            assert(sec_lens(secs@.push(s)) =~= sec_lens(secs@).push(s.data@.len() as int));
        }
        secs.push(s);
        pos = p;
        i = i + 1;
    }
    let mut syms: Vec<Symbol> = Vec::new();
    let ghost base: Seq<u8> = header + enc_sections(secs@);
    let ghost pos_syms: int = pos as int;
    let mut i: u32 = 0;
    while i < n_symbols
        invariant
            i <= n_symbols,
            pos <= b@.len(),
            syms@.len() == i,
            secs@.len() == n_sections,
            n_sections == read_be32(b@, 20),
            n_symbols == read_be32(b@, 24),
            base == header + enc_sections(secs@),
            b@.subrange(0, pos as int) == base + enc_symbols(syms@),
            secs_ok(b@, Seq::empty(), 32, read_be32(b@, 20) as nat) == Option::Some(
                (sec_lens(secs@), pos_syms),
            ),
            syms_ok(b@, sec_lens(secs@), pos_syms, n_symbols as nat) == syms_ok(
                b@,
                sec_lens(secs@),
                pos as int,
                (n_symbols - i) as nat,
            ),
            forall|k: int| 0 <= k < secs@.len() ==> section_wf(#[trigger] secs@[k]),
            forall|k: int| 0 <= k < syms@.len() ==> symbol_wf(secs@, #[trigger] syms@[k]),
        decreases n_symbols - i,
    {
        let (s, p) = match parse_symbol(b, pos, &secs) {
            Ok(r) => r,
            Err(e) => {
                proof {
                    assert(syms_ok(
                        b@,
                        sec_lens(secs@),
                        pos_syms,
                        read_be32(b@, 24) as nat,
                    ) is None);
                    assert(!spec_object_ok(b@));
                }
                return Err(e);
            },
        };
        proof {
            assert(syms@.push(s).drop_last() =~= syms@);
            assert(b@.subrange(0, p as int) =~= b@.subrange(0, pos as int) + b@.subrange(
                pos as int,
                p as int,
            ));
            assert(b@.subrange(0, p as int) =~= base + enc_symbols(syms@.push(s)));
        }
        syms.push(s);
        pos = p;
        i = i + 1;
    }
    let mut rels: Vec<Relocation> = Vec::new();
    let ghost base2: Seq<u8> = base + enc_symbols(syms@);
    let ghost pos_rels: int = pos as int;
    let mut i: u32 = 0;
    while i < n_relocs
        invariant
            i <= n_relocs,
            pos <= b@.len(),
            rels@.len() == i,
            secs@.len() == n_sections,
            syms@.len() == n_symbols,
            n_sections == read_be32(b@, 20),
            n_symbols == read_be32(b@, 24),
            n_relocs == read_be32(b@, 28),
            base2 == header + enc_sections(secs@) + enc_symbols(syms@),
            b@.subrange(0, pos as int) == base2 + enc_relocs(rels@),
            secs_ok(b@, Seq::empty(), 32, read_be32(b@, 20) as nat) == Option::Some(
                (sec_lens(secs@), pos_syms),
            ),
            syms_ok(b@, sec_lens(secs@), pos_syms, read_be32(b@, 24) as nat) == Option::Some(
                pos_rels,
            ),
            rels_ok(b@, sec_lens(secs@), n_symbols as int, pos_rels, n_relocs as nat) == rels_ok(
                b@,
                sec_lens(secs@),
                n_symbols as int,
                pos as int,
                (n_relocs - i) as nat,
            ),
            forall|k: int| 0 <= k < secs@.len() ==> section_wf(#[trigger] secs@[k]),
            forall|k: int| 0 <= k < syms@.len() ==> symbol_wf(secs@, #[trigger] syms@[k]),
            forall|k: int|
                0 <= k < rels@.len() ==> reloc_wf(secs@, n_symbols as int, #[trigger] rels@[k]),
        decreases n_relocs - i,
    {
        let (r, p) = match parse_reloc(b, pos, &secs, n_symbols) {
            Ok(x) => x,
            Err(e) => {
                proof {
                    assert(rels_ok(
                        b@,
                        sec_lens(secs@),
                        read_be32(b@, 24) as int,
                        pos_rels,
                        read_be32(b@, 28) as nat,
                    ) is None);
                    assert(!spec_object_ok(b@));
                }
                return Err(e);
            },
        };
        proof {
            assert(rels@.push(r).drop_last() =~= rels@);
            assert(b@.subrange(0, p as int) =~= b@.subrange(0, pos as int) + b@.subrange(
                pos as int,
                p as int,
            ));
            assert(b@.subrange(0, p as int) =~= base2 + enc_relocs(rels@.push(r)));
        }
        rels.push(r);
        pos = p;
        i = i + 1;
    }
    if pos != b.len() {
        proof {
            assert(!spec_object_ok(b@));
        }
        return Err(DecodeError::Trailing { offset: pos });
    }
    proof {
        assert(spec_object_ok(b@));
    }
    let m = Module {
        module_id,
        version,
        entry,
        sections: secs,
        symbols: syms,
        relocations: rels,
        ranges: Vec::new(),
    };
    proof {
        assert(module_wf(m));
        assert(enc_header(m) =~= header);
        assert(b@ =~= b@.subrange(0, pos as int));
        assert(b@ =~= spec_encode_object(m));
    }
    Ok(m)
}

} // verus!
