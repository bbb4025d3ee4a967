//! Codec for the second platform's dynamic-module format: a layout
//! mirroring the relocatable-object container plus an intrusive linked-list
//! header — meaningful only once loaded, always zeroed at rest — and an
//! export table of (name-hash, symbol) pairs sorted by hash, since this
//! platform's loader resolves imports dynamically by hashed name. The hash
//! must match the loader bit for bit: it folds each byte into the running
//! value by a shift of four with the overflowing nibble mixed back in.
//!
//! Deliberately, the container holds one flat relocation table rather than
//! a per-import stream: the hash-grouped import representation is produced
//! only when modules are bound together, by `crate::rel`'s stream encoder
//! over name-resolved targets (`crate::rel::ImportTarget` carries the
//! hashed name's owner), so an unbound module at rest never stores a
//! half-resolved grouping.
use vstd::prelude::*;

use crate::obj::{module_wf, Module, SymbolBinding};
use crate::elf::{
    enc_sections, enc_symbols, enc_relocs, lemma_enc_sections_take, lemma_enc_symbols_take,
    lemma_enc_relocs_take, parse_section, parse_symbol, parse_reloc, encode_section_kind,
    encode_binding, encode_symbol_kind, encode_reloc_kind, symbol_shndx, i32_bits, sec_lens,
    secs_ok, syms_ok, rels_ok,
};
use crate::wire::{be32, read_be32, take_be32, push_be32, push_bytes, DecodeError};
use vstd::multiset::Multiset;

verus! {

/// Leading magic word of the dynamic shared-object container.
pub const RSO_MAGIC: u32 = 0x52534F31;

/// One step of the loader's name hash.
pub open spec fn hash_step(h: u32, c: u8) -> u32 {
    let mm = (((h as int) * 16 + c) % 0x1_0000_0000) as u32;
    let g = mm & 0xf000_0000;
    (mm ^ (g >> 24)) & !g
}

/// The loader's hash of a symbol name: a conformance requirement, not an
/// approximation — a mismatch leaves every import unresolvable at runtime.
pub open spec fn spec_name_hash(s: Seq<u8>) -> u32
    decreases s.len(),
{
    if s.len() == 0 {
        0
    } else {
        hash_step(spec_name_hash(s.drop_last()), s.last())
    }
}

/// Computes the loader's name hash, bit for bit.
#[verifier::loop_isolation(false)]
pub fn name_hash(name: &Vec<u8>) -> (h: u32)
    ensures
        h == spec_name_hash(name@),
{
    let mut h: u32 = 0;
    let mut i: usize = 0;
    while i < name.len()
        invariant
            i <= name@.len(),
            h == spec_name_hash(name@.take(i as int)),
        decreases name@.len() - i,
    {
        let c = name[i];
        let mm64: u64 = (h as u64) * 16 + c as u64;
        let mm: u32 = (mm64 % 0x1_0000_0000) as u32;
        let g: u32 = mm & 0xf000_0000;
        h = (mm ^ (g >> 24)) & !g;
        proof {
            assert(name@.take(i + 1).drop_last() =~= name@.take(i as int));
            assert(name@.take(i + 1).last() == name@[i as int]);
        }
        i = i + 1;
    }
    proof {
        assert(name@.take(name@.len() as int) =~= name@);
    }
    h
}

/// One export-table entry: the hash of a symbol's name and the symbol's
/// index.
#[derive(Clone, Copy, PartialEq, Eq, Structural, Debug)]
pub struct ExportEntry {
    pub hash: u32,
    pub symbol: u32,
}

/// A symbol the module offers to other modules: defined, and not local.
pub open spec fn is_export(m: Module, j: int) -> bool {
    m.symbols@[j].binding != SymbolBinding::Local && m.symbols@[j].section is Some
}

/// The exports among the first `j` symbols, in symbol order.
pub open spec fn exports_upto(m: Module, j: int) -> Seq<ExportEntry>
    decreases j,
{
    if j <= 0 {
        Seq::empty()
    } else {
        let h = exports_upto(m, j - 1);
        if is_export(m, j - 1) {
            h.push(
                ExportEntry {
                    hash: spec_name_hash(m.symbols@[j - 1].name@),
                    symbol: (j - 1) as u32,
                },
            )
        } else {
            h
        }
    }
}

/// Sort key: hash first, symbol index to break ties.
pub open spec fn exp_key(e: ExportEntry) -> int {
    e.hash * 0x1_0000_0000 + e.symbol
}

pub open spec fn sorted_exports(s: Seq<ExportEntry>) -> bool {
    forall|a: int, b: int| 0 <= a < b < s.len() ==> exp_key(#[trigger] s[a]) <= exp_key(#[trigger] s[b])
}

/// Copy-and-extract-minimum sort by the export key.
#[verifier::loop_isolation(false)]
fn sort_exports(v: &Vec<ExportEntry>) -> (out: Vec<ExportEntry>)
    ensures
        out@.to_multiset() == v@.to_multiset(),
        sorted_exports(out@),
{
    broadcast use vstd::seq_lib::group_to_multiset_ensures;
    broadcast use vstd::multiset::group_multiset_axioms;

    let mut rest: Vec<ExportEntry> = Vec::new();
    let mut q: usize = 0;
    while q < v.len()
        invariant
            q <= v@.len(),
            rest@ == v@.take(q as int),
        decreases v@.len() - q,
    {
        rest.push(v[q]);
        q = q + 1;
        proof {
            assert(rest@ =~= v@.take(q as int));
        }
    }
    proof {
        assert(v@.take(v@.len() as int) =~= v@);
    }
    let mut out: Vec<ExportEntry> = Vec::new();
    while rest.len() > 0
        invariant
            out@.to_multiset().add(rest@.to_multiset()) == v@.to_multiset(),
            sorted_exports(out@),
            forall|a: int, b: int|
                0 <= a < out@.len() && 0 <= b < rest@.len() ==> exp_key(#[trigger] out@[a])
                    <= exp_key(#[trigger] rest@[b]),
        decreases rest@.len(),
    {
        let mut mi: usize = 0;
        let mut k: usize = 1;
        while k < rest.len()
            invariant
                mi < rest@.len(),
                k <= rest@.len(),
                forall|t: int| 0 <= t < k ==> exp_key(rest@[mi as int]) <= exp_key(#[trigger] rest@[t]),
            decreases rest@.len() - k,
        {
            let a = rest[k];
            let b = rest[mi];
            let ka: u64 = (a.hash as u64) * 0x1_0000_0000 + a.symbol as u64;
            let kb: u64 = (b.hash as u64) * 0x1_0000_0000 + b.symbol as u64;
            if ka < kb {
                mi = k;
            }
            k = k + 1;
        }
        let ghost pre = rest@;
        let ghost pre_out = out@;
        let e = rest.remove(mi);
        proof {
            assert(rest@ == pre.remove(mi as int));
            assert(e == pre[mi as int]);
            assert(pre.contains(e));
            assert(rest@.to_multiset() =~= pre.to_multiset().remove(e));
        }
        out.push(e);
        proof {
            assert(out@.to_multiset() =~= pre_out.to_multiset().insert(e));
            assert(out@.to_multiset().add(rest@.to_multiset()) =~= v@.to_multiset());
            assert forall|b: int| 0 <= b < rest@.len() implies exp_key(e) <= exp_key(
                #[trigger] rest@[b],
            ) by {
                if b < mi {
                    assert(rest@[b] == pre[b]);
                } else {
                    assert(rest@[b] == pre[b + 1]);
                }
            }
        }
    }
    proof {
        assert(rest@.to_multiset() =~= Multiset::<ExportEntry>::empty());
        assert(out@.to_multiset() =~= v@.to_multiset());
    }
    out
}

/// Builds the export table the loader searches: one entry per defined
/// non-local symbol, hashed by name, sorted by hash ascending (symbol index
/// breaking ties).
#[verifier::loop_isolation(false)]
pub fn build_export_table(m: &Module) -> (t: Vec<ExportEntry>)
    requires
        module_wf(*m),
    ensures
        t@.to_multiset() == exports_upto(*m, m.symbols@.len() as int).to_multiset(),
        sorted_exports(t@),
        forall|a: int, b: int| 0 <= a < b < t@.len() ==> #[trigger] t@[a].hash <= #[trigger] t@[b].hash,
{
    let n = m.symbols.len();
    let mut raw: Vec<ExportEntry> = Vec::new();
    let mut j: usize = 0;
    while j < n
        invariant
            j <= n,
            raw@ == exports_upto(*m, j as int),
        decreases n - j,
    {
        let s = &m.symbols[j];
        let is_exp = !matches!(s.binding, SymbolBinding::Local) && matches!(s.section, Some(_));
        if is_exp {
            let h = name_hash(&s.name);
            raw.push(ExportEntry { hash: h, symbol: j as u32 });
        }
        j = j + 1;
    }
    let t = sort_exports(&raw);
    proof {
        assert forall|a: int, b: int| 0 <= a < b < t@.len() implies #[trigger] t@[a].hash
            <= #[trigger] t@[b].hash by {
            assert(exp_key(t@[a]) <= exp_key(t@[b]));
        }
    }
    t
}

pub open spec fn enc_export(e: ExportEntry) -> Seq<u8> {
    be32(e.hash) + be32(e.symbol)
}

pub open spec fn enc_exports(s: Seq<ExportEntry>) -> Seq<u8>
    decreases s.len(),
{
    if s.len() == 0 {
        Seq::empty()
    } else {
        enc_exports(s.drop_last()) + enc_export(s.last())
    }
}

proof fn lemma_enc_exports_take(s: Seq<ExportEntry>, i: int)
    requires
        0 <= i < s.len(),
    ensures
        enc_exports(s.take(i + 1)) == enc_exports(s.take(i)) + enc_export(s[i]),
{
    assert(s.take(i + 1).drop_last() =~= s.take(i));
    assert(s.take(i + 1).last() == s[i]);
}

/// The fixed leading words: magic, version, module identifier, the two
/// link-header words — load-time metadata, always zero at rest — and the
/// table counts.
pub open spec fn rso_header(m: Module, ex: Seq<ExportEntry>) -> Seq<u8> {
    be32(RSO_MAGIC) + be32(m.version) + be32(m.module_id) + be32(0) + be32(0) + be32(
        m.sections@.len() as u32,
    ) + be32(m.symbols@.len() as u32) + be32(m.relocations@.len() as u32) + be32(ex.len() as u32)
}

/// The one at-rest byte spelling of a module and its export table.
pub open spec fn spec_encode_rso(m: Module, ex: Seq<ExportEntry>) -> Seq<u8> {
    rso_header(m, ex) + enc_sections(m.sections@) + enc_symbols(m.symbols@) + enc_relocs(
        m.relocations@,
    ) + enc_exports(ex)
}

/// Whether `n` export records (eight bytes each) sit at `pos`.
pub open spec fn exps_ok(b: Seq<u8>, pos: int, n: nat) -> Option<int>
    decreases n,
{
    if n == 0 {
        Option::Some(pos)
    } else if pos + 8 > b.len() {
        Option::None
    } else {
        exps_ok(b, pos + 8, (n - 1) as nat)
    }
}

/// The buffers the shared-object decoder accepts: a sound header — the two
/// link-header words unconstrained, since at rest they may hold runtime
/// garbage — followed by exactly the announced records, every index and
/// bound valid, nothing after them. `decode_rso` succeeds on exactly these.
pub open spec fn spec_rso_ok(b: Seq<u8>) -> bool {
    &&& b.len() >= 36
    &&& read_be32(b, 0) == RSO_MAGIC
    &&& match secs_ok(b, Seq::empty(), 36, read_be32(b, 20) as nat) {
        Option::None => false,
        Option::Some(r) => match syms_ok(b, r.0, r.1, read_be32(b, 24) as nat) {
            Option::None => false,
            Option::Some(p2) => match rels_ok(
                b,
                r.0,
                read_be32(b, 24) as int,
                p2,
                read_be32(b, 28) as nat,
            ) {
                Option::None => false,
                Option::Some(p3) => match exps_ok(b, p3, read_be32(b, 32) as nat) {
                    Option::None => false,
                    Option::Some(p4) => p4 == b.len(),
                },
            },
        },
    }
}

/// A buffer with its link-header words blanked, as the format defines them
/// at rest.
pub open spec fn zero_link(b: Seq<u8>) -> Seq<u8> {
    b.update(12, 0u8).update(13, 0u8).update(14, 0u8).update(15, 0u8).update(16, 0u8).update(
        17,
        0u8,
    ).update(18, 0u8).update(19, 0u8)
}

/// Blanking the link words touches exactly bytes 12 through 19, and the
/// blanked header spells the original words with two zeros in their place.
pub proof fn lemma_link_blank_prefix(b: Seq<u8>)
    requires
        b.len() >= 36,
    ensures
        zero_link(b).len() == b.len(),
        forall|k: int| 0 <= k < 12 ==> zero_link(b)[k] == b[k],
        forall|k: int| 20 <= k < b.len() ==> zero_link(b)[k] == b[k],
        zero_link(b).subrange(0, 36) =~= be32(read_be32(b, 0)) + be32(read_be32(b, 4)) + be32(
            read_be32(b, 8),
        ) + be32(0) + be32(0) + be32(read_be32(b, 20)) + be32(read_be32(b, 24)) + be32(
            read_be32(b, 28),
        ) + be32(read_be32(b, 32)),
{
    let zb = zero_link(b);
    assert((0u32 >> 24) & 0xff == 0 && (0u32 >> 16) & 0xff == 0 && (0u32 >> 8) & 0xff == 0
        && 0u32 & 0xff == 0) by (bit_vector);
    assert(be32(0u32) =~= seq![0u8, 0u8, 0u8, 0u8]);
    crate::wire::lemma_be32_of_read(b, 0);
    crate::wire::lemma_be32_of_read(b, 4);
    crate::wire::lemma_be32_of_read(b, 8);
    crate::wire::lemma_be32_of_read(b, 20);
    crate::wire::lemma_be32_of_read(b, 24);
    crate::wire::lemma_be32_of_read(b, 28);
    crate::wire::lemma_be32_of_read(b, 32);
    assert(zb.subrange(0, 4) =~= be32(read_be32(b, 0)));
    assert(zb.subrange(4, 8) =~= be32(read_be32(b, 4)));
    assert(zb.subrange(8, 12) =~= be32(read_be32(b, 8)));
    assert(zb.subrange(12, 16) =~= be32(0u32));
    assert(zb.subrange(16, 20) =~= be32(0u32));
    assert(zb.subrange(20, 24) =~= be32(read_be32(b, 20)));
    assert(zb.subrange(24, 28) =~= be32(read_be32(b, 24)));
    assert(zb.subrange(28, 32) =~= be32(read_be32(b, 28)));
    assert(zb.subrange(32, 36) =~= be32(read_be32(b, 32)));
    assert(zb.subrange(0, 36) =~= zb.subrange(0, 4) + zb.subrange(4, 8) + zb.subrange(8, 12)
        + zb.subrange(12, 16) + zb.subrange(16, 20) + zb.subrange(20, 24) + zb.subrange(24, 28)
        + zb.subrange(28, 32) + zb.subrange(32, 36));
}

/// Emits a module and its export table; the link-header words are written
/// as zero.
#[verifier::loop_isolation(false)]
#[verifier::rlimit(100)]
pub fn encode_rso(m: &Module, ex: &Vec<ExportEntry>) -> (out: Vec<u8>)
    requires
        module_wf(*m),
        ex@.len() <= u32::MAX,
    ensures
        out@ == spec_encode_rso(*m, ex@),
{
    let mut out: Vec<u8> = Vec::new();
    push_be32(&mut out, RSO_MAGIC);
    push_be32(&mut out, m.version);
    push_be32(&mut out, m.module_id);
    push_be32(&mut out, 0);
    push_be32(&mut out, 0);
    push_be32(&mut out, m.sections.len() as u32);
    push_be32(&mut out, m.symbols.len() as u32);
    push_be32(&mut out, m.relocations.len() as u32);
    push_be32(&mut out, ex.len() as u32);
    proof {
        assert(out@ =~= rso_header(*m, ex@));
    }
    let ghost header: Seq<u8> = out@;
    crate::elf::push_tables(m, &mut out);
    let ghost base3: Seq<u8> = header + enc_sections(m.sections@) + enc_symbols(m.symbols@)
        + enc_relocs(m.relocations@);
    let mut i: usize = 0;
    while i < ex.len()
        invariant
            i <= ex@.len(),
            out@ == base3 + enc_exports(ex@.take(i as int)),
        decreases ex@.len() - i,
    {
        let e = ex[i];
        push_be32(&mut out, e.hash);
        push_be32(&mut out, e.symbol);
        proof {
            lemma_enc_exports_take(ex@, i as int);
            assert(out@ =~= base3 + enc_exports(ex@.take(i + 1)));
        }
        i = i + 1;
    }
    proof {
        assert(ex@.take(ex@.len() as int) =~= ex@);
        assert(out@ =~= spec_encode_rso(*m, ex@));
    }
    out
}

/// Decodes a dynamic shared object, validating indices and bounds as the
/// object decoder does. The link-header words are tolerated whatever they
/// hold — on a dumped module they are runtime garbage — and ignored: on
/// success the buffer with those words blanked is exactly the result's one
/// at-rest spelling, so a following encode reproduces it with the header
/// zeroed.
#[verifier::rlimit(60)]
pub fn decode_rso(b: &Vec<u8>) -> (res: Result<(Module, Vec<ExportEntry>), DecodeError>)
    ensures
        match res {
            Result::Ok(r) => {
                &&& module_wf(r.0)
                &&& r.0.ranges@.len() == 0
                &&& r.0.entry is None
                &&& r.1@.len() <= u32::MAX
                &&& zero_link(b@) == spec_encode_rso(r.0, r.1@)
                &&& spec_rso_ok(b@)
            },
            Result::Err(_) => !spec_rso_ok(b@),
        },
{
    let (magic, p1) = match take_be32(b, 0) {
        Ok(r) => r,
        Err(e) => { return Err(e); },
    };
    if magic != RSO_MAGIC {
        return Err(DecodeError::BadMagic { found: magic });
    }
    let (version, p2) = match take_be32(b, p1) {
        Ok(r) => r,
        Err(e) => { return Err(e); },
    };
    let (module_id, p3) = match take_be32(b, p2) {
        Ok(r) => r,
        Err(e) => { return Err(e); },
    };
    let (_prev, p4) = match take_be32(b, p3) {
        Ok(r) => r,
        Err(e) => { return Err(e); },
    };
    let (_next, p5) = match take_be32(b, p4) {
        Ok(r) => r,
        Err(e) => { return Err(e); },
    };
    let (n_sections, p6) = match take_be32(b, p5) {
        Ok(r) => r,
        Err(e) => { return Err(e); },
    };
    let (n_symbols, p7) = match take_be32(b, p6) {
        Ok(r) => r,
        Err(e) => { return Err(e); },
    };
    let (n_relocs, p8) = match take_be32(b, p7) {
        Ok(r) => r,
        Err(e) => { return Err(e); },
    };
    let (n_exports, p9) = match take_be32(b, p8) {
        Ok(r) => r,
        Err(e) => { return Err(e); },
    };
    let ghost zb: Seq<u8> = zero_link(b@);
    let ghost header: Seq<u8> = be32(RSO_MAGIC) + be32(version) + be32(module_id) + be32(0) + be32(
        0,
    ) + be32(n_sections) + be32(n_symbols) + be32(n_relocs) + be32(n_exports);
    proof {
        lemma_link_blank_prefix(b@);
        assert(zb.subrange(0, p9 as int) =~= header);
    }
    let mut secs: Vec<crate::obj::Section> = Vec::new();
    let mut pos = p9;
    let mut i: u32 = 0;
    proof {
        assert(sec_lens(secs@) =~= Seq::<int>::empty());
    }
    while i < n_sections
        invariant
            i <= n_sections,
            pos <= b@.len(),
            20 <= pos,
            secs@.len() == i,
            p9 == 36,
            n_sections == read_be32(b@, 20),
            zb == zero_link(b@),
            zb.len() == b@.len(),
            zb.subrange(0, pos as int) == header + enc_sections(secs@),
            secs_ok(b@, Seq::empty(), 36, n_sections as nat) == secs_ok(
                b@,
                sec_lens(secs@),
                pos as int,
                (n_sections - i) as nat,
            ),
            forall|k: int| 0 <= k < secs@.len() ==> crate::obj::section_wf(#[trigger] secs@[k]),
        decreases n_sections - i,
    {
        let (s, p) = match parse_section(b, pos) {
            Ok(r) => r,
            Err(e) => {
                proof {
                    assert(secs_ok(b@, Seq::empty(), 36, read_be32(b@, 20) as nat) is None);
                    assert(!spec_rso_ok(b@));
                }
                return Err(e);
            },
        };
        proof {
            assert(secs@.push(s).drop_last() =~= secs@);
            assert(zb.subrange(pos as int, p as int) =~= b@.subrange(pos as int, p as int));
            assert(zb.subrange(0, p as int) =~= zb.subrange(0, pos as int) + zb.subrange(
                pos as int,
                p as int,
            ));
            assert(zb.subrange(0, p as int) =~= header + enc_sections(secs@.push(s)));
            assert(sec_lens(secs@.push(s)) =~= sec_lens(secs@).push(s.data@.len() as int));
        }
        secs.push(s);
        pos = p;
        i = i + 1;
    }
    let mut syms: Vec<crate::obj::Symbol> = Vec::new();
    let ghost base: Seq<u8> = header + enc_sections(secs@);
    let ghost pos_syms: int = pos as int;
    let mut i: u32 = 0;
    while i < n_symbols
        invariant
            i <= n_symbols,
            pos <= b@.len(),
            20 <= pos,
            syms@.len() == i,
            secs@.len() == n_sections,
            n_sections == read_be32(b@, 20),
            n_symbols == read_be32(b@, 24),
            zb == zero_link(b@),
            zb.len() == b@.len(),
            base == header + enc_sections(secs@),
            zb.subrange(0, pos as int) == base + enc_symbols(syms@),
            secs_ok(b@, Seq::empty(), 36, read_be32(b@, 20) as nat) == Option::Some(
                (sec_lens(secs@), pos_syms),
            ),
            syms_ok(b@, sec_lens(secs@), pos_syms, n_symbols as nat) == syms_ok(
                b@,
                sec_lens(secs@),
                pos as int,
                (n_symbols - i) as nat,
            ),
            forall|k: int| 0 <= k < secs@.len() ==> crate::obj::section_wf(#[trigger] secs@[k]),
            forall|k: int|
                0 <= k < syms@.len() ==> crate::obj::symbol_wf(secs@, #[trigger] syms@[k]),
        decreases n_symbols - i,
    {
        let (s, p) = match parse_symbol(b, pos, &secs) {
            Ok(r) => r,
            Err(e) => {
                proof {
                    assert(syms_ok(
                        b@,
                        sec_lens(secs@),
                        pos_syms,
                        read_be32(b@, 24) as nat,
                    ) is None);
                    assert(!spec_rso_ok(b@));
                }
                return Err(e);
            },
        };
        proof {
            assert(syms@.push(s).drop_last() =~= syms@);
            assert(zb.subrange(pos as int, p as int) =~= b@.subrange(pos as int, p as int));
            assert(zb.subrange(0, p as int) =~= zb.subrange(0, pos as int) + zb.subrange(
                pos as int,
                p as int,
            ));
            assert(zb.subrange(0, p as int) =~= base + enc_symbols(syms@.push(s)));
        }
        syms.push(s);
        pos = p;
        i = i + 1;
    }
    let mut rels: Vec<crate::obj::Relocation> = Vec::new();
    let ghost base2: Seq<u8> = base + enc_symbols(syms@);
    let ghost pos_rels: int = pos as int;
    let mut i: u32 = 0;
    while i < n_relocs
        invariant
            i <= n_relocs,
            pos <= b@.len(),
            20 <= pos,
            rels@.len() == i,
            secs@.len() == n_sections,
            syms@.len() == n_symbols,
            n_sections == read_be32(b@, 20),
            n_symbols == read_be32(b@, 24),
            n_relocs == read_be32(b@, 28),
            zb == zero_link(b@),
            zb.len() == b@.len(),
            base2 == header + enc_sections(secs@) + enc_symbols(syms@),
            zb.subrange(0, pos as int) == base2 + enc_relocs(rels@),
            secs_ok(b@, Seq::empty(), 36, read_be32(b@, 20) as nat) == Option::Some(
                (sec_lens(secs@), pos_syms),
            ),
            syms_ok(b@, sec_lens(secs@), pos_syms, read_be32(b@, 24) as nat) == Option::Some(
                pos_rels,
            ),
            rels_ok(b@, sec_lens(secs@), n_symbols as int, pos_rels, n_relocs as nat) == rels_ok(
                b@,
                sec_lens(secs@),
                n_symbols as int,
                pos as int,
                (n_relocs - i) as nat,
            ),
            forall|k: int| 0 <= k < secs@.len() ==> crate::obj::section_wf(#[trigger] secs@[k]),
            forall|k: int|
                0 <= k < syms@.len() ==> crate::obj::symbol_wf(secs@, #[trigger] syms@[k]),
            forall|k: int|
                0 <= k < rels@.len() ==> crate::obj::reloc_wf(
                    secs@,
                    n_symbols as int,
                    #[trigger] rels@[k],
                ),
        decreases n_relocs - i,
    {
        let (r, p) = match parse_reloc(b, pos, &secs, n_symbols) {
            Ok(x) => x,
            Err(e) => {
                proof {
                    assert(rels_ok(
                        b@,
                        sec_lens(secs@),
                        read_be32(b@, 24) as int,
                        pos_rels,
                        read_be32(b@, 28) as nat,
                    ) is None);
                    assert(!spec_rso_ok(b@));
                }
                return Err(e);
            },
        };
        proof {
            assert(rels@.push(r).drop_last() =~= rels@);
            assert(zb.subrange(pos as int, p as int) =~= b@.subrange(pos as int, p as int));
            assert(zb.subrange(0, p as int) =~= zb.subrange(0, pos as int) + zb.subrange(
                pos as int,
                p as int,
            ));
            assert(zb.subrange(0, p as int) =~= base2 + enc_relocs(rels@.push(r)));
        }
        rels.push(r);
        pos = p;
        i = i + 1;
    }
    let mut exps: Vec<ExportEntry> = Vec::new();
    let ghost base3: Seq<u8> = base2 + enc_relocs(rels@);
    let ghost pos_exps: int = pos as int;
    let mut i: u32 = 0;
    while i < n_exports
        invariant
            i <= n_exports,
            pos <= b@.len(),
            20 <= pos,
            exps@.len() == i,
            n_sections == read_be32(b@, 20),
            n_symbols == read_be32(b@, 24),
            n_relocs == read_be32(b@, 28),
            n_exports == read_be32(b@, 32),
            zb == zero_link(b@),
            zb.len() == b@.len(),
            zb.subrange(0, pos as int) == base3 + enc_exports(exps@),
            secs_ok(b@, Seq::empty(), 36, read_be32(b@, 20) as nat) == Option::Some(
                (sec_lens(secs@), pos_syms),
            ),
            syms_ok(b@, sec_lens(secs@), pos_syms, read_be32(b@, 24) as nat) == Option::Some(
                pos_rels,
            ),
            rels_ok(b@, sec_lens(secs@), read_be32(b@, 24) as int, pos_rels, read_be32(
                b@,
                28,
            ) as nat) == Option::Some(pos_exps),
            exps_ok(b@, pos_exps, n_exports as nat) == exps_ok(
                b@,
                pos as int,
                (n_exports - i) as nat,
            ),
        decreases n_exports - i,
    {
        let (h, p_a) = match take_be32(b, pos) {
            Ok(r) => r,
            Err(e) => {
                proof {
                    assert(exps_ok(b@, pos_exps, read_be32(b@, 32) as nat) is None);
                    assert(!spec_rso_ok(b@));
                }
                return Err(e);
            },
        };
        let (sy, p_b) = match take_be32(b, p_a) {
            Ok(r) => r,
            Err(e) => {
                proof {
                    assert(exps_ok(b@, pos_exps, read_be32(b@, 32) as nat) is None);
                    assert(!spec_rso_ok(b@));
                }
                return Err(e);
            },
        };
        let e = ExportEntry { hash: h, symbol: sy };
        proof {
            assert(exps@.push(e).drop_last() =~= exps@);
            assert(zb.subrange(pos as int, p_b as int) =~= b@.subrange(pos as int, p_b as int));
            assert(zb.subrange(pos as int, p_b as int) =~= enc_export(e));
            assert(zb.subrange(0, p_b as int) =~= zb.subrange(0, pos as int) + zb.subrange(
                pos as int,
                p_b as int,
            ));
            assert(zb.subrange(0, p_b as int) =~= base3 + enc_exports(exps@.push(e)));
        }
        exps.push(e);
        pos = p_b;
        i = i + 1;
    }
    if pos != b.len() {
        proof {
            assert(!spec_rso_ok(b@));
        }
        return Err(DecodeError::Trailing { offset: pos });
    }
    proof {
        assert(spec_rso_ok(b@));
    }
    let m = Module {
        module_id,
        version,
        entry: None,
        sections: secs,
        symbols: syms,
        relocations: rels,
        ranges: Vec::new(),
    };
    proof {
        assert(module_wf(m));
        assert(header =~= rso_header(m, exps@));
        assert(zb =~= zb.subrange(0, pos as int));
        assert(zb =~= spec_encode_rso(m, exps@));
    }
    Ok((m, exps))
}

} // verus!
