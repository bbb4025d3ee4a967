//! The relocation resolver: computes every relocation's target address,
//! classifies it, computes the patched word per relocation kind, detects
//! overflow of the target bit field as a hard failure, and reports
//! suspicious-but-representable combinations as warnings.
use vstd::prelude::*;

use crate::obj::{module_wf, Module, RelocKind, Relocation, SectionKind, Symbol, SymbolBinding};
use crate::wire::read_be32;
use crate::elf::i32_bits;

verus! {

/// Where a relocation's target lives relative to its patch site.
#[derive(Clone, Copy, PartialEq, Eq, Structural, Debug)]
pub enum RelocClass {
    /// Target symbol lives in the same section as the patch site.
    Internal,
    /// Target symbol lives in another section of the same module.
    CrossSection,
    /// Target symbol is external: resolution may complete later against
    /// another module, so this is a valid resting state, not a failure.
    Import,
}

/// Outcome of resolving one relocation.
#[derive(Clone, Copy, PartialEq, Eq, Structural, Debug)]
pub struct Resolution {
    pub class: RelocClass,
    /// The resolved target address (symbol address plus addend); zero for an
    /// import, whose address is not yet known.
    pub address: u32,
    /// The word the patch site must hold; for an import, the site's current
    /// word, unchanged.
    pub patched: u32,
}

/// A hard resolution failure: encoding would corrupt a runtime address, so
/// the operation that needs the value must fail rather than truncate.
#[derive(Clone, Copy, PartialEq, Eq, Structural, Debug)]
pub enum ResolveError {
    /// Symbol address plus addend leaves the 32-bit address space.
    AddressOverflow { reloc: u32 },
    /// A branch displacement does not fit the 24-bit signed field.
    BranchOverflow { reloc: u32 },
    /// A branch displacement is not word-aligned.
    BranchUnaligned { reloc: u32 },
}

/// A suspicious but representable combination: recorded, never fatal.
#[derive(Clone, Copy, PartialEq, Eq, Structural, Debug)]
pub enum Warning {
    /// Two defined global symbols share one name; the first wins.
    DuplicateGlobal { first: u32, second: u32 },
    /// A call-relative relocation targets a symbol that is not a function.
    KindMismatch { reloc: u32 },
    /// A call-relative relocation targets a symbol outside any code section.
    SectionMismatch { reloc: u32 },
}

/// The absolute (or module-relative) address of a defined symbol.
pub open spec fn spec_symbol_address(m: Module, s: Symbol) -> int {
    m.sections@[s.section->Some_0 as int].address + s.offset
}

/// The address a relocation must point at: symbol address plus addend.
pub open spec fn spec_target(m: Module, r: Relocation) -> int {
    spec_symbol_address(m, m.symbols@[r.symbol as int]) + r.addend
}

/// The address of the patched word itself.
pub open spec fn spec_loc(m: Module, r: Relocation) -> int {
    m.sections@[r.section as int].address + r.offset
}

pub open spec fn spec_class(m: Module, r: Relocation) -> RelocClass {
    match m.symbols@[r.symbol as int].section {
        Option::Some(si) => if si == r.section {
            RelocClass::Internal
        } else {
            RelocClass::CrossSection
        },
        Option::None => RelocClass::Import,
    }
}

/// The word currently at the patch site.
pub open spec fn spec_old_word(m: Module, r: Relocation) -> u32 {
    read_be32(m.sections@[r.section as int].data@, r.offset as int)
}

/// Why resolving relocation `i` must fail, if it must.
pub open spec fn reloc_error(m: Module, i: int) -> Option<ResolveError> {
    let r = m.relocations@[i];
    if spec_class(m, r) == RelocClass::Import {
        Option::None
    } else {
        let t = spec_target(m, r);
        let l = spec_loc(m, r);
        if !(0 <= t <= u32::MAX) || !(0 <= l <= u32::MAX) {
            Option::Some(ResolveError::AddressOverflow { reloc: i as u32 })
        } else if r.kind == RelocKind::Rel24 {
            if !(-0x0200_0000 <= t - l < 0x0200_0000) {
                Option::Some(ResolveError::BranchOverflow { reloc: i as u32 })
            } else if i32_bits((t - l) as i32) & 3 != 0 {
                Option::Some(ResolveError::BranchUnaligned { reloc: i as u32 })
            } else {
                Option::None
            }
        } else {
            Option::None
        }
    }
}

/// The word the patch site must hold once the target address is known.
pub open spec fn spec_patched(m: Module, r: Relocation) -> u32 {
    let t = spec_target(m, r);
    let l = spec_loc(m, r);
    let w = spec_old_word(m, r);
    match r.kind {
        RelocKind::Abs32 => t as u32,
        RelocKind::Rel24 => (w & 0xFC00_0003) | (i32_bits((t - l) as i32) & 0x03FF_FFFC),
        RelocKind::Hi16 => (w & 0xFFFF_0000) | (((t as u32) >> 16) & 0xFFFF),
        RelocKind::Lo16 => (w & 0xFFFF_0000) | ((t as u32) & 0xFFFF),
    }
}

/// What resolving relocation `i` yields when it does not fail.
pub open spec fn spec_resolution(m: Module, i: int) -> Resolution {
    let r = m.relocations@[i];
    if spec_class(m, r) == RelocClass::Import {
        Resolution { class: RelocClass::Import, address: 0, patched: spec_old_word(m, r) }
    } else {
        Resolution {
            class: spec_class(m, r),
            address: spec_target(m, r) as u32,
            patched: spec_patched(m, r),
        }
    }
}

/// Resolves every relocation of the module: succeeds if and only if no
/// non-import relocation overflows its field, and then returns exactly one
/// resolution per relocation; otherwise reports the first failing
/// relocation and computes nothing else.
pub fn resolve(m: &Module) -> (res: Result<Vec<Resolution>, ResolveError>)
    requires
        module_wf(*m),
    ensures
        match res {
            Result::Ok(rs) => {
                &&& rs@.len() == m.relocations@.len()
                &&& forall|i: int|
                    0 <= i < rs@.len() ==> #[trigger] rs@[i] == spec_resolution(*m, i)
                &&& forall|i: int|
                    0 <= i < m.relocations@.len() ==> #[trigger] reloc_error(*m, i) is None
            },
            Result::Err(e) => exists|i: int|
                {
                    &&& 0 <= i < m.relocations@.len()
                    &&& #[trigger] reloc_error(*m, i) == Option::Some(e)
                    &&& forall|k: int| 0 <= k < i ==> #[trigger] reloc_error(*m, k) is None
                },
        },
{
    let mut out: Vec<Resolution> = Vec::new();
    let n = m.relocations.len();
    let mut i: usize = 0;
    while i < n
        invariant
            module_wf(*m),
            n == m.relocations@.len(),
            i <= n,
            out@.len() == i,
            forall|k: int| 0 <= k < i ==> #[trigger] out@[k] == spec_resolution(*m, k),
            forall|k: int| 0 <= k < i ==> #[trigger] reloc_error(*m, k) is None,
        decreases n - i,
    {
        let r = m.relocations[i];
        let sym = &m.symbols[r.symbol as usize];
        match sym.section {
            None => {
                let sec = &m.sections[r.section as usize];
                let w = crate::wire::get_be32(&sec.data, r.offset as usize);
                out.push(Resolution { class: RelocClass::Import, address: 0, patched: w });
            },
            Some(si) => {
                let class = if si == r.section {
                    RelocClass::Internal
                } else {
                    RelocClass::CrossSection
                };
                let t: i64 = m.sections[si as usize].address as i64 + sym.offset as i64
                    + r.addend as i64;
                let l: i64 = m.sections[r.section as usize].address as i64 + r.offset as i64;
                assert(t == spec_target(*m, r));
                assert(l == spec_loc(*m, r));
                if t < 0 || t > u32::MAX as i64 || l > u32::MAX as i64 {
                    proof {
                        assert(reloc_error(*m, i as int) == Option::Some(
                            ResolveError::AddressOverflow { reloc: i as u32 },
                        ));
                    }
                    return Err(ResolveError::AddressOverflow { reloc: i as u32 });
                }
                let sec = &m.sections[r.section as usize];
                let w = crate::wire::get_be32(&sec.data, r.offset as usize);
                let patched: u32 = match r.kind {
                    RelocKind::Abs32 => t as u32,
                    RelocKind::Rel24 => {
                        let d: i64 = t - l;
                        if d < -0x0200_0000 || d >= 0x0200_0000 {
                            proof {
                                assert(reloc_error(*m, i as int) == Option::Some(
                                    ResolveError::BranchOverflow { reloc: i as u32 },
                                ));
                            }
                            return Err(ResolveError::BranchOverflow { reloc: i as u32 });
                        }
                        let bits: u32 = if d >= 0 {
                            d as u32
                        } else {
                            (d + 0x1_0000_0000) as u32
                        };
                        assert(bits == i32_bits(d as i32));
                        if bits & 3 != 0 {
                            proof {
                                assert(reloc_error(*m, i as int) == Option::Some(
                                    ResolveError::BranchUnaligned { reloc: i as u32 },
                                ));
                            }
                            return Err(ResolveError::BranchUnaligned { reloc: i as u32 });
                        }
                        (w & 0xFC00_0003) | (bits & 0x03FF_FFFC)
                    },
                    RelocKind::Hi16 => (w & 0xFFFF_0000) | (((t as u32) >> 16) & 0xFFFF),
                    RelocKind::Lo16 => (w & 0xFFFF_0000) | ((t as u32) & 0xFFFF),
                };
                assert(patched == spec_patched(*m, r));
                out.push(Resolution { class, address: t as u32, patched });
            },
        }
        i = i + 1;
    }
    Ok(out)
}

/// One patched section list: relocation `k - 1`'s word written, earlier ones
/// already applied; imports leave the bytes unchanged.
pub open spec fn spec_patch_data(d: Seq<u8>, off: int, w: u32) -> Seq<u8> {
    d.update(off, crate::wire::be32(w)[0]).update(off + 1, crate::wire::be32(w)[1]).update(
        off + 2,
        crate::wire::be32(w)[2],
    ).update(off + 3, crate::wire::be32(w)[3])
}

/// The data arrays of a section list.
pub open spec fn section_datas(ss: Seq<crate::obj::Section>) -> Seq<Seq<u8>> {
    ss.map_values(|s: crate::obj::Section| s.data@)
}

pub open spec fn patch_one(ds: Seq<Seq<u8>>, r: Relocation, v: Resolution) -> Seq<Seq<u8>> {
    if v.class == RelocClass::Import {
        ds
    } else {
        ds.update(r.section as int, spec_patch_data(ds[r.section as int], r.offset as int, v.patched))
    }
}

pub open spec fn patch_all(
    ds: Seq<Seq<u8>>,
    rels: Seq<Relocation>,
    res: Seq<Resolution>,
    k: int,
) -> Seq<Seq<u8>>
    decreases k,
{
    if k <= 0 {
        ds
    } else {
        patch_one(patch_all(ds, rels, res, k - 1), rels[k - 1], res[k - 1])
    }
}

/// Writes every resolved word into its section's bytes; bytes outside the
/// patch sites and everything else in the module stay as they were.
pub fn apply_resolutions(m: &mut Module, res: &Vec<Resolution>)
    requires
        module_wf(*old(m)),
        res@.len() == old(m).relocations@.len(),
    ensures
        module_wf(*final(m)),
        final(m).sections@.len() == old(m).sections@.len(),
        section_datas(final(m).sections@) == patch_all(
            section_datas(old(m).sections@),
            old(m).relocations@,
            res@,
            res@.len() as int,
        ),
        forall|k: int|
            0 <= k < old(m).sections@.len() ==> {
                &&& (#[trigger] final(m).sections@[k]).name@ == old(m).sections@[k].name@
                &&& final(m).sections@[k].kind == old(m).sections@[k].kind
                &&& final(m).sections@[k].align == old(m).sections@[k].align
                &&& final(m).sections@[k].address == old(m).sections@[k].address
            },
        final(m).symbols == old(m).symbols,
        final(m).relocations == old(m).relocations,
        final(m).ranges == old(m).ranges,
        final(m).module_id == old(m).module_id,
        final(m).version == old(m).version,
        final(m).entry == old(m).entry,
{
    let n = res.len();
    let mut i: usize = 0;
    while i < n
        invariant
            module_wf(*m),
            n == res@.len(),
            res@.len() == old(m).relocations@.len(),
            i <= n,
            section_datas(m.sections@) == patch_all(
                section_datas(old(m).sections@),
                old(m).relocations@,
                res@,
                i as int,
            ),
            m.sections@.len() == old(m).sections@.len(),
            forall|k: int|
                0 <= k < m.sections@.len() ==> {
                    &&& (#[trigger] m.sections@[k]).data@.len() == old(
                        m,
                    ).sections@[k].data@.len()
                    &&& m.sections@[k].name@ == old(m).sections@[k].name@
                    &&& m.sections@[k].kind == old(m).sections@[k].kind
                    &&& m.sections@[k].align == old(m).sections@[k].align
                    &&& m.sections@[k].address == old(m).sections@[k].address
                },
            m.symbols == old(m).symbols,
            m.relocations == old(m).relocations,
            m.ranges == old(m).ranges,
            m.module_id == old(m).module_id,
            m.version == old(m).version,
            m.entry == old(m).entry,
        decreases n - i,
    {
        let r = m.relocations[i];
        let v = res[i];
        assert(crate::obj::reloc_wf(old(m).sections@, old(m).symbols@.len() as int, r));
        if !matches!(v.class, RelocClass::Import) {
            let w = v.patched;
            let off = r.offset as usize;
            let ghost before = m.sections@;
            let sec = &mut m.sections[r.section as usize];
            sec.data[off] = (((w >> 24) & 0xff) as u8);
            sec.data[off + 1] = (((w >> 16) & 0xff) as u8);
            sec.data[off + 2] = (((w >> 8) & 0xff) as u8);
            sec.data[off + 3] = ((w & 0xff) as u8);
        }
        proof {
            assert(section_datas(m.sections@) =~~= patch_all(
                section_datas(old(m).sections@),
                old(m).relocations@,
                res@,
                i + 1,
            ));
        }
        i = i + 1;
    }
}

/// Two sections would occupy intersecting address ranges once loaded at
/// their declared addresses.
pub open spec fn sections_overlap(a: crate::obj::Section, b: crate::obj::Section) -> bool {
    &&& a.data@.len() > 0
    &&& b.data@.len() > 0
    &&& a.address < b.address + b.data@.len()
    &&& b.address < a.address + a.data@.len()
}

/// Checks the layout invariant — sections of one module never overlap at
/// their declared addresses — and reports the first offending pair, in
/// lexicographic order, or nothing when the layout is sound.
#[verifier::loop_isolation(false)]
pub fn check_layout(m: &Module) -> (r: Option<(u32, u32)>)
    requires
        module_wf(*m),
    ensures
        match r {
            Option::Some(p) => {
                &&& (p.0 as int) < (p.1 as int) < m.sections@.len()
                &&& sections_overlap(m.sections@[p.0 as int], m.sections@[p.1 as int])
                &&& forall|a: int, b: int|
                    0 <= a < b < m.sections@.len() && (a < p.0 || (a == p.0 && b < p.1))
                        ==> !sections_overlap(
                        #[trigger] m.sections@[a],
                        #[trigger] m.sections@[b],
                    )
            },
            Option::None => forall|a: int, b: int|
                0 <= a < b < m.sections@.len() ==> !sections_overlap(
                    #[trigger] m.sections@[a],
                    #[trigger] m.sections@[b],
                ),
        },
{
    let n = m.sections.len();
    let mut i: usize = 0;
    while i < n
        invariant
            i <= n,
            forall|a: int, b: int|
                0 <= a < b < n && a < i ==> !sections_overlap(
                    #[trigger] m.sections@[a],
                    #[trigger] m.sections@[b],
                ),
        decreases n - i,
    {
        let mut j: usize = i + 1;
        while j < n
            invariant
                i < j <= n,
                forall|b: int|
                    i < b < j ==> !sections_overlap(
                        m.sections@[i as int],
                        #[trigger] m.sections@[b],
                    ),
            decreases n - j,
        {
            let a = &m.sections[i];
            let b = &m.sections[j];
            let hit = a.data.len() > 0 && b.data.len() > 0 && (a.address as u64)
                < b.address as u64 + b.data.len() as u64 && (b.address as u64)
                < a.address as u64 + a.data.len() as u64;
            if hit {
                return Some((i as u32, j as u32));
            }
            j = j + 1;
        }
        i = i + 1;
    }
    None
}

/// All pairs of colliding defined global symbols, each later duplicate
/// paired with the first global definition of its name, in ascending order
/// of the later index.
pub open spec fn is_global_def(s: Symbol) -> bool {
    s.binding == SymbolBinding::Global && s.section is Some
}

pub open spec fn names_collide(a: Symbol, b: Symbol) -> bool {
    is_global_def(a) && is_global_def(b) && a.name@ == b.name@
}

/// Index of the first defined global sharing `j`'s name, scanning below `j`.
pub open spec fn spec_first_collision(syms: Seq<Symbol>, j: int, k: int) -> Option<int>
    decreases j - k,
{
    if k >= j {
        Option::None
    } else if names_collide(syms[k], syms[j]) {
        Option::Some(k)
    } else {
        spec_first_collision(syms, j, k + 1)
    }
}

pub open spec fn spec_dups_upto(syms: Seq<Symbol>, j: int) -> Seq<Warning>
    decreases j,
{
    if j <= 0 {
        Seq::empty()
    } else {
        let head = spec_dups_upto(syms, j - 1);
        match spec_first_collision(syms, j - 1, 0) {
            Option::Some(f) => head.push(
                Warning::DuplicateGlobal { first: f as u32, second: (j - 1) as u32 },
            ),
            Option::None => head,
        }
    }
}

/// Reports every later global definition whose name an earlier global
/// definition already claimed: the resolver treats the first as the one
/// that wins and the rest as ambiguous.
pub fn duplicate_globals(m: &Module) -> (out: Vec<Warning>)
    requires
        module_wf(*m),
    ensures
        out@ == spec_dups_upto(m.symbols@, m.symbols@.len() as int),
{
    let n = m.symbols.len();
    let mut out: Vec<Warning> = Vec::new();
    let mut j: usize = 0;
    while j < n
        invariant
            module_wf(*m),
            n == m.symbols@.len(),
            j <= n,
            out@ == spec_dups_upto(m.symbols@, j as int),
        decreases n - j,
    {
        let mut found: Option<u32> = None;
        let mut k: usize = 0;
        while k < j
            invariant
                module_wf(*m),
                j < n,
                n == m.symbols@.len(),
                k <= j,
                match found {
                    Option::Some(f) => spec_first_collision(m.symbols@, j as int, 0)
                        == Option::Some(f as int) && (f as int) < (j as int),
                    Option::None => spec_first_collision(m.symbols@, j as int, k as int)
                        == spec_first_collision(m.symbols@, j as int, 0),
                },
                found is None ==> forall|t: int|
                    0 <= t < k ==> !names_collide(m.symbols@[t], m.symbols@[j as int]),
            decreases j - k,
        {
            if matches!(found, None) {
                let sk = &m.symbols[k];
                let sj = &m.symbols[j];
                let global_def_k = matches!(sk.binding, SymbolBinding::Global) && matches!(
                    sk.section,
                    Some(_),
                );
                let global_def_j = matches!(sj.binding, SymbolBinding::Global) && matches!(
                    sj.section,
                    Some(_),
                );
                if global_def_k && global_def_j && crate::wire::bytes_eq(&sk.name, &sj.name) {
                    assert(names_collide(m.symbols@[k as int], m.symbols@[j as int]));
                    found = Some(k as u32);
                } else {
                    assert(!names_collide(m.symbols@[k as int], m.symbols@[j as int]));
                }
            }
            k = k + 1;
        }
        match found {
            Some(f) => {
                out.push(Warning::DuplicateGlobal { first: f, second: j as u32 });
            },
            None => {
                proof {
                    assert(spec_first_collision(m.symbols@, j as int, j as int) is None);
                }
            },
        }
        j = j + 1;
    }
    out
}

/// Which warning relocation `i` deserves for a call-relative patch whose
/// target is not a function, or not in code.
pub open spec fn spec_reloc_warnings_upto(m: Module, i: int) -> Seq<Warning>
    decreases i,
{
    if i <= 0 {
        Seq::empty()
    } else {
        let head = spec_reloc_warnings_upto(m, i - 1);
        let r = m.relocations@[i - 1];
        let s = m.symbols@[r.symbol as int];
        let head2 = if r.kind == RelocKind::Rel24 && s.kind != crate::obj::SymbolKind::Function {
            head.push(Warning::KindMismatch { reloc: (i - 1) as u32 })
        } else {
            head
        };
        match s.section {
            Option::Some(si) => if r.kind == RelocKind::Rel24 && m.sections@[si as int].kind
                != SectionKind::Code {
                head2.push(Warning::SectionMismatch { reloc: (i - 1) as u32 })
            } else {
                head2
            },
            Option::None => head2,
        }
    }
}

/// Reports, in ascending relocation order, every call-relative relocation
/// aimed at a non-function symbol or at a symbol outside code: legitimate in
/// hand-authored modules, so never fatal.
pub fn relocation_warnings(m: &Module) -> (out: Vec<Warning>)
    requires
        module_wf(*m),
    ensures
        out@ == spec_reloc_warnings_upto(*m, m.relocations@.len() as int),
{
    let n = m.relocations.len();
    let mut out: Vec<Warning> = Vec::new();
    let mut i: usize = 0;
    while i < n
        invariant
            module_wf(*m),
            n == m.relocations@.len(),
            i <= n,
            out@ == spec_reloc_warnings_upto(*m, i as int),
        decreases n - i,
    {
        let r = m.relocations[i];
        let s = &m.symbols[r.symbol as usize];
        if matches!(r.kind, RelocKind::Rel24) && !matches!(s.kind, crate::obj::SymbolKind::Function)
        {
            out.push(Warning::KindMismatch { reloc: i as u32 });
        }
        match s.section {
            Some(si) => {
                if matches!(r.kind, RelocKind::Rel24) && !matches!(
                    m.sections[si as usize].kind,
                    SectionKind::Code,
                ) {
                    out.push(Warning::SectionMismatch { reloc: i as u32 });
                }
            },
            None => {},
        }
        i = i + 1;
    }
    out
}

} // verus!
