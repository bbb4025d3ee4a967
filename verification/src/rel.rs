//! Codec for the first platform's dynamic-module relocation representation:
//! a compact opcode stream per target module rather than a flat table.
//! Entries are grouped by the module that provides the target, sorted by
//! ascending patch position — the loader assumes a monotonically
//! non-decreasing cursor — and written as fixed eight-byte opcodes whose
//! offsets are 16-bit deltas from a running cursor; gaps beyond the delta
//! range force skip opcodes.
use vstd::prelude::*;

use crate::obj::{module_wf, Module, RelocKind};
use crate::wire::{be16, be32, take_be16, take_be32, push_be16, push_be32, DecodeError};
use vstd::multiset::Multiset;

verus! {

/// One relocation as the stream represents it: no symbol identity, only the
/// providing module, the patched place, and the target place within that
/// module.
#[derive(Clone, Copy, PartialEq, Eq, Structural, Debug)]
pub struct RelEntry {
    /// Module whose load address fixes this site; zero names the base image.
    pub module: u32,
    /// Section being patched.
    pub section: u8,
    /// Byte offset of the patched word within that section.
    pub offset: u32,
    pub kind: RelocKind,
    /// Section within the target module.
    pub target_section: u8,
    /// Offset within the target section, addend folded in.
    pub target_addend: u32,
}

/// One fixed-size stream record.
#[derive(Clone, Copy, PartialEq, Eq, Structural, Debug)]
pub struct OpEntry {
    /// Cursor advance before the action.
    pub delta: u16,
    pub op: u8,
    /// Section argument: the switched-to section, or the target section.
    pub arg: u8,
    /// Value argument: the module identifier, or the target offset.
    pub value: u32,
}

/// Advance the cursor without patching.
pub const OP_SKIP: u8 = 0;

/// Switch to the section named by `arg`; the cursor restarts at zero.
pub const OP_SECTION: u8 = 5;

/// Start the group of the module named by `value`.
pub const OP_MODULE: u8 = 6;

/// End of the stream.
pub const OP_END: u8 = 7;

/// Patch opcodes 1 through 4 select the relocation kind.
pub open spec fn op_of_kind(k: RelocKind) -> u8 {
    match k {
        RelocKind::Abs32 => 1,
        RelocKind::Rel24 => 2,
        RelocKind::Hi16 => 3,
        RelocKind::Lo16 => 4,
    }
}

pub open spec fn kind_of_op(o: u8) -> RelocKind {
    if o == 1 {
        RelocKind::Abs32
    } else if o == 2 {
        RelocKind::Rel24
    } else if o == 3 {
        RelocKind::Hi16
    } else {
        RelocKind::Lo16
    }
}

/// Replay state: which module group and section the cursor sits in.
pub ghost struct RelState {
    pub module: u32,
    pub section: u8,
    pub cursor: u32,
    pub hm: bool,
    pub hs: bool,
}

pub open spec fn init_state() -> RelState {
    RelState { module: 0, section: 0, cursor: 0, hm: false, hs: false }
}

/// One opcode replayed against the state; `None` marks a malformed stream.
pub open spec fn step_state(st: RelState, acc: Seq<RelEntry>, o: OpEntry) -> Option<
    (RelState, Seq<RelEntry>),
> {
    if o.op == OP_MODULE {
        if o.delta == 0 && o.arg == 0 {
            Option::Some(
                (RelState { module: o.value, section: 0, cursor: 0, hm: true, hs: false }, acc),
            )
        } else {
            Option::None
        }
    } else if o.op == OP_SECTION {
        if st.hm && o.delta == 0 && o.value == 0 {
            Option::Some(
                (
                    RelState {
                        module: st.module,
                        section: o.arg,
                        cursor: 0,
                        hm: st.hm,
                        hs: true,
                    },
                    acc,
                ),
            )
        } else {
            Option::None
        }
    } else if o.op == OP_SKIP {
        if st.hs && o.arg == 0 && o.value == 0 && st.cursor + o.delta <= u32::MAX {
            Option::Some(
                (
                    RelState {
                        module: st.module,
                        section: st.section,
                        cursor: (st.cursor + o.delta) as u32,
                        hm: st.hm,
                        hs: st.hs,
                    },
                    acc,
                ),
            )
        } else {
            Option::None
        }
    } else if 1 <= o.op && o.op <= 4 {
        if st.hs && st.cursor + o.delta <= u32::MAX {
            let off = (st.cursor + o.delta) as u32;
            Option::Some(
                (
                    RelState {
                        module: st.module,
                        section: st.section,
                        cursor: off,
                        hm: st.hm,
                        hs: st.hs,
                    },
                    acc.push(
                        RelEntry {
                            module: st.module,
                            section: st.section,
                            offset: off,
                            kind: kind_of_op(o.op),
                            target_section: o.arg,
                            target_addend: o.value,
                        },
                    ),
                ),
            )
        } else {
            Option::None
        }
    } else {
        Option::None
    }
}

/// The state and entries after replaying the first `i` opcodes.
pub open spec fn replay_prefix(ops: Seq<OpEntry>, i: int) -> Option<(RelState, Seq<RelEntry>)>
    decreases i,
{
    if i <= 0 {
        Option::Some((init_state(), Seq::empty()))
    } else {
        match replay_prefix(ops, i - 1) {
            Option::None => Option::None,
            Option::Some(p) => step_state(p.0, p.1, ops[i - 1]),
        }
    }
}

pub open spec fn is_end(o: OpEntry) -> bool {
    o.op == OP_END && o.delta == 0 && o.arg == 0 && o.value == 0
}

/// The relocations a well-formed stream spells: every opcode valid, ending
/// with exactly one terminator.
pub open spec fn spec_replay(ops: Seq<OpEntry>) -> Option<Seq<RelEntry>> {
    if ops.len() >= 1 && is_end(ops.last()) {
        match replay_prefix(ops, ops.len() - 1) {
            Option::None => Option::None,
            Option::Some(p) => Option::Some(p.1),
        }
    } else {
        Option::None
    }
}

/// A failed prefix never recovers.
pub proof fn lemma_prefix_none(ops: Seq<OpEntry>, i: int, j: int)
    requires
        replay_prefix(ops, i) is None,
        i <= j,
    ensures
        replay_prefix(ops, j) is None,
    decreases j - i,
{
    if j > i {
        lemma_prefix_none(ops, i, j - 1);
    }
}

/// Replay of a prefix ignores later opcodes.
pub proof fn lemma_prefix_frame(ops: Seq<OpEntry>, o: OpEntry, i: int)
    requires
        i <= ops.len(),
    ensures
        replay_prefix(ops.push(o), i) == replay_prefix(ops, i),
    decreases i,
{
    if i > 0 {
        lemma_prefix_frame(ops, o, i - 1);
        assert(ops.push(o)[i - 1] == ops[i - 1]);
    }
}

/// Grouping and ordering key: module group first, then section, then patch
/// position.
pub open spec fn rel_key(e: RelEntry) -> int {
    e.module * 0x100_0000_0000 + e.section * 0x1_0000_0000 + e.offset
}

/// Ascending patch positions within ascending sections within ascending
/// module groups: the monotone cursor the loader assumes.
pub open spec fn sorted_entries(s: Seq<RelEntry>) -> bool {
    forall|a: int, b: int| 0 <= a < b < s.len() ==> rel_key(#[trigger] s[a]) <= rel_key(#[trigger] s[b])
}

/// Why a dynamic-module relocation operation failed.
#[derive(Clone, Copy, PartialEq, Eq, Structural, Debug)]
pub enum RelError {
    /// The opcode at `index` violates the stream format.
    BadStream { index: usize },
    /// Relocation `reloc`'s target module cannot be determined; the format
    /// has no representation for an unknown module, so encoding must fail.
    UnresolvedTarget { reloc: u32 },
    /// A section index does not fit the format's 8-bit section field.
    TooManySections { reloc: u32 },
    /// A target's section-relative offset leaves the 32-bit range.
    TargetOutOfRange { reloc: u32 },
}

/// Replays a stream back into relocation entries, rejecting any opcode the
/// format does not admit: succeeds exactly on streams `spec_replay` accepts,
/// and then returns exactly the entries it spells.
#[verifier::loop_isolation(false)]
pub fn decode_rel_stream(ops: &Vec<OpEntry>) -> (res: Result<Vec<RelEntry>, RelError>)
    ensures
        match res {
            Result::Ok(rs) => spec_replay(ops@) == Option::Some(rs@),
            Result::Err(_) => spec_replay(ops@) is None,
        },
{
    let n = ops.len();
    let mut out: Vec<RelEntry> = Vec::new();
    let mut module: u32 = 0;
    let mut section: u8 = 0;
    let mut cursor: u32 = 0;
    let mut hm = false;
    let mut hs = false;
    let mut i: usize = 0;
    while i < n
        invariant
            i <= n,
            replay_prefix(ops@, i as int) == Option::Some(
                (RelState { module, section, cursor, hm, hs }, out@),
            ),
        decreases n - i,
    {
        let o = ops[i];
        if o.op == OP_END {
            if i + 1 == n && o.delta == 0 && o.arg == 0 && o.value == 0 {
                return Ok(out);
            } else {
                proof {
                    if i + 1 < n {
                        assert(replay_prefix(ops@, i + 1) is None);
                        lemma_prefix_none(ops@, i + 1, ops@.len() - 1);
                    } else {
                        assert(!is_end(ops@.last()));
                    }
                }
                return Err(RelError::BadStream { index: i });
            }
        }
        let stepped: bool = if o.op == OP_MODULE {
            if o.delta == 0 && o.arg == 0 {
                module = o.value;
                section = 0;
                cursor = 0;
                hm = true;
                hs = false;
                true
            } else {
                false
            }
        } else if o.op == OP_SECTION {
            if hm && o.delta == 0 && o.value == 0 {
                section = o.arg;
                cursor = 0;
                hs = true;
                true
            } else {
                false
            }
        } else if o.op == OP_SKIP {
            if hs && o.arg == 0 && o.value == 0 && cursor as u64 + o.delta as u64
                <= u32::MAX as u64 {
                cursor = cursor + o.delta as u32;
                true
            } else {
                false
            }
        } else if 1 <= o.op && o.op <= 4 {
            if hs && cursor as u64 + o.delta as u64 <= u32::MAX as u64 {
                let off = cursor + o.delta as u32;
                let kind = if o.op == 1 {
                    RelocKind::Abs32
                } else if o.op == 2 {
                    RelocKind::Rel24
                } else if o.op == 3 {
                    RelocKind::Hi16
                } else {
                    RelocKind::Lo16
                };
                out.push(
                    RelEntry {
                        module,
                        section,
                        offset: off,
                        kind,
                        target_section: o.arg,
                        target_addend: o.value,
                    },
                );
                cursor = off;
                true
            } else {
                false
            }
        } else {
            false
        };
        if !stepped {
            proof {
                assert(replay_prefix(ops@, i + 1) is None);
                if i + 1 < n {
                    lemma_prefix_none(ops@, i + 1, ops@.len() - 1);
                }
            }
            return Err(RelError::BadStream { index: i });
        }
        i = i + 1;
    }
    proof {
        if n >= 1 && is_end(ops@.last()) {
            assert(replay_prefix(ops@, n as int) is None);
        }
    }
    Err(RelError::BadStream { index: n })
}

/// Stable copy-and-extract-minimum sort by the grouping key.
#[verifier::loop_isolation(false)]
fn sort_entries(v: &Vec<RelEntry>) -> (out: Vec<RelEntry>)
    ensures
        out@.to_multiset() == v@.to_multiset(),
        sorted_entries(out@),
{
    broadcast use vstd::seq_lib::group_to_multiset_ensures;
    broadcast use vstd::multiset::group_multiset_axioms;

    let mut rest: Vec<RelEntry> = Vec::new();
    let mut q: usize = 0;
    while q < v.len()
        invariant
            q <= v@.len(),
            rest@ == v@.take(q as int),
        decreases v@.len() - q,
    {
        rest.push(v[q]);
        q = q + 1;
        proof {
            assert(rest@ =~= v@.take(q as int));
        }
    }
    proof {
        assert(v@.take(v@.len() as int) =~= v@);
    }
    let mut out: Vec<RelEntry> = Vec::new();
    while rest.len() > 0
        invariant
            out@.to_multiset().add(rest@.to_multiset()) == v@.to_multiset(),
            sorted_entries(out@),
            forall|a: int, b: int|
                0 <= a < out@.len() && 0 <= b < rest@.len() ==> rel_key(#[trigger] out@[a])
                    <= rel_key(#[trigger] rest@[b]),
        decreases rest@.len(),
    {
        let mut mi: usize = 0;
        let mut k: usize = 1;
        while k < rest.len()
            invariant
                mi < rest@.len(),
                k <= rest@.len(),
                forall|t: int| 0 <= t < k ==> rel_key(rest@[mi as int]) <= rel_key(#[trigger] rest@[t]),
            decreases rest@.len() - k,
        {
            let a = rest[k];
            let b = rest[mi];
            let ka: u128 = (a.module as u128) * 0x100_0000_0000 + (a.section as u128)
                * 0x1_0000_0000 + a.offset as u128;
            let kb: u128 = (b.module as u128) * 0x100_0000_0000 + (b.section as u128)
                * 0x1_0000_0000 + b.offset as u128;
            if ka < kb {
                mi = k;
            }
            k = k + 1;
        }
        let ghost pre = rest@;
        let ghost pre_out = out@;
        let e = rest.remove(mi);
        proof {
            assert(rest@ == pre.remove(mi as int));
            assert(e == pre[mi as int]);
            assert(pre.contains(e));
            assert(rest@.to_multiset() =~= pre.to_multiset().remove(e));
        }
        out.push(e);
        proof {
            assert(out@.to_multiset() =~= pre_out.to_multiset().insert(e));
            assert(out@.to_multiset().add(rest@.to_multiset()) =~= v@.to_multiset());
            assert forall|b: int| 0 <= b < rest@.len() implies rel_key(e) <= rel_key(
                #[trigger] rest@[b],
            ) by {
                if b < mi {
                    assert(rest@[b] == pre[b]);
                } else {
                    assert(rest@[b] == pre[b + 1]);
                }
            }
        }
    }
    proof {
        assert(rest@.to_multiset() =~= Multiset::<RelEntry>::empty());
        assert(out@.to_multiset() =~= v@.to_multiset());
    }
    out
}

/// One export of another module that imports here may bind to: the module
/// that provides `name`, and where the symbol sits inside it.
pub struct ImportTarget {
    pub name: Vec<u8>,
    pub module: u32,
    pub section: u8,
    pub offset: u32,
}

/// First map entry carrying `name`.
pub open spec fn find_import(map: Seq<ImportTarget>, name: Seq<u8>, k: int) -> Option<int>
    decreases map.len() - k,
{
    if k < 0 || k >= map.len() {
        Option::None
    } else if map[k].name@ == name {
        Option::Some(k)
    } else {
        find_import(map, name, k + 1)
    }
}

/// Why relocation `i` cannot take the stream representation, if it cannot:
/// an undeterminable target module is a hard failure, since the format has
/// no slot for it.
pub open spec fn rel_entry_err(m: Module, map: Seq<ImportTarget>, i: int) -> Option<RelError> {
    let r = m.relocations@[i];
    let s = m.symbols@[r.symbol as int];
    if r.section > 0xFF {
        Option::Some(RelError::TooManySections { reloc: i as u32 })
    } else {
        match s.section {
            Option::Some(d) => if d > 0xFF {
                Option::Some(RelError::TooManySections { reloc: i as u32 })
            } else if !(0 <= s.offset + r.addend <= u32::MAX) {
                Option::Some(RelError::TargetOutOfRange { reloc: i as u32 })
            } else {
                Option::None
            },
            Option::None => match find_import(map, s.name@, 0) {
                Option::None => Option::Some(RelError::UnresolvedTarget { reloc: i as u32 }),
                Option::Some(t) => if !(0 <= map[t].offset + r.addend <= u32::MAX) {
                    Option::Some(RelError::TargetOutOfRange { reloc: i as u32 })
                } else {
                    Option::None
                },
            },
        }
    }
}

/// The stream representation of relocation `i`, when nothing forbids it.
pub open spec fn rel_entry_of(m: Module, map: Seq<ImportTarget>, i: int) -> RelEntry {
    let r = m.relocations@[i];
    let s = m.symbols@[r.symbol as int];
    match s.section {
        Option::Some(d) => RelEntry {
            module: m.module_id,
            section: r.section as u8,
            offset: r.offset,
            kind: r.kind,
            target_section: d as u8,
            target_addend: (s.offset + r.addend) as u32,
        },
        Option::None => {
            let t = find_import(map, s.name@, 0)->Some_0;
            RelEntry {
                module: map[t].module,
                section: r.section as u8,
                offset: r.offset,
                kind: r.kind,
                target_section: map[t].section,
                target_addend: (map[t].offset + r.addend) as u32,
            }
        },
    }
}

/// Derives the stream representation of every relocation, resolving each
/// import's target module by name against the given exports: succeeds if
/// and only if every target module and offset is representable, and
/// otherwise names the first relocation that is not.
#[verifier::loop_isolation(false)]
pub fn rel_entries(m: &Module, map: &Vec<ImportTarget>) -> (res: Result<Vec<RelEntry>, RelError>)
    requires
        module_wf(*m),
    ensures
        match res {
            Result::Ok(es) => {
                &&& es@.len() == m.relocations@.len()
                &&& forall|i: int| 0 <= i < es@.len() ==> #[trigger] es@[i] == rel_entry_of(*m, map@, i)
                &&& forall|i: int|
                    0 <= i < m.relocations@.len() ==> #[trigger] rel_entry_err(*m, map@, i) is None
            },
            Result::Err(e) => exists|i: int|
                {
                    &&& 0 <= i < m.relocations@.len()
                    &&& #[trigger] rel_entry_err(*m, map@, i) == Option::Some(e)
                    &&& forall|k: int| 0 <= k < i ==> #[trigger] rel_entry_err(*m, map@, k) is None
                },
        },
{
    let n = m.relocations.len();
    let mut out: Vec<RelEntry> = Vec::new();
    let mut i: usize = 0;
    while i < n
        invariant
            i <= n,
            out@.len() == i,
            forall|k: int| 0 <= k < i ==> #[trigger] out@[k] == rel_entry_of(*m, map@, k),
            forall|k: int| 0 <= k < i ==> #[trigger] rel_entry_err(*m, map@, k) is None,
        decreases n - i,
    {
        let r = m.relocations[i];
        if r.section > 0xFF {
            proof {
                assert(rel_entry_err(*m, map@, i as int) == Option::Some(
                    RelError::TooManySections { reloc: i as u32 },
                ));
            }
            return Err(RelError::TooManySections { reloc: i as u32 });
        }
        let s = &m.symbols[r.symbol as usize];
        match s.section {
            Some(d) => {
                if d > 0xFF {
                    proof {
                        assert(rel_entry_err(*m, map@, i as int) == Option::Some(
                            RelError::TooManySections { reloc: i as u32 },
                        ));
                    }
                    return Err(RelError::TooManySections { reloc: i as u32 });
                }
                let ta: i64 = s.offset as i64 + r.addend as i64;
                if ta < 0 || ta > u32::MAX as i64 {
                    proof {
                        assert(rel_entry_err(*m, map@, i as int) == Option::Some(
                            RelError::TargetOutOfRange { reloc: i as u32 },
                        ));
                    }
                    return Err(RelError::TargetOutOfRange { reloc: i as u32 });
                }
                out.push(
                    RelEntry {
                        module: m.module_id,
                        section: r.section as u8,
                        offset: r.offset,
                        kind: r.kind,
                        target_section: d as u8,
                        target_addend: ta as u32,
                    },
                );
            },
            None => {
                let nm = map.len();
                let mut fi: Option<usize> = None;
                let mut k: usize = 0;
                while k < nm
                    invariant
                        k <= nm,
                        i < n,
                        match fi {
                            Option::Some(x) => find_import(map@, m.symbols@[m.relocations@[i as int].symbol as int].name@, 0)
                                == Option::Some(x as int) && x < nm,
                            Option::None => find_import(
                                map@,
                                m.symbols@[m.relocations@[i as int].symbol as int].name@,
                                k as int,
                            ) == find_import(
                                map@,
                                m.symbols@[m.relocations@[i as int].symbol as int].name@,
                                0,
                            ),
                        },
                    decreases nm - k,
                {
                    if matches!(fi, None) {
                        if crate::wire::bytes_eq(&map[k].name, &s.name) {
                            fi = Some(k);
                        }
                    }
                    k = k + 1;
                }
                match fi {
                    None => {
                        proof {
                            assert(rel_entry_err(*m, map@, i as int) == Option::Some(
                                RelError::UnresolvedTarget { reloc: i as u32 },
                            ));
                        }
                        return Err(RelError::UnresolvedTarget { reloc: i as u32 });
                    },
                    Some(t) => {
                        let tgt = &map[t];
                        let ta: i64 = tgt.offset as i64 + r.addend as i64;
                        if ta < 0 || ta > u32::MAX as i64 {
                            proof {
                                assert(rel_entry_err(*m, map@, i as int) == Option::Some(
                                    RelError::TargetOutOfRange { reloc: i as u32 },
                                ));
                            }
                            return Err(RelError::TargetOutOfRange { reloc: i as u32 });
                        }
                        out.push(
                            RelEntry {
                                module: tgt.module,
                                section: r.section as u8,
                                offset: r.offset,
                                kind: r.kind,
                                target_section: tgt.section,
                                target_addend: ta as u32,
                            },
                        );
                    },
                }
            },
        }
        proof {
            assert(out@[i as int] == rel_entry_of(*m, map@, i as int));
            assert(rel_entry_err(*m, map@, i as int) is None);
        }
        i = i + 1;
    }
    Ok(out)
}

/// The canonical entry list of a module against a set of exports.
pub open spec fn spec_rel_entries(m: Module, map: Seq<ImportTarget>) -> Seq<RelEntry> {
    Seq::new(m.relocations@.len(), |i: int| rel_entry_of(m, map, i))
}

/// The dynamic-module relocation encode, end to end: derives the stream
/// entries and emits the opcode stream. Fails — producing nothing — exactly
/// when some relocation has no representable target, naming the first such
/// relocation; otherwise the stream replays to the module's relocations in
/// canonical sorted order.
pub fn encode_rel_relocations(m: &Module, map: &Vec<ImportTarget>) -> (res: Result<
    Vec<OpEntry>,
    RelError,
>)
    requires
        module_wf(*m),
    ensures
        match res {
            Result::Ok(ops) => {
                &&& (forall|i: int|
                    0 <= i < m.relocations@.len() ==> #[trigger] rel_entry_err(*m, map@, i) is None)
                &&& match spec_replay(ops@) {
                    Option::Some(rs) => rs.to_multiset() == spec_rel_entries(
                        *m,
                        map@,
                    ).to_multiset() && sorted_entries(rs),
                    Option::None => false,
                }
            },
            Result::Err(e) => exists|i: int|
                {
                    &&& 0 <= i < m.relocations@.len()
                    &&& #[trigger] rel_entry_err(*m, map@, i) == Option::Some(e)
                    &&& forall|k: int| 0 <= k < i ==> #[trigger] rel_entry_err(*m, map@, k) is None
                },
        },
{
    let es = match rel_entries(m, map) {
        Ok(es) => es,
        Err(e) => {
            return Err(e);
        },
    };
    proof {
        assert(es@ =~= spec_rel_entries(*m, map@));
    }
    Ok(encode_rel_stream(&es))
}

/// Where the cursor of a replay state sits in the grouping order.
pub open spec fn pos_key(module: u32, section: u8, cursor: u32) -> int {
    module * 0x100_0000_0000 + section * 0x1_0000_0000 + cursor
}

/// Emits relocation entries as an opcode stream: groups by target module,
/// sorts within each group by ascending patch position, switches sections
/// with markers, and bridges gaps beyond the 16-bit delta range with skip
/// opcodes. Replaying the result yields exactly the input entries in
/// canonical order, with a non-decreasing cursor throughout each group.
#[verifier::loop_isolation(false)]
#[verifier::rlimit(60)]
pub fn encode_rel_stream(entries: &Vec<RelEntry>) -> (ops: Vec<OpEntry>)
    ensures
        match spec_replay(ops@) {
            Option::Some(rs) => rs.to_multiset() == entries@.to_multiset() && sorted_entries(rs),
            Option::None => false,
        },
{
    let srt = sort_entries(entries);
    let n = srt.len();
    let mut ops: Vec<OpEntry> = Vec::new();
    let mut module: u32 = 0;
    let mut section: u8 = 0;
    let mut cursor: u32 = 0;
    let mut hm = false;
    let mut hs = false;
    let mut k: usize = 0;
    while k < n
        invariant
            k <= n,
            n == srt@.len(),
            sorted_entries(srt@),
            replay_prefix(ops@, ops@.len() as int) == Option::Some(
                (RelState { module, section, cursor, hm, hs }, srt@.take(k as int)),
            ),
            hm && hs ==> forall|t: int|
                k <= t < n ==> pos_key(module, section, cursor) <= rel_key(#[trigger] srt@[t]),
        decreases n - k,
    {
        let e = srt[k];
        if !hm || e.module != module {
            let o = OpEntry { delta: 0, op: OP_MODULE, arg: 0, value: e.module };
            proof {
                lemma_prefix_frame(ops@, o, ops@.len() as int);
            }
            ops.push(o);
            module = e.module;
            section = 0;
            cursor = 0;
            hm = true;
            hs = false;
        }
        if !hs || e.section != section {
            let o = OpEntry { delta: 0, op: OP_SECTION, arg: e.section, value: 0 };
            proof {
                lemma_prefix_frame(ops@, o, ops@.len() as int);
            }
            ops.push(o);
            section = e.section;
            cursor = 0;
            hs = true;
        }
        assert(module == e.module && section == e.section);
        assert(cursor <= e.offset) by {
            assert(pos_key(module, section, cursor) <= rel_key(srt@[k as int]));
        }
        while e.offset - cursor > 0xFFFF
            invariant
                cursor <= e.offset,
                hm,
                hs,
                module == e.module,
                section == e.section,
                replay_prefix(ops@, ops@.len() as int) == Option::Some(
                    (RelState { module, section, cursor, hm, hs }, srt@.take(k as int)),
                ),
            decreases e.offset - cursor,
        {
            let o = OpEntry { delta: 0xFFFF, op: OP_SKIP, arg: 0, value: 0 };
            proof {
                lemma_prefix_frame(ops@, o, ops@.len() as int);
            }
            ops.push(o);
            cursor = cursor + 0xFFFF;
        }
        let delta = (e.offset - cursor) as u16;
        let opc: u8 = match e.kind {
            RelocKind::Abs32 => 1,
            RelocKind::Rel24 => 2,
            RelocKind::Hi16 => 3,
            RelocKind::Lo16 => 4,
        };
        assert(opc == op_of_kind(e.kind));
        assert(kind_of_op(opc) == e.kind);
        let o = OpEntry { delta, op: opc, arg: e.target_section, value: e.target_addend };
        proof {
            lemma_prefix_frame(ops@, o, ops@.len() as int);
        }
        ops.push(o);
        cursor = e.offset;
        proof {
            assert(srt@.take(k + 1) =~= srt@.take(k as int).push(e));
        }
        k = k + 1;
    }
    let o = OpEntry { delta: 0, op: OP_END, arg: 0, value: 0 };
    proof {
        lemma_prefix_frame(ops@, o, ops@.len() as int);
    }
    ops.push(o);
    proof {
        assert(is_end(ops@.last()));
        assert(srt@.take(n as int) =~= srt@);
        assert(spec_replay(ops@) == Option::Some(srt@));
    }
    ops
}

/// The eight wire bytes of one opcode record.
pub open spec fn enc_op(o: OpEntry) -> Seq<u8> {
    be16(o.delta) + seq![o.op, o.arg] + be32(o.value)
}

pub open spec fn enc_ops(s: Seq<OpEntry>) -> Seq<u8>
    decreases s.len(),
{
    if s.len() == 0 {
        Seq::empty()
    } else {
        enc_ops(s.drop_last()) + enc_op(s.last())
    }
}

proof fn lemma_enc_ops_take(s: Seq<OpEntry>, i: int)
    requires
        0 <= i < s.len(),
    ensures
        enc_ops(s.take(i + 1)) == enc_ops(s.take(i)) + enc_op(s[i]),
{
    assert(s.take(i + 1).drop_last() =~= s.take(i));
    assert(s.take(i + 1).last() == s[i]);
}

/// Serializes an opcode stream as fixed eight-byte big-endian records.
#[verifier::loop_isolation(false)]
pub fn ops_to_bytes(ops: &Vec<OpEntry>) -> (b: Vec<u8>)
    ensures
        b@ == enc_ops(ops@),
{
    let mut b: Vec<u8> = Vec::new();
    let mut i: usize = 0;
    while i < ops.len()
        invariant
            i <= ops@.len(),
            b@ == enc_ops(ops@.take(i as int)),
        decreases ops@.len() - i,
    {
        let o = ops[i];
        push_be16(&mut b, o.delta);
        b.push(o.op);
        b.push(o.arg);
        push_be32(&mut b, o.value);
        proof {
            lemma_enc_ops_take(ops@, i as int);
            assert(b@ =~= enc_ops(ops@.take(i + 1)));
        }
        i = i + 1;
    }
    proof {
        assert(ops@.take(ops@.len() as int) =~= ops@);
    }
    b
}

/// Parses fixed eight-byte opcode records; on success the buffer is exactly
/// the records' one spelling, so re-serializing reproduces it.
#[verifier::loop_isolation(false)]
pub fn bytes_to_ops(b: &Vec<u8>) -> (res: Result<Vec<OpEntry>, DecodeError>)
    ensures
        match res {
            Result::Ok(ops) => b@ == enc_ops(ops@),
            Result::Err(_) => b@.len() % 8 != 0,
        },
{
    if b.len() % 8 != 0 {
        return Err(DecodeError::Truncated { offset: b.len() - b.len() % 8 });
    }
    let cnt = b.len() / 8;
    let mut ops: Vec<OpEntry> = Vec::new();
    let mut i: usize = 0;
    proof {
        vstd::arithmetic::div_mod::lemma_fundamental_div_mod(b@.len() as int, 8);
    }
    let mut pos: usize = 0;
    while i < cnt
        invariant
            i <= cnt,
            pos == 8 * i,
            8 * cnt <= b@.len(),
            ops@.len() == i,
            b@.subrange(0, pos as int) == enc_ops(ops@),
        decreases cnt - i,
    {
        let (delta, p1) = match take_be16(b, pos) {
            Ok(r) => r,
            Err(e) => {
                proof {
                    assert(false);
                }
                return Err(e);
            },
        };
        let op = b[p1];
        let arg = b[p1 + 1];
        let p2 = p1 + 2;
        let (value, p3) = match take_be32(b, p2) {
            Ok(r) => r,
            Err(e) => {
                proof {
                    assert(false);
                }
                return Err(e);
            },
        };
        let o = OpEntry { delta, op, arg, value };
        proof {
            assert(ops@.push(o).drop_last() =~= ops@);
            assert(b@.subrange(pos as int, p3 as int) =~= enc_op(o));
            assert(b@.subrange(0, p3 as int) =~= b@.subrange(0, pos as int) + b@.subrange(
                pos as int,
                p3 as int,
            ));
            assert(b@.subrange(0, p3 as int) =~= enc_ops(ops@.push(o)));
        }
        ops.push(o);
        pos = p3;
        i = i + 1;
    }
    proof {
        assert(pos == b@.len());
        assert(b@ =~= b@.subrange(0, pos as int));
    }
    Ok(ops)
}

} // verus!
