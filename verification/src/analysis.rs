//! Control-flow-based function-boundary recovery: walks instruction words
//! reachable from function-entry symbols, classifies each as falling
//! through, branching, calling, returning, or jumping through a table, and
//! derives non-overlapping `FunctionRange`s. The whole result is a function
//! of the module's sections, symbols and relocations alone, so a second run
//! over the same module reproduces it exactly.
use vstd::prelude::*;

use crate::obj::{
    module_wf, ranges_disjoint, range_wf, FunctionRange, Module, Relocation, Section, SectionKind,
    Symbol, SymbolKind,
};
use crate::wire::{get_be32, read_be32};

verus! {

/// What the analyzer reads of a module: everything its output depends on.
pub ghost struct CodeCtx {
    pub sections: Seq<Section>,
    pub symbols: Seq<Symbol>,
    pub relocs: Seq<Relocation>,
    pub sec: int,
}

pub open spec fn ctx_of(m: Module, sec: u32) -> CodeCtx {
    CodeCtx { sections: m.sections@, symbols: m.symbols@, relocs: m.relocations@, sec: sec as int }
}

pub open spec fn code(ctx: CodeCtx) -> Seq<u8> {
    ctx.sections[ctx.sec].data@
}

/// Number of whole instruction words in the section.
pub open spec fn words(ctx: CodeCtx) -> int {
    code(ctx).len() as int / 4
}

pub open spec fn word_at(ctx: CodeCtx, j: int) -> u32 {
    read_be32(code(ctx), 4 * j)
}

/// How one instruction word passes control on.
#[derive(Clone, Copy, Debug)]
pub enum Step {
    /// Falls through to the next word.
    Fall,
    /// Unconditional branch; `None` when the target leaves the section or
    /// cannot be resolved statically.
    Jump(Option<u32>),
    /// Conditional branch: follows the target and falls through.
    Cond(Option<u32>),
    /// Call: the target starts a new function; control falls through here.
    Call(Option<u32>),
    /// Return or trap: the current range ends here.
    Stop,
    /// Computed branch through a register: a jump-table candidate.
    Table,
}

/// Static classification of the word at `j`: top six bits select the form,
/// branch displacements are sign-extended word counts, and a link bit turns
/// a branch into a call.
pub open spec fn spec_step(ctx: CodeCtx, j: int) -> Step {
    let w = word_at(ctx, j);
    let op = w >> 26;
    if op == 18 {
        let li = (w & 0x03FF_FFFC) as int;
        let disp = if w & 0x0200_0000 != 0 {
            li - 0x0400_0000
        } else {
            li
        };
        let t = 4 * j + disp;
        let tgt = if w & 2 == 0 && 0 <= t < 4 * words(ctx) {
            Option::Some(t as u32)
        } else {
            Option::None
        };
        if w & 1 == 1 {
            Step::Call(tgt)
        } else {
            Step::Jump(tgt)
        }
    } else if op == 16 {
        let bd = (w & 0xFFFC) as int;
        let disp = if w & 0x8000 != 0 {
            bd - 0x1_0000
        } else {
            bd
        };
        let t = 4 * j + disp;
        let tgt = if w & 2 == 0 && 0 <= t < 4 * words(ctx) {
            Option::Some(t as u32)
        } else {
            Option::None
        };
        Step::Cond(tgt)
    } else if op == 19 {
        let ext = (w >> 1) & 0x3FF;
        if ext == 16 {
            Step::Stop
        } else if ext == 528 {
            Step::Table
        } else {
            Step::Fall
        }
    } else {
        Step::Fall
    }
}

/// The jump table feeding the computed branch at word `j`: the preceding
/// address load carries a relocation to an object in a data section, whose
/// bytes list word-aligned target offsets back into the code section.
pub open spec fn find_reloc_at(rels: Seq<Relocation>, sec: int, off: int, k: int) -> Option<int>
    decreases rels.len() - k,
{
    if k < 0 || k >= rels.len() {
        Option::None
    } else if rels[k].section == sec && rels[k].offset == off {
        Option::Some(k)
    } else {
        find_reloc_at(rels, sec, off, k + 1)
    }
}

pub open spec fn spec_table_targets(ctx: CodeCtx, j: int) -> Seq<u32> {
    if 4 * j < 8 {
        Seq::empty()
    } else {
        match find_reloc_at(ctx.relocs, ctx.sec, 4 * j - 8, 0) {
            Option::None => Seq::empty(),
            Option::Some(ri) => {
                let r = ctx.relocs[ri];
                if !((r.symbol as int) < ctx.symbols.len()) {
                    Seq::empty()
                } else {
                    let s = ctx.symbols[r.symbol as int];
                    match s.section {
                        Option::None => Seq::empty(),
                        Option::Some(d) => if !((d as int) < ctx.sections.len()) || ctx.sections[d as int].kind
                            != SectionKind::Data || !(s.offset + s.size
                            <= ctx.sections[d as int].data@.len()) || s.size % 4 != 0 {
                            Seq::empty()
                        } else {
                            Seq::new(
                                (s.size / 4) as nat,
                                |k: int| read_be32(ctx.sections[d as int].data@, s.offset + 4 * k),
                            )
                        },
                    }
                }
            },
        }
    }
}

/// A table target lands on a word of the section.
pub open spec fn valid_target(ctx: CodeCtx, t: u32) -> bool {
    t % 4 == 0 && (t as int) < 4 * words(ctx)
}

/// Word `i` is a direct control successor of word `j` within the section.
pub open spec fn spec_succ(ctx: CodeCtx, j: int, i: int) -> bool {
    0 <= j < words(ctx) && 0 <= i < words(ctx) && match spec_step(ctx, j) {
        Step::Fall => i == j + 1,
        Step::Jump(t) => t matches Option::Some(tt) && 4 * i == tt,
        Step::Cond(t) => i == j + 1 || (t matches Option::Some(tt) && 4 * i == tt),
        Step::Call(_) => i == j + 1,
        Step::Stop => false,
        Step::Table => exists|k: int|
            0 <= k < spec_table_targets(ctx, j).len() && {
                let t = #[trigger] spec_table_targets(ctx, j)[k];
                valid_target(ctx, t) && 4 * i == t
            },
    }
}

/// An edge out of `j` had to be dropped: the analysis result for a range
/// reaching `j` is then a lower-confidence guess.
pub open spec fn spec_dropped(ctx: CodeCtx, j: int) -> bool {
    match spec_step(ctx, j) {
        Step::Fall => j + 1 >= words(ctx),
        Step::Jump(t) => t is None,
        Step::Cond(t) => t is None || j + 1 >= words(ctx),
        Step::Call(t) => t is None || j + 1 >= words(ctx),
        Step::Stop => false,
        Step::Table => spec_table_targets(ctx, j).len() == 0 || exists|k: int|
            0 <= k < spec_table_targets(ctx, j).len() && !valid_target(
                ctx,
                #[trigger] spec_table_targets(ctx, j)[k],
            ),
    }
}

/// Control does not continue past `j` in straight order.
pub open spec fn spec_terminal(ctx: CodeCtx, j: int) -> bool {
    match spec_step(ctx, j) {
        Step::Stop => true,
        Step::Jump(_) => true,
        Step::Table => true,
        _ => false,
    }
}

/// One round of reachability: a word is reached if it was, or if a reached
/// word passes control to it.
pub open spec fn spec_expand(ctx: CodeCtx, r: Seq<bool>) -> Seq<bool> {
    Seq::new(
        r.len(),
        |i: int| r[i] || exists|j: int| 0 <= j < r.len() && r[j] && spec_succ(ctx, j, i),
    )
}

pub open spec fn spec_iter(ctx: CodeCtx, r0: Seq<bool>, k: nat) -> Seq<bool>
    decreases k,
{
    if k == 0 {
        r0
    } else {
        spec_expand(ctx, spec_iter(ctx, r0, (k - 1) as nat))
    }
}

pub open spec fn seed_one(n: int, e: int) -> Seq<bool> {
    Seq::new(n as nat, |i: int| i == e)
}

/// Every word reachable from entry `e`: each word is visited at most once,
/// so as many rounds as there are words reach a fixed point.
pub open spec fn spec_reach(ctx: CodeCtx, e: int) -> Seq<bool> {
    spec_iter(ctx, seed_one(words(ctx), e), words(ctx) as nat)
}

pub proof fn lemma_iter_len(ctx: CodeCtx, r0: Seq<bool>, k: nat)
    ensures
        spec_iter(ctx, r0, k).len() == r0.len(),
    decreases k,
{
    if k > 0 {
        lemma_iter_len(ctx, r0, (k - 1) as nat);
    }
}

/// Reachability rows are as long as the section has words.
pub proof fn lemma_reach_len(ctx: CodeCtx, e: int)
    ensures
        spec_reach(ctx, e).len() == words(ctx),
{
    lemma_iter_len(ctx, seed_one(words(ctx), e), words(ctx) as nat);
}

/// Expansion never unmarks a word.
pub proof fn lemma_iter_keeps(ctx: CodeCtx, r0: Seq<bool>, k: nat, i: int)
    requires
        0 <= i < r0.len(),
        r0[i],
    ensures
        spec_iter(ctx, r0, k).len() == r0.len(),
        spec_iter(ctx, r0, k)[i],
    decreases k,
{
    if k > 0 {
        lemma_iter_keeps(ctx, r0, (k - 1) as nat, i);
    }
}

/// The word at `i * 4` is a function-entry symbol of this section.
pub open spec fn spec_seed(ctx: CodeCtx, i: int) -> bool {
    exists|s: int|
        0 <= s < ctx.symbols.len() && {
            let y = #[trigger] ctx.symbols[s];
            y.kind == SymbolKind::Function && y.section == Option::Some(ctx.sec as u32)
                && y.offset as int == 4 * i
        }
}

/// Word `j` calls the word at `4 * t`.
pub open spec fn spec_call_to(ctx: CodeCtx, j: int, t: int) -> bool {
    match spec_step(ctx, j) {
        Step::Call(tgt) => tgt matches Option::Some(tt) && 4 * t == tt,
        _ => false,
    }
}

/// One round of entry discovery: an entry's explored words contribute their
/// call targets as new entries.
pub open spec fn spec_entries_expand(ctx: CodeCtx, ev: Seq<bool>) -> Seq<bool> {
    Seq::new(
        ev.len(),
        |t: int| ev[t] || exists|e: int, j: int|
            0 <= e < ev.len() && 0 <= j < words(ctx) && ev[e] && spec_reach(ctx, e)[j]
                && spec_call_to(ctx, j, t),
    )
}

pub open spec fn spec_entries_iter(ctx: CodeCtx, k: nat) -> Seq<bool>
    decreases k,
{
    if k == 0 {
        Seq::new(words(ctx) as nat, |i: int| spec_seed(ctx, i))
    } else {
        spec_entries_expand(ctx, spec_entries_iter(ctx, (k - 1) as nat))
    }
}

/// All function entries: the declared seeds plus every call target
/// discovered from an entry, to a fixed point.
pub open spec fn spec_entries(ctx: CodeCtx) -> Seq<bool> {
    spec_entries_iter(ctx, words(ctx) as nat)
}

/// Largest end, in bytes, of a reached terminating word among the first `i`.
pub open spec fn max_term_upto(ctx: CodeCtx, r: Seq<bool>, i: int) -> int
    decreases i,
{
    if i <= 0 {
        0
    } else {
        let p = max_term_upto(ctx, r, i - 1);
        if r[i - 1] && spec_terminal(ctx, i - 1) && 4 * i > p {
            4 * i
        } else {
            p
        }
    }
}

/// Largest end, in bytes, of any reached word among the first `i`.
pub open spec fn max_reach_upto(ctx: CodeCtx, r: Seq<bool>, i: int) -> int
    decreases i,
{
    if i <= 0 {
        0
    } else {
        let p = max_reach_upto(ctx, r, i - 1);
        if r[i - 1] && 4 * i > p {
            4 * i
        } else {
            p
        }
    }
}

/// The extent explored from entry `e`: up to the furthest terminating word
/// reached, falling back to the furthest word reached, and always at least
/// the entry's own word.
pub open spec fn spec_end(ctx: CodeCtx, e: int) -> int {
    let r = spec_reach(ctx, e);
    let mt = max_term_upto(ctx, r, words(ctx));
    let mr = if mt > 0 {
        mt
    } else {
        max_reach_upto(ctx, r, words(ctx))
    };
    if mr < 4 * (e + 1) {
        4 * (e + 1)
    } else {
        mr
    }
}

/// No edge was dropped and a terminating word was reached.
pub open spec fn spec_complete(ctx: CodeCtx, e: int) -> bool {
    let r = spec_reach(ctx, e);
    (exists|j: int| 0 <= j < words(ctx) && r[j] && spec_terminal(ctx, j)) && !(exists|j: int|
        0 <= j < words(ctx) && r[j] && spec_dropped(ctx, j))
}

/// `4 * t` is a jump-table target of a word explored from `e`, inside the
/// range, other than the primary entry itself.
pub open spec fn spec_secondary(ctx: CodeCtx, e: int, start: int, end: int, t: int) -> bool {
    start <= 4 * t < end && 4 * t != start && exists|j: int, k: int|
        0 <= j < words(ctx) && spec_reach(ctx, e)[j] && spec_step(ctx, j) == Step::Table && 0 <= k
            < spec_table_targets(ctx, j).len() && #[trigger] spec_table_targets(ctx, j)[k] == 4 * t
}

pub open spec fn secs_upto(ctx: CodeCtx, e: int, start: int, end: int, t: int) -> Seq<u32>
    decreases t,
{
    if t <= 0 {
        Seq::empty()
    } else {
        let h = secs_upto(ctx, e, start, end, t - 1);
        if spec_secondary(ctx, e, start, end, t - 1) {
            h.push((4 * (t - 1)) as u32)
        } else {
            h
        }
    }
}

/// The mathematical image of one recovered range.
pub ghost struct RangeV {
    pub start: u32,
    pub end: u32,
    pub declared: bool,
    pub complete: bool,
    pub entries: Seq<u32>,
}

pub open spec fn view_range(fr: FunctionRange) -> RangeV {
    RangeV {
        start: fr.start,
        end: fr.end,
        declared: fr.declared,
        complete: fr.complete,
        entries: fr.entries@,
    }
}

/// The range explored from entry `e` before merging.
pub open spec fn range_rec(ctx: CodeCtx, e: int) -> RangeV {
    RangeV {
        start: (4 * e) as u32,
        end: spec_end(ctx, e) as u32,
        declared: spec_seed(ctx, e),
        complete: spec_complete(ctx, e),
        entries: secs_upto(ctx, e, 4 * e, spec_end(ctx, e), words(ctx)),
    }
}

/// Merges a new range into the list: two entries whose explored ranges
/// overlap fuse into one, the lowest entry winning as primary and the other
/// recorded as a secondary entry; a symbol-declared member keeps the merged
/// range declared.
pub open spec fn merge_push(rs: Seq<RangeV>, r: RangeV) -> Seq<RangeV> {
    if rs.len() > 0 && r.start < rs.last().end {
        let l = rs.last();
        rs.update(
            rs.len() - 1,
            RangeV {
                start: l.start,
                end: if r.end > l.end {
                    r.end
                } else {
                    l.end
                },
                declared: l.declared || r.declared,
                complete: l.complete && r.complete,
                entries: l.entries + seq![r.start] + r.entries,
            },
        )
    } else {
        rs.push(r)
    }
}

pub open spec fn spec_collect(ctx: CodeCtx, i: int) -> Seq<RangeV>
    decreases i,
{
    if i <= 0 {
        Seq::empty()
    } else {
        let h = spec_collect(ctx, i - 1);
        if spec_entries(ctx)[i - 1] {
            merge_push(h, range_rec(ctx, i - 1))
        } else {
            h
        }
    }
}

/// Everything the analyzer produces for one code section.
pub open spec fn spec_analyze(ctx: CodeCtx) -> Seq<RangeV> {
    spec_collect(ctx, words(ctx))
}

/// The furthest terminator lies within the scanned words, on a word
/// boundary.
pub proof fn lemma_scan_bounds(ctx: CodeCtx, r: Seq<bool>, i: int)
    requires
        i >= 0,
    ensures
        0 <= max_term_upto(ctx, r, i) <= 4 * i,
        max_term_upto(ctx, r, i) % 4 == 0,
        0 <= max_reach_upto(ctx, r, i) <= 4 * i,
        max_reach_upto(ctx, r, i) % 4 == 0,
    decreases i,
{
    if i > 0 {
        lemma_scan_bounds(ctx, r, i - 1);
    }
}

/// Every recorded secondary entry lies inside the range, off the primary
/// entry, on a word boundary.
pub proof fn lemma_secs_bounds(ctx: CodeCtx, e: int, start: int, end: int, t: int)
    requires
        0 <= start,
        end <= u32::MAX,
    ensures
        forall|idx: int|
            0 <= idx < secs_upto(ctx, e, start, end, t).len() ==> {
                let x = #[trigger] secs_upto(ctx, e, start, end, t)[idx];
                start <= x < end && x != start && x % 4 == 0
            },
    decreases t,
{
    if t > 0 {
        lemma_secs_bounds(ctx, e, start, end, t - 1);
        let h = secs_upto(ctx, e, start, end, t - 1);
        let s = secs_upto(ctx, e, start, end, t);
        if spec_secondary(ctx, e, start, end, t - 1) {
            assert(s == h.push((4 * (t - 1)) as u32));
            vstd::arithmetic::div_mod::lemma_mod_multiples_basic(t - 1, 4);
            assert(4 * (t - 1) == (t - 1) * 4);
            assert forall|idx: int| 0 <= idx < s.len() implies {
                let x = #[trigger] s[idx];
                start <= x < end && x != start && x % 4 == 0
            } by {
                if idx < h.len() {
                    assert(s[idx] == h[idx]);
                } else {
                    assert(s[idx] == (4 * (t - 1)) as u32);
                    assert((4 * (t - 1)) % 4 == 0);
                }
            }
        } else {
            assert(s == h);
        }
    }
}

/// Idempotence law: the analysis reads only sections, symbols and
/// relocations, so any two modules agreeing there — in particular a module
/// before and after its recovered ranges were attached — analyze to exactly
/// the same function ranges, and a second run reproduces the first.
pub proof fn lemma_analysis_idempotent(a: Module, b: Module, sec: u32)
    requires
        a.sections@ == b.sections@,
        a.symbols@ == b.symbols@,
        a.relocations@ == b.relocations@,
    ensures
        spec_analyze(ctx_of(a, sec)) == spec_analyze(ctx_of(b, sec)),
{
    assert(ctx_of(a, sec) == ctx_of(b, sec));
}

/// Number of whole instruction words of the analyzed section.
fn section_words(m: &Module, sec: u32) -> (nw: usize)
    requires
        module_wf(*m),
        (sec as int) < m.sections@.len(),
    ensures
        nw as int == words(ctx_of(*m, sec)),
        4 * nw <= m.sections@[sec as int].data@.len(),
        4 * nw <= u32::MAX,
{
    let n = m.sections[sec as usize].data.len();
    let nw = n / 4;
    proof {
        assert(crate::obj::section_wf(m.sections@[sec as int]));
        vstd::arithmetic::div_mod::lemma_fundamental_div_mod(n as int, 4);
    }
    nw
}

/// Classifies the word at `j`.
#[verifier::loop_isolation(false)]
pub fn step_at(m: &Module, sec: u32, j: usize) -> (st: Step)
    requires
        module_wf(*m),
        (sec as int) < m.sections@.len(),
        (j as int) < words(ctx_of(*m, sec)),
    ensures
        st == spec_step(ctx_of(*m, sec), j as int),
{
    let nw = section_words(m, sec);
    let data = &m.sections[sec as usize].data;
    let w = get_be32(data, 4 * j);
    assert(w == word_at(ctx_of(*m, sec), j as int));
    let op = w >> 26;
    if op == 18 {
        let li = w & 0x03FF_FFFC;
        let disp: i64 = if w & 0x0200_0000 != 0 {
            li as i64 - 0x0400_0000
        } else {
            li as i64
        };
        let t: i64 = 4 * (j as i64) + disp;
        let tgt: Option<u32> = if w & 2 == 0 && t >= 0 && t < 4 * (nw as i64) {
            Some(t as u32)
        } else {
            None
        };
        if w & 1 == 1 {
            Step::Call(tgt)
        } else {
            Step::Jump(tgt)
        }
    } else if op == 16 {
        let bd = w & 0xFFFC;
        let disp: i64 = if w & 0x8000 != 0 {
            bd as i64 - 0x1_0000
        } else {
            bd as i64
        };
        let t: i64 = 4 * (j as i64) + disp;
        let tgt: Option<u32> = if w & 2 == 0 && t >= 0 && t < 4 * (nw as i64) {
            Some(t as u32)
        } else {
            None
        };
        Step::Cond(tgt)
    } else if op == 19 {
        let ext = (w >> 1) & 0x3FF;
        if ext == 16 {
            Step::Stop
        } else if ext == 528 {
            Step::Table
        } else {
            Step::Fall
        }
    } else {
        Step::Fall
    }
}

/// Reads the jump table feeding the computed branch at `j`, if one can be
/// resolved statically.
#[verifier::loop_isolation(false)]
pub fn table_targets(m: &Module, sec: u32, j: usize) -> (tv: Vec<u32>)
    requires
        module_wf(*m),
        (sec as int) < m.sections@.len(),
        (j as int) < words(ctx_of(*m, sec)),
    ensures
        tv@ == spec_table_targets(ctx_of(*m, sec), j as int),
{
    let ghost ctx = ctx_of(*m, sec);
    let nw = section_words(m, sec);
    if 4 * j < 8 {
        return Vec::new();
    }
    let off: u32 = (4 * j - 8) as u32;
    let nr = m.relocations.len();
    let mut ri: Option<usize> = None;
    let mut k: usize = 0;
    while k < nr
        invariant
            k <= nr,
            match ri {
                Option::Some(x) => find_reloc_at(ctx.relocs, ctx.sec, off as int, 0)
                    == Option::Some(x as int) && x < nr,
                Option::None => find_reloc_at(ctx.relocs, ctx.sec, off as int, k as int)
                    == find_reloc_at(ctx.relocs, ctx.sec, off as int, 0),
            },
        decreases nr - k,
    {
        if matches!(ri, None) {
            let r = m.relocations[k];
            if r.section == sec && r.offset == off {
                ri = Some(k);
            }
        }
        k = k + 1;
    }
    let ridx = match ri {
        None => {
            assert(find_reloc_at(ctx.relocs, ctx.sec, off as int, nr as int) is None);
            return Vec::new();
        },
        Some(x) => x,
    };
    let r = m.relocations[ridx];
    assert(crate::obj::reloc_wf(m.sections@, m.symbols@.len() as int, r));
    let s = &m.symbols[r.symbol as usize];
    match s.section {
        None => Vec::new(),
        Some(d) => {
            assert(crate::obj::symbol_wf(m.sections@, m.symbols@[r.symbol as int]));
            if !matches!(m.sections[d as usize].kind, SectionKind::Data) {
                return Vec::new();
            }
            if s.size % 4 != 0 {
                return Vec::new();
            }
            let cnt = (s.size / 4) as usize;
            proof {
                vstd::arithmetic::div_mod::lemma_fundamental_div_mod(s.size as int, 4);
            }
            let ddata = &m.sections[d as usize].data;
            let base = s.offset as usize;
            let mut tv: Vec<u32> = Vec::new();
            let mut t: usize = 0;
            while t < cnt
                invariant
                    t <= cnt,
                    tv@.len() == t,
                    forall|idx: int|
                        0 <= idx < t ==> tv@[idx] == read_be32(
                            m.sections@[d as int].data@,
                            s.offset + 4 * idx,
                        ),
                decreases cnt - t,
            {
                tv.push(get_be32(ddata, base + 4 * t));
                t = t + 1;
            }
            proof {
                assert(tv@ =~= spec_table_targets(ctx, j as int));
            }
            tv
        },
    }
}

/// Whether word `i` directly follows word `j` in control flow.
#[verifier::loop_isolation(false)]
pub fn is_succ(m: &Module, sec: u32, j: usize, i: usize) -> (r: bool)
    requires
        module_wf(*m),
        (sec as int) < m.sections@.len(),
        (j as int) < words(ctx_of(*m, sec)),
        (i as int) < words(ctx_of(*m, sec)),
    ensures
        r == spec_succ(ctx_of(*m, sec), j as int, i as int),
{
    let ghost ctx = ctx_of(*m, sec);
    let nw = section_words(m, sec);
    match step_at(m, sec, j) {
        Step::Fall => i == j + 1,
        Step::Jump(t) => match t {
            Some(tt) => 4 * i == tt as usize,
            None => false,
        },
        Step::Cond(t) => i == j + 1 || match t {
            Some(tt) => 4 * i == tt as usize,
            None => false,
        },
        Step::Call(_) => i == j + 1,
        Step::Stop => false,
        Step::Table => {
            let tv = table_targets(m, sec, j);
            let mut found = false;
            let mut k: usize = 0;
            while k < tv.len()
                invariant
                    k <= tv@.len(),
                    found ==> exists|k0: int|
                        0 <= k0 < tv@.len() && valid_target(ctx, #[trigger] tv@[k0]) && 4 * (
                        i as int) == tv@[k0],
                    !found ==> forall|k0: int|
                        0 <= k0 < k ==> !(valid_target(ctx, #[trigger] tv@[k0]) && 4 * (i as int)
                            == tv@[k0]),
                decreases tv@.len() - k,
            {
                let t = tv[k];
                if t % 4 == 0 && (t as usize) < 4 * nw && t as usize == 4 * i {
                    found = true;
                }
                k = k + 1;
            }
            found
        },
    }
}

/// Whether an edge out of word `j` had to be dropped.
#[verifier::loop_isolation(false)]
pub fn is_dropped(m: &Module, sec: u32, j: usize) -> (r: bool)
    requires
        module_wf(*m),
        (sec as int) < m.sections@.len(),
        (j as int) < words(ctx_of(*m, sec)),
    ensures
        r == spec_dropped(ctx_of(*m, sec), j as int),
{
    let ghost ctx = ctx_of(*m, sec);
    let nw = section_words(m, sec);
    match step_at(m, sec, j) {
        Step::Fall => j + 1 >= nw,
        Step::Jump(t) => matches!(t, None),
        Step::Cond(t) => matches!(t, None) || j + 1 >= nw,
        Step::Call(t) => matches!(t, None) || j + 1 >= nw,
        Step::Stop => false,
        Step::Table => {
            let tv = table_targets(m, sec, j);
            if tv.len() == 0 {
                return true;
            }
            let mut bad = false;
            let mut k: usize = 0;
            while k < tv.len()
                invariant
                    k <= tv@.len(),
                    bad ==> exists|k0: int|
                        0 <= k0 < tv@.len() && !valid_target(ctx, #[trigger] tv@[k0]),
                    !bad ==> forall|k0: int|
                        0 <= k0 < k ==> valid_target(ctx, #[trigger] tv@[k0]),
                decreases tv@.len() - k,
            {
                let t = tv[k];
                if !(t % 4 == 0 && (t as usize) < 4 * nw) {
                    bad = true;
                }
                k = k + 1;
            }
            bad
        },
    }
}

/// Whether control stops flowing linearly at word `j`.
pub fn is_terminal(m: &Module, sec: u32, j: usize) -> (r: bool)
    requires
        module_wf(*m),
        (sec as int) < m.sections@.len(),
        (j as int) < words(ctx_of(*m, sec)),
    ensures
        r == spec_terminal(ctx_of(*m, sec), j as int),
{
    match step_at(m, sec, j) {
        Step::Stop => true,
        Step::Jump(_) => true,
        Step::Table => true,
        _ => false,
    }
}

/// One reachability round over the whole section.
#[verifier::loop_isolation(false)]
fn expand_reach(m: &Module, sec: u32, r: &Vec<bool>) -> (out: Vec<bool>)
    requires
        module_wf(*m),
        (sec as int) < m.sections@.len(),
        r@.len() == words(ctx_of(*m, sec)),
    ensures
        out@ == spec_expand(ctx_of(*m, sec), r@),
{
    let ghost ctx = ctx_of(*m, sec);
    let nw = section_words(m, sec);
    let mut out: Vec<bool> = Vec::new();
    let mut i: usize = 0;
    while i < nw
        invariant
            i <= nw,
            out@.len() == i,
            forall|idx: int| 0 <= idx < i ==> out@[idx] == spec_expand(ctx, r@)[idx],
        decreases nw - i,
    {
        let mut hit = r[i];
        let mut j: usize = 0;
        while j < nw
            invariant
                j <= nw,
                i < nw,
                hit == (r@[i as int] || exists|j0: int|
                    0 <= j0 < j && r@[j0] && spec_succ(ctx, j0, i as int)),
            decreases nw - j,
        {
            if r[j] && is_succ(m, sec, j, i) {
                hit = true;
            }
            j = j + 1;
        }
        out.push(hit);
        i = i + 1;
    }
    proof {
        assert(out@ =~= spec_expand(ctx, r@));
    }
    out
}

/// Every word reachable from entry `e`, by iterating one round per word.
#[verifier::loop_isolation(false)]
pub fn reach_from(m: &Module, sec: u32, e: usize) -> (rv: Vec<bool>)
    requires
        module_wf(*m),
        (sec as int) < m.sections@.len(),
        (e as int) < words(ctx_of(*m, sec)),
    ensures
        rv@ == spec_reach(ctx_of(*m, sec), e as int),
{
    let ghost ctx = ctx_of(*m, sec);
    let nw = section_words(m, sec);
    let mut rv: Vec<bool> = Vec::new();
    let mut i: usize = 0;
    while i < nw
        invariant
            i <= nw,
            rv@.len() == i,
            forall|idx: int| 0 <= idx < i ==> rv@[idx] == (idx == e as int),
        decreases nw - i,
    {
        rv.push(i == e);
        i = i + 1;
    }
    proof {
        assert(rv@ =~= seed_one(words(ctx), e as int));
    }
    let mut k: usize = 0;
    while k < nw
        invariant
            k <= nw,
            rv@ == spec_iter(ctx, seed_one(words(ctx), e as int), k as nat),
            rv@.len() == words(ctx),
        decreases nw - k,
    {
        let next = expand_reach(m, sec, &rv);
        rv = next;
        k = k + 1;
    }
    rv
}

/// Marks every word that a function-entry symbol declares.
#[verifier::loop_isolation(false)]
fn seed_flags(m: &Module, sec: u32) -> (sv: Vec<bool>)
    requires
        module_wf(*m),
        (sec as int) < m.sections@.len(),
    ensures
        sv@.len() == words(ctx_of(*m, sec)),
        forall|i: int| 0 <= i < sv@.len() ==> sv@[i] == spec_seed(ctx_of(*m, sec), i),
{
    let ghost ctx = ctx_of(*m, sec);
    let nw = section_words(m, sec);
    let ns = m.symbols.len();
    let mut sv: Vec<bool> = Vec::new();
    let mut i: usize = 0;
    while i < nw
        invariant
            i <= nw,
            sv@.len() == i,
            forall|idx: int| 0 <= idx < i ==> sv@[idx] == spec_seed(ctx, idx),
        decreases nw - i,
    {
        let mut hit = false;
        let mut s: usize = 0;
        while s < ns
            invariant
                s <= ns,
                i < nw,
                hit ==> spec_seed(ctx, i as int),
                !hit ==> forall|s0: int|
                    0 <= s0 < s ==> !{
                        let y = #[trigger] ctx.symbols[s0];
                        y.kind == SymbolKind::Function && y.section == Option::Some(ctx.sec as u32)
                            && y.offset as int == 4 * i
                    },
            decreases ns - s,
        {
            let y = &m.symbols[s];
            let in_sec = match y.section {
                Some(d) => d == sec,
                None => false,
            };
            if matches!(y.kind, SymbolKind::Function) && in_sec && y.offset as usize == 4 * i {
                assert(ctx.symbols[s as int].offset as int == 4 * i);
                hit = true;
            }
            s = s + 1;
        }
        sv.push(hit);
        i = i + 1;
    }
    sv
}

/// Whether word `j` calls the word at `4 * t`.
pub fn is_call_to(m: &Module, sec: u32, j: usize, t: usize) -> (r: bool)
    requires
        module_wf(*m),
        (sec as int) < m.sections@.len(),
        (j as int) < words(ctx_of(*m, sec)),
        (t as int) < words(ctx_of(*m, sec)),
    ensures
        r == spec_call_to(ctx_of(*m, sec), j as int, t as int),
{
    match step_at(m, sec, j) {
        Step::Call(tgt) => match tgt {
            Some(tt) => tt as usize == 4 * t,
            None => false,
        },
        _ => false,
    }
}

/// Whether any word of `row` calls the word at `4 * t`.
#[verifier::loop_isolation(false)]
fn any_call_from(m: &Module, sec: u32, row: &Vec<bool>, t: usize) -> (r: bool)
    requires
        module_wf(*m),
        (sec as int) < m.sections@.len(),
        row@.len() == words(ctx_of(*m, sec)),
        (t as int) < words(ctx_of(*m, sec)),
    ensures
        r == exists|j: int|
            0 <= j < words(ctx_of(*m, sec)) && row@[j] && spec_call_to(
                ctx_of(*m, sec),
                j,
                t as int,
            ),
{
    let ghost ctx = ctx_of(*m, sec);
    let nw = section_words(m, sec);
    let mut found = false;
    let mut j: usize = 0;
    while j < nw
        invariant
            j <= nw,
            found ==> exists|j0: int|
                0 <= j0 < words(ctx) && row@[j0] && spec_call_to(ctx, j0, t as int),
            !found ==> forall|j0: int|
                0 <= j0 < j ==> !(row@[j0] && spec_call_to(ctx, j0, t as int)),
        decreases nw - j,
    {
        if row[j] && is_call_to(m, sec, j, t) {
            found = true;
        }
        j = j + 1;
    }
    found
}

/// One round of entry discovery over precomputed reachability rows.
#[verifier::loop_isolation(false)]
fn entries_expand_exec(m: &Module, sec: u32, rows: &Vec<Vec<bool>>, ev: &Vec<bool>) -> (out: Vec<
    bool,
>)
    requires
        module_wf(*m),
        (sec as int) < m.sections@.len(),
        rows@.len() == words(ctx_of(*m, sec)),
        forall|e: int|
            0 <= e < rows@.len() ==> (#[trigger] rows@[e])@ == spec_reach(ctx_of(*m, sec), e),
        ev@.len() == words(ctx_of(*m, sec)),
    ensures
        out@ == spec_entries_expand(ctx_of(*m, sec), ev@),
{
    let ghost ctx = ctx_of(*m, sec);
    let nw = section_words(m, sec);
    let mut out: Vec<bool> = Vec::new();
    let mut t: usize = 0;
    while t < nw
        invariant
            t <= nw,
            out@.len() == t,
            forall|idx: int| 0 <= idx < t ==> out@[idx] == spec_entries_expand(ctx, ev@)[idx],
        decreases nw - t,
    {
        let mut hit = ev[t];
        let mut e: usize = 0;
        while e < nw
            invariant
                e <= nw,
                t < nw,
                hit ==> spec_entries_expand(ctx, ev@)[t as int],
                !hit ==> forall|e0: int, j0: int|
                    0 <= e0 < e && 0 <= j0 < words(ctx) ==> !(ev@[e0] && spec_reach(ctx, e0)[j0]
                        && spec_call_to(ctx, j0, t as int)),
                !hit ==> !ev@[t as int],
            decreases nw - e,
        {
            proof {
                lemma_reach_len(ctx, e as int);
            }
            if ev[e] && any_call_from(m, sec, &rows[e], t) {
                proof {
                    let j0 = choose|j0: int|
                        0 <= j0 < words(ctx) && rows@[e as int]@[j0] && spec_call_to(
                            ctx,
                            j0,
                            t as int,
                        );
                    assert(ev@[e as int] && spec_reach(ctx, e as int)[j0] && spec_call_to(
                        ctx,
                        j0,
                        t as int,
                    ));
                }
                hit = true;
            }
            e = e + 1;
        }
        out.push(hit);
        t = t + 1;
    }
    proof {
        assert(out@ =~= spec_entries_expand(ctx, ev@));
    }
    out
}

/// All function entries: seeds plus discovered call targets, to a fixed
/// point.
#[verifier::loop_isolation(false)]
fn compute_entries(m: &Module, sec: u32, rows: &Vec<Vec<bool>>) -> (ev: Vec<bool>)
    requires
        module_wf(*m),
        (sec as int) < m.sections@.len(),
        rows@.len() == words(ctx_of(*m, sec)),
        forall|e: int|
            0 <= e < rows@.len() ==> (#[trigger] rows@[e])@ == spec_reach(ctx_of(*m, sec), e),
    ensures
        ev@ == spec_entries(ctx_of(*m, sec)),
        ev@.len() == words(ctx_of(*m, sec)),
{
    let ghost ctx = ctx_of(*m, sec);
    let nw = section_words(m, sec);
    let mut ev = seed_flags(m, sec);
    proof {
        assert(ev@ =~= spec_entries_iter(ctx, 0));
    }
    let mut k: usize = 0;
    while k < nw
        invariant
            k <= nw,
            ev@ == spec_entries_iter(ctx, k as nat),
            ev@.len() == words(ctx),
        decreases nw - k,
    {
        let next = entries_expand_exec(m, sec, rows, &ev);
        ev = next;
        k = k + 1;
    }
    ev
}

/// Reachability from every word, one row per potential entry.
#[verifier::loop_isolation(false)]
fn reach_rows(m: &Module, sec: u32) -> (rows: Vec<Vec<bool>>)
    requires
        module_wf(*m),
        (sec as int) < m.sections@.len(),
    ensures
        rows@.len() == words(ctx_of(*m, sec)),
        forall|e: int|
            0 <= e < rows@.len() ==> (#[trigger] rows@[e])@ == spec_reach(ctx_of(*m, sec), e),
{
    let ghost ctx = ctx_of(*m, sec);
    let nw = section_words(m, sec);
    let mut rows: Vec<Vec<bool>> = Vec::new();
    let mut e: usize = 0;
    while e < nw
        invariant
            e <= nw,
            rows@.len() == e,
            forall|e0: int| 0 <= e0 < e ==> (#[trigger] rows@[e0])@ == spec_reach(ctx, e0),
        decreases nw - e,
    {
        let row = reach_from(m, sec, e);
        rows.push(row);
        e = e + 1;
    }
    rows
}

/// The byte end of the extent explored from `e`.
#[verifier::loop_isolation(false)]
fn scan_end(m: &Module, sec: u32, row: &Vec<bool>, e: usize) -> (end: u32)
    requires
        module_wf(*m),
        (sec as int) < m.sections@.len(),
        (e as int) < words(ctx_of(*m, sec)),
        row@ == spec_reach(ctx_of(*m, sec), e as int),
    ensures
        end as int == spec_end(ctx_of(*m, sec), e as int),
{
    let ghost ctx = ctx_of(*m, sec);
    let nw = section_words(m, sec);
    proof {
        lemma_reach_len(ctx, e as int);
    }
    let mut mt: u32 = 0;
    let mut i: usize = 0;
    while i < nw
        invariant
            i <= nw,
            mt as int == max_term_upto(ctx, row@, i as int),
        decreases nw - i,
    {
        proof {
            lemma_scan_bounds(ctx, row@, i as int);
        }
        if row[i] && is_terminal(m, sec, i) {
            let cand = (4 * (i + 1)) as u32;
            if cand > mt {
                mt = cand;
            }
        }
        i = i + 1;
    }
    let mut mr: u32 = mt;
    if mt == 0 {
        let mut i: usize = 0;
        mr = 0;
        while i < nw
            invariant
                i <= nw,
                mr as int == max_reach_upto(ctx, row@, i as int),
            decreases nw - i,
        {
            proof {
                lemma_scan_bounds(ctx, row@, i as int);
            }
            if row[i] {
                let cand = (4 * (i + 1)) as u32;
                if cand > mr {
                    mr = cand;
                }
            }
            i = i + 1;
        }
    }
    let floor = (4 * (e + 1)) as u32;
    if mr < floor {
        floor
    } else {
        mr
    }
}

/// Whether the extent explored from `e` reached a terminator and dropped no
/// edge.
#[verifier::loop_isolation(false)]
fn scan_complete(m: &Module, sec: u32, row: &Vec<bool>, e: usize) -> (c: bool)
    requires
        module_wf(*m),
        (sec as int) < m.sections@.len(),
        (e as int) < words(ctx_of(*m, sec)),
        row@ == spec_reach(ctx_of(*m, sec), e as int),
    ensures
        c == spec_complete(ctx_of(*m, sec), e as int),
{
    let ghost ctx = ctx_of(*m, sec);
    let nw = section_words(m, sec);
    proof {
        lemma_reach_len(ctx, e as int);
    }
    let mut term = false;
    let mut dropped = false;
    let mut j: usize = 0;
    while j < nw
        invariant
            j <= nw,
            term ==> exists|j0: int|
                0 <= j0 < words(ctx) && row@[j0] && spec_terminal(ctx, j0),
            !term ==> forall|j0: int| 0 <= j0 < j ==> !(row@[j0] && spec_terminal(ctx, j0)),
            dropped ==> exists|j0: int|
                0 <= j0 < words(ctx) && row@[j0] && spec_dropped(ctx, j0),
            !dropped ==> forall|j0: int| 0 <= j0 < j ==> !(row@[j0] && spec_dropped(ctx, j0)),
        decreases nw - j,
    {
        if row[j] {
            if is_terminal(m, sec, j) {
                term = true;
            }
            if is_dropped(m, sec, j) {
                dropped = true;
            }
        }
        j = j + 1;
    }
    term && !dropped
}

/// Whether a jump table of a word explored from `e` targets the word
/// `4 * t`.
#[verifier::loop_isolation(false)]
fn any_table_to(m: &Module, sec: u32, row: &Vec<bool>, t: usize) -> (r: bool)
    requires
        module_wf(*m),
        (sec as int) < m.sections@.len(),
        row@.len() == words(ctx_of(*m, sec)),
        (t as int) < words(ctx_of(*m, sec)),
    ensures
        r == exists|j: int, k: int|
            0 <= j < words(ctx_of(*m, sec)) && row@[j] && spec_step(ctx_of(*m, sec), j)
                == Step::Table && 0 <= k < spec_table_targets(ctx_of(*m, sec), j).len()
                && #[trigger] spec_table_targets(ctx_of(*m, sec), j)[k] == 4 * t,
{
    let ghost ctx = ctx_of(*m, sec);
    let nw = section_words(m, sec);
    let mut found = false;
    let mut j: usize = 0;
    while j < nw
        invariant
            j <= nw,
            found ==> exists|j0: int, k0: int|
                0 <= j0 < words(ctx) && row@[j0] && spec_step(ctx, j0) == Step::Table && 0 <= k0
                    < spec_table_targets(ctx, j0).len() && #[trigger] spec_table_targets(
                    ctx,
                    j0,
                )[k0] == 4 * (t as int),
            !found ==> forall|j0: int, k0: int|
                0 <= j0 < j && 0 <= k0 < spec_table_targets(ctx, j0).len() ==> !(row@[j0]
                    && spec_step(ctx, j0) == Step::Table && #[trigger] spec_table_targets(
                    ctx,
                    j0,
                )[k0] == 4 * (t as int)),
        decreases nw - j,
    {
        let is_table = matches!(step_at(m, sec, j), Step::Table);
        if row[j] && is_table {
            let tv = table_targets(m, sec, j);
            let mut k: usize = 0;
            while k < tv.len()
                invariant
                    k <= tv@.len(),
                    j < nw,
                    tv@ == spec_table_targets(ctx, j as int),
                    row@[j as int],
                    spec_step(ctx, j as int) == Step::Table,
                    found ==> exists|j0: int, k0: int|
                        0 <= j0 < words(ctx) && row@[j0] && spec_step(ctx, j0) == Step::Table && 0
                            <= k0 < spec_table_targets(ctx, j0).len()
                            && #[trigger] spec_table_targets(ctx, j0)[k0] == 4 * (t as int),
                    !found ==> forall|k0: int| 0 <= k0 < k ==> #[trigger] tv@[k0] != 4 * (t as int),
                    !found ==> forall|j0: int, k0: int|
                        0 <= j0 < j && 0 <= k0 < spec_table_targets(ctx, j0).len() ==> !(row@[j0]
                            && spec_step(ctx, j0) == Step::Table && #[trigger] spec_table_targets(
                            ctx,
                            j0,
                        )[k0] == 4 * (t as int)),
                decreases tv@.len() - k,
            {
                if tv[k] as usize == 4 * t {
                    found = true;
                }
                k = k + 1;
            }
        }
        j = j + 1;
    }
    found
}

/// The secondary entries of the range explored from `e`.
#[verifier::loop_isolation(false)]
fn scan_secondaries(m: &Module, sec: u32, row: &Vec<bool>, e: usize, start: u32, end: u32) -> (sv:
    Vec<u32>)
    requires
        module_wf(*m),
        (sec as int) < m.sections@.len(),
        (e as int) < words(ctx_of(*m, sec)),
        row@ == spec_reach(ctx_of(*m, sec), e as int),
        start as int == 4 * e,
        end as int == spec_end(ctx_of(*m, sec), e as int),
    ensures
        sv@ == secs_upto(
            ctx_of(*m, sec),
            e as int,
            4 * (e as int),
            spec_end(ctx_of(*m, sec), e as int),
            words(ctx_of(*m, sec)),
        ),
{
    let ghost ctx = ctx_of(*m, sec);
    let nw = section_words(m, sec);
    proof {
        lemma_reach_len(ctx, e as int);
    }
    let mut sv: Vec<u32> = Vec::new();
    let mut t: usize = 0;
    while t < nw
        invariant
            t <= nw,
            sv@ == secs_upto(ctx, e as int, 4 * (e as int), spec_end(ctx, e as int), t as int),
        decreases nw - t,
    {
        let t4 = 4 * t;
        let in_range = start as usize <= t4 && (t4 as u64) < end as u64 && t4 != start as usize;
        if in_range && any_table_to(m, sec, row, t) {
            sv.push(t4 as u32);
            assert(spec_secondary(ctx, e as int, 4 * (e as int), spec_end(ctx, e as int), t as int));
        } else {
            assert(!spec_secondary(
                ctx,
                e as int,
                4 * (e as int),
                spec_end(ctx, e as int),
                t as int,
            ));
        }
        t = t + 1;
    }
    sv
}

/// Consecutive disjointness and positive extents give disjointness of every
/// pair.
proof fn lemma_chain_disjoint(rs: Seq<FunctionRange>, i: int, j: int)
    requires
        forall|a: int| 0 <= a < rs.len() ==> #[trigger] rs[a].start < rs[a].end,
        forall|a: int| 0 <= a < rs.len() - 1 ==> #[trigger] rs[a].end <= rs[a + 1].start,
        0 <= i < j < rs.len(),
    ensures
        rs[i].end <= rs[j].start,
    decreases j - i,
{
    if j > i + 1 {
        lemma_chain_disjoint(rs, i, j - 1);
        assert(rs[j - 1].end <= rs[j].start);
    }
}

/// Recovers the function extents of one code section: seeds every entry a
/// function symbol declares, explores control flow from each entry and from
/// every discovered call target, grows each range to the furthest
/// terminating word it explored, records jump-table targets as secondary
/// entries, and merges overlapping ranges with the lowest entry as primary.
/// The result is a function of the module's sections, symbols and
/// relocations alone, sorted by start, pairwise disjoint, and well-formed.
#[verifier::loop_isolation(false)]
#[verifier::rlimit(80)]
pub fn analyze(m: &Module, sec: u32) -> (out: Vec<FunctionRange>)
    requires
        module_wf(*m),
        (sec as int) < m.sections@.len(),
    ensures
        out@.map_values(|fr: FunctionRange| view_range(fr)) == spec_analyze(ctx_of(*m, sec)),
        forall|i: int|
            0 <= i < out@.len() ==> range_wf(m.sections@, #[trigger] out@[i]) && out@[i].section
                == sec,
        ranges_disjoint(out@),
{
    let ghost ctx = ctx_of(*m, sec);
    let nw = section_words(m, sec);
    let rows = reach_rows(m, sec);
    let ev = compute_entries(m, sec, &rows);
    let mut out: Vec<FunctionRange> = Vec::new();
    let mut i: usize = 0;
    while i < nw
        invariant
            i <= nw,
            out@.map_values(|fr: FunctionRange| view_range(fr)) == spec_collect(ctx, i as int),
            forall|a: int|
                0 <= a < out@.len() ==> range_wf(m.sections@, #[trigger] out@[a]) && out@[a].section
                    == sec,
            forall|a: int| 0 <= a < out@.len() - 1 ==> #[trigger] out@[a].end <= out@[a + 1].start,
            out@.len() > 0 ==> (out@.last().start as int) < 4 * i,
        decreases nw - i,
    {
        if ev[i] {
            proof {
                lemma_reach_len(ctx, i as int);
            }
            let row = &rows[i];
            let end = scan_end(m, sec, row, i);
            let comp = scan_complete(m, sec, row, i);
            let start = (4 * i) as u32;
            let secd = scan_secondaries(m, sec, row, i, start, end);
            let declared = {
                let sv = seed_flags(m, sec);
                sv[i]
            };
            let rec = FunctionRange {
                section: sec,
                start,
                end,
                declared,
                complete: comp,
                entries: secd,
            };
            proof {
                assert(view_range(rec) == range_rec(ctx, i as int));
                lemma_scan_bounds(ctx, spec_reach(ctx, i as int), words(ctx));
                lemma_iter_keeps(ctx, seed_one(words(ctx), i as int), words(ctx) as nat, i as int);
                lemma_secs_bounds(
                    ctx,
                    i as int,
                    4 * (i as int),
                    spec_end(ctx, i as int),
                    words(ctx),
                );
                assert(rec.start < rec.end);
                assert(rec.end as int <= 4 * words(ctx));
                assert(range_wf(m.sections@, rec));
            }
            if out.len() > 0 && start < out[out.len() - 1].end {
                let l = out.pop().unwrap();
                let ghost lv = view_range(l);
                let merged_end = if rec.end > l.end {
                    rec.end
                } else {
                    l.end
                };
                let mut ents = l.entries;
                ents.push(rec.start);
                let mut q: usize = 0;
                let ghost base_ents = ents@;
                while q < rec.entries.len()
                    invariant
                        q <= rec.entries@.len(),
                        ents@ == base_ents + rec.entries@.take(q as int),
                    decreases rec.entries@.len() - q,
                {
                    ents.push(rec.entries[q]);
                    q = q + 1;
                    proof {
                        assert(ents@ =~= base_ents + rec.entries@.take(q as int));
                    }
                }
                proof {
                    assert(rec.entries@.take(rec.entries@.len() as int) =~= rec.entries@);
                }
                let merged = FunctionRange {
                    section: sec,
                    start: l.start,
                    end: merged_end,
                    declared: l.declared || rec.declared,
                    complete: l.complete && rec.complete,
                    entries: ents,
                };
                proof {
                    assert(range_wf(m.sections@, merged));
                    assert(ents@ =~= lv.entries + seq![rec.start] + rec.entries@);
                }
                out.push(merged);
                proof {
                    assert(view_range(merged) == merge_push(
                        spec_collect(ctx, i as int),
                        range_rec(ctx, i as int),
                    ).last());
                    assert(out@.map_values(|fr: FunctionRange| view_range(fr)) =~~= spec_collect(
                        ctx,
                        i + 1,
                    ));
                }
            } else {
                out.push(rec);
                proof {
                    assert(out@.map_values(|fr: FunctionRange| view_range(fr)) =~= spec_collect(
                        ctx,
                        i + 1,
                    ));
                }
            }
        }
        i = i + 1;
    }
    proof {
        assert forall|a: int, b: int|
            0 <= a < b < out@.len() && out@[a].section == out@[b].section implies out@[a].end
            <= out@[b].start by {
            lemma_chain_disjoint(out@, a, b);
        }
    }
    out
}

} // verus!
