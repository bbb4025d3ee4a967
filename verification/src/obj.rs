use vstd::prelude::*;

verus! {

/// Kind of a section's contents.
#[derive(Clone, Copy, PartialEq, Eq, Structural, Debug)]
pub enum SectionKind {
    /// Executable machine code.
    Code,
    /// Initialized data.
    Data,
    /// Zero-initialized data.
    Bss,
    /// Metadata only; never loaded.
    Metadata,
}

/// A contiguous region of bytes owned by exactly one module and referenced
/// by index everywhere else.
pub struct Section {
    pub name: Vec<u8>,
    pub kind: SectionKind,
    /// Base alignment demanded by the section, in bytes.
    pub align: u32,
    /// Load address: absolute for executable images, module-relative for
    /// dynamic modules, zero while still freestanding.
    pub address: u32,
    pub data: Vec<u8>,
}

#[derive(Clone, Copy, PartialEq, Eq, Structural, Debug)]
pub enum SymbolBinding {
    Local,
    Global,
    Weak,
}

#[derive(Clone, Copy, PartialEq, Eq, Structural, Debug)]
pub enum SymbolKind {
    Function,
    Object,
    NoType,
}

/// A named location. `section == None` marks an external import that this
/// unit does not define.
pub struct Symbol {
    pub name: Vec<u8>,
    pub section: Option<u32>,
    pub offset: u32,
    pub size: u32,
    pub binding: SymbolBinding,
    pub kind: SymbolKind,
}

/// How a relocation patches the 32-bit word it points at.
#[derive(Clone, Copy, PartialEq, Eq, Structural, Debug)]
pub enum RelocKind {
    /// The full 32-bit absolute address replaces the word.
    Abs32,
    /// A 24-bit branch displacement relative to the patch site, placed in
    /// the branch instruction's displacement field.
    Rel24,
    /// The high 16 bits of the address, in the low half of the word.
    Hi16,
    /// The low 16 bits of the address, in the low half of the word.
    Lo16,
}

/// An instruction to patch the word at (section, offset) once the target
/// symbol's address is known.
#[derive(Clone, Copy, PartialEq, Eq, Structural, Debug)]
pub struct Relocation {
    /// Section holding the bytes to patch.
    pub section: u32,
    /// Offset of the patched word within that section.
    pub offset: u32,
    pub kind: RelocKind,
    /// Index of the target symbol in the module's symbol table.
    pub symbol: u32,
    /// Constant added to the resolved address before patching.
    pub addend: i32,
}

/// A recovered function extent inside a code section: derived by analysis,
/// never part of decoded input.
pub struct FunctionRange {
    pub section: u32,
    /// First byte of the function.
    pub start: u32,
    /// One past the last byte.
    pub end: u32,
    /// True when the primary entry comes from a function symbol rather than
    /// from analysis alone.
    pub declared: bool,
    /// False when a control-flow edge had to be dropped or no terminating
    /// instruction was reached: the extent is then a lower-confidence guess.
    pub complete: bool,
    /// Secondary entry offsets: jump-table targets and absorbed entries.
    pub entries: Vec<u32>,
}

/// The shared in-memory model that every codec decodes into and encodes
/// from.
pub struct Module {
    pub module_id: u32,
    pub version: u32,
    /// Index of the entry-point symbol, if the format declares one.
    pub entry: Option<u32>,
    pub sections: Vec<Section>,
    pub symbols: Vec<Symbol>,
    pub relocations: Vec<Relocation>,
    /// Analysis annotations; empty until attached, never read by codecs.
    pub ranges: Vec<FunctionRange>,
}

/// Lengths a 32-bit container can carry.
pub open spec fn section_wf(s: Section) -> bool {
    &&& s.name@.len() <= u32::MAX
    &&& s.data@.len() <= u32::MAX
}

/// A defined symbol lies wholly inside its owning section.
pub open spec fn symbol_wf(sections: Seq<Section>, s: Symbol) -> bool {
    &&& s.name@.len() <= u32::MAX
    &&& match s.section {
        Option::Some(i) => i < sections.len() && s.offset + s.size <= sections[i as int].data@.len(),
        Option::None => true,
    }
}

/// A relocation patches a whole word inside its owning section and names an
/// existing symbol: never dangling.
pub open spec fn reloc_wf(sections: Seq<Section>, n_symbols: int, r: Relocation) -> bool {
    &&& (r.section as int) < sections.len()
    &&& (r.symbol as int) < n_symbols
    &&& r.offset + 4 <= sections[r.section as int].data@.len()
}

/// A function range lies inside a code section on instruction-word
/// boundaries, and its secondary entries lie inside the range.
pub open spec fn range_wf(sections: Seq<Section>, fr: FunctionRange) -> bool {
    &&& (fr.section as int) < sections.len()
    &&& fr.start < fr.end
    &&& fr.end <= sections[fr.section as int].data@.len()
    &&& fr.start % 4 == 0
    &&& fr.end % 4 == 0
    &&& forall|k: int|
        0 <= k < fr.entries@.len() ==> fr.start <= #[trigger] fr.entries@[k] < fr.end
            && fr.entries@[k] % 4 == 0
}

/// Ranges of one section, once finalized, never overlap; they are kept
/// sorted by start.
pub open spec fn ranges_disjoint(rs: Seq<FunctionRange>) -> bool {
    forall|i: int, j: int|
        0 <= i < j < rs.len() && #[trigger] rs[i].section == #[trigger] rs[j].section ==> rs[i].end
            <= rs[j].start
}

/// The model invariant: every constructor establishes it and every mutation
/// preserves it.
pub open spec fn module_wf(m: Module) -> bool {
    &&& m.sections@.len() <= u32::MAX
    &&& m.symbols@.len() <= u32::MAX
    &&& m.relocations@.len() <= u32::MAX
    &&& forall|i: int| 0 <= i < m.sections@.len() ==> section_wf(#[trigger] m.sections@[i])
    &&& forall|i: int| 0 <= i < m.symbols@.len() ==> symbol_wf(m.sections@, #[trigger] m.symbols@[i])
    &&& forall|i: int|
        0 <= i < m.relocations@.len() ==> reloc_wf(
            m.sections@,
            m.symbols@.len() as int,
            #[trigger] m.relocations@[i],
        )
    &&& forall|i: int| 0 <= i < m.ranges@.len() ==> range_wf(m.sections@, #[trigger] m.ranges@[i])
    &&& ranges_disjoint(m.ranges@)
    &&& match m.entry {
        Option::Some(i) => (i as int) < m.symbols@.len(),
        Option::None => true,
    }
}

/// Why an append into the model was refused; appends validate immediately
/// rather than deferring to a later pass.
#[derive(Clone, Copy, PartialEq, Eq, Structural, Debug)]
pub enum ModelError {
    /// A byte length exceeds what a 32-bit container can carry.
    TooLarge,
    /// A table already holds the maximum number of entries.
    TooMany,
    /// A section index does not name an existing section.
    BadSection { index: u32 },
    /// A symbol index does not name an existing symbol.
    BadSymbol { index: u32 },
    /// An offset (plus width) lies outside the named section's bytes.
    OutOfBounds { section: u32, offset: u32 },
}

/// Bounds law: in a validated module every relocation's location lies
/// strictly inside its owning section, with room for the patched word.
pub proof fn lemma_relocation_in_bounds(m: Module, i: int)
    requires
        module_wf(m),
        0 <= i < m.relocations@.len(),
    ensures
        0 <= m.relocations@[i].offset,
        m.relocations@[i].offset + 4 <= m.sections@[m.relocations@[i].section as int].data@.len(),
        (m.relocations@[i].offset as int) < m.sections@[m.relocations@[i].section as int].data@.len(),
{
}

impl Module {
    /// A fresh, empty model owned by one conversion operation.
    pub fn new(module_id: u32) -> (m: Module)
        ensures
            module_wf(m),
            m.module_id == module_id,
            m.version == 0,
            m.entry is None,
            m.sections@.len() == 0,
            m.symbols@.len() == 0,
            m.relocations@.len() == 0,
            m.ranges@.len() == 0,
    {
        Module {
            module_id,
            version: 0,
            entry: None,
            sections: Vec::new(),
            symbols: Vec::new(),
            relocations: Vec::new(),
            ranges: Vec::new(),
        }
    }

    /// Appends a section, refusing lengths the 32-bit container cannot carry.
    pub fn add_section(&mut self, s: Section) -> (res: Result<u32, ModelError>)
        requires
            module_wf(*old(self)),
        ensures
            module_wf(*final(self)),
            match res {
                Result::Ok(i) => {
                    &&& section_wf(s)
                    &&& old(self).sections@.len() < u32::MAX
                    &&& i == old(self).sections@.len()
                    &&& final(self).sections@ == old(self).sections@.push(s)
                    &&& final(self).symbols == old(self).symbols
                    &&& final(self).relocations == old(self).relocations
                    &&& final(self).ranges == old(self).ranges
                    &&& final(self).module_id == old(self).module_id
                    &&& final(self).version == old(self).version
                    &&& final(self).entry == old(self).entry
                },
                Result::Err(e) => {
                    &&& *final(self) == *old(self)
                    &&& !(section_wf(s) && old(self).sections@.len() < u32::MAX)
                    &&& (e == ModelError::TooLarge <==> !section_wf(s))
                    &&& (e == ModelError::TooMany <==> section_wf(s) && old(
                        self,
                    ).sections@.len() == u32::MAX)
                },
            },
    {
        if s.name.len() > u32::MAX as usize || s.data.len() > u32::MAX as usize {
            return Err(ModelError::TooLarge);
        }
        if self.sections.len() >= u32::MAX as usize {
            return Err(ModelError::TooMany);
        }
        let i = self.sections.len() as u32;
        self.sections.push(s);
        assert forall|k: int| 0 <= k < self.symbols@.len() implies symbol_wf(
            self.sections@,
            #[trigger] self.symbols@[k],
        ) by {
            assert(symbol_wf(old(self).sections@, self.symbols@[k]));
        }
        assert forall|k: int| 0 <= k < self.relocations@.len() implies reloc_wf(
            self.sections@,
            self.symbols@.len() as int,
            #[trigger] self.relocations@[k],
        ) by {
            assert(reloc_wf(old(self).sections@, old(self).symbols@.len() as int, self.relocations@[k]));
        }
        assert forall|k: int| 0 <= k < self.ranges@.len() implies range_wf(
            self.sections@,
            #[trigger] self.ranges@[k],
        ) by {
            assert(range_wf(old(self).sections@, self.ranges@[k]));
        }
        Ok(i)
    }

    /// Appends a symbol, validating its owning-section reference and bounds
    /// immediately.
    pub fn add_symbol(&mut self, s: Symbol) -> (res: Result<u32, ModelError>)
        requires
            module_wf(*old(self)),
        ensures
            module_wf(*final(self)),
            match res {
                Result::Ok(i) => {
                    &&& symbol_wf(old(self).sections@, s)
                    &&& old(self).symbols@.len() < u32::MAX
                    &&& i == old(self).symbols@.len()
                    &&& final(self).symbols@ == old(self).symbols@.push(s)
                    &&& final(self).sections == old(self).sections
                    &&& final(self).relocations == old(self).relocations
                    &&& final(self).ranges == old(self).ranges
                    &&& final(self).module_id == old(self).module_id
                    &&& final(self).version == old(self).version
                    &&& final(self).entry == old(self).entry
                },
                Result::Err(_) => {
                    &&& *final(self) == *old(self)
                    &&& !(symbol_wf(old(self).sections@, s) && old(self).symbols@.len()
                        < u32::MAX)
                },
            },
    {
        if s.name.len() > u32::MAX as usize {
            return Err(ModelError::TooLarge);
        }
        match s.section {
            Some(si) => {
                if si as usize >= self.sections.len() {
                    return Err(ModelError::BadSection { index: si });
                }
                let cap = self.sections[si as usize].data.len() as u64;
                if s.offset as u64 + s.size as u64 > cap {
                    return Err(ModelError::OutOfBounds { section: si, offset: s.offset });
                }
            },
            None => {},
        }
        if self.symbols.len() >= u32::MAX as usize {
            return Err(ModelError::TooMany);
        }
        let i = self.symbols.len() as u32;
        self.symbols.push(s);
        assert forall|k: int| 0 <= k < self.relocations@.len() implies reloc_wf(
            self.sections@,
            self.symbols@.len() as int,
            #[trigger] self.relocations@[k],
        ) by {
            assert(reloc_wf(old(self).sections@, old(self).symbols@.len() as int, self.relocations@[k]));
        }
        Ok(i)
    }

    /// Appends a relocation, validating offset bounds immediately and failing
    /// the operation if violated rather than deferring to a later pass.
    pub fn add_relocation(&mut self, r: Relocation) -> (res: Result<u32, ModelError>)
        requires
            module_wf(*old(self)),
        ensures
            module_wf(*final(self)),
            match res {
                Result::Ok(i) => {
                    &&& reloc_wf(old(self).sections@, old(self).symbols@.len() as int, r)
                    &&& old(self).relocations@.len() < u32::MAX
                    &&& i == old(self).relocations@.len()
                    &&& final(self).relocations@ == old(self).relocations@.push(r)
                    &&& final(self).sections == old(self).sections
                    &&& final(self).symbols == old(self).symbols
                    &&& final(self).ranges == old(self).ranges
                    &&& final(self).module_id == old(self).module_id
                    &&& final(self).version == old(self).version
                    &&& final(self).entry == old(self).entry
                },
                Result::Err(_) => {
                    &&& *final(self) == *old(self)
                    &&& !(reloc_wf(old(self).sections@, old(self).symbols@.len() as int, r)
                        && old(self).relocations@.len() < u32::MAX)
                },
            },
    {
        if r.section as usize >= self.sections.len() {
            return Err(ModelError::BadSection { index: r.section });
        }
        if r.symbol as usize >= self.symbols.len() {
            return Err(ModelError::BadSymbol { index: r.symbol });
        }
        let cap = self.sections[r.section as usize].data.len() as u64;
        if r.offset as u64 + 4 > cap {
            return Err(ModelError::OutOfBounds { section: r.section, offset: r.offset });
        }
        if self.relocations.len() >= u32::MAX as usize {
            return Err(ModelError::TooMany);
        }
        let i = self.relocations.len() as u32;
        self.relocations.push(r);
        Ok(i)
    }

    /// Attaches recovered function ranges as auxiliary, non-destructive
    /// annotations: sections, symbols and relocations stay untouched, so a
    /// later analysis run sees exactly what the first one saw.
    pub fn attach_ranges(&mut self, rs: Vec<FunctionRange>)
        requires
            module_wf(*old(self)),
            forall|i: int|
                0 <= i < rs@.len() ==> range_wf(old(self).sections@, #[trigger] rs@[i]),
            ranges_disjoint(rs@),
        ensures
            module_wf(*final(self)),
            final(self).ranges == rs,
            final(self).sections == old(self).sections,
            final(self).symbols == old(self).symbols,
            final(self).relocations == old(self).relocations,
            final(self).module_id == old(self).module_id,
            final(self).version == old(self).version,
            final(self).entry == old(self).entry,
    {
        self.ranges = rs;
    }

    /// First symbol carrying `name`, if any: raw names, never demangled
    /// forms, drive resolution.
    pub fn symbol_by_name(&self, name: &Vec<u8>) -> (r: Option<u32>)
        requires
            module_wf(*self),
        ensures
            match r {
                Option::Some(i) => {
                    &&& (i as int) < self.symbols@.len()
                    &&& self.symbols@[i as int].name@ == name@
                    &&& forall|j: int| 0 <= j < i ==> (#[trigger] self.symbols@[j]).name@ != name@
                },
                Option::None => forall|j: int|
                    0 <= j < self.symbols@.len() ==> (#[trigger] self.symbols@[j]).name@ != name@,
            },
    {
        let n = self.symbols.len();
        let mut j: usize = 0;
        while j < n
            invariant
                module_wf(*self),
                n == self.symbols@.len(),
                j <= n,
                forall|k: int| 0 <= k < j ==> (#[trigger] self.symbols@[k]).name@ != name@,
            decreases n - j,
        {
            if crate::wire::bytes_eq(&self.symbols[j].name, name) {
                return Some(j as u32);
            }
            j = j + 1;
        }
        None
    }

    /// First symbol defined at exactly (section, offset), if any.
    pub fn symbol_at(&self, section: u32, offset: u32) -> (r: Option<u32>)
        requires
            module_wf(*self),
        ensures
            match r {
                Option::Some(i) => {
                    &&& (i as int) < self.symbols@.len()
                    &&& self.symbols@[i as int].section == Option::Some(section)
                    &&& self.symbols@[i as int].offset == offset
                    &&& forall|j: int|
                        0 <= j < i ==> !((#[trigger] self.symbols@[j]).section == Option::Some(
                            section,
                        ) && self.symbols@[j].offset == offset)
                },
                Option::None => forall|j: int|
                    0 <= j < self.symbols@.len() ==> !((#[trigger] self.symbols@[j]).section
                        == Option::Some(section) && self.symbols@[j].offset == offset),
            },
    {
        let n = self.symbols.len();
        let mut j: usize = 0;
        while j < n
            invariant
                module_wf(*self),
                n == self.symbols@.len(),
                j <= n,
                forall|k: int|
                    0 <= k < j ==> !((#[trigger] self.symbols@[k]).section == Option::Some(section)
                        && self.symbols@[k].offset == offset),
            decreases n - j,
        {
            let s = &self.symbols[j];
            let hit = match s.section {
                Some(d) => d == section && s.offset == offset,
                None => false,
            };
            if hit {
                return Some(j as u32);
            }
            j = j + 1;
        }
        None
    }

    /// The indices of every relocation patching `section`, in ascending
    /// order.
    pub fn relocations_for_section(&self, section: u32) -> (r: Vec<u32>)
        requires
            module_wf(*self),
        ensures
            forall|a: int, b: int| 0 <= a < b < r@.len() ==> #[trigger] r@[a] < #[trigger] r@[b],
            forall|a: int|
                0 <= a < r@.len() ==> (#[trigger] r@[a] as int) < self.relocations@.len()
                    && self.relocations@[r@[a] as int].section == section,
            forall|j: int|
                0 <= j < self.relocations@.len() && (#[trigger] self.relocations@[j]).section
                    == section ==> r@.contains(j as u32),
    {
        let n = self.relocations.len();
        let mut r: Vec<u32> = Vec::new();
        let mut j: usize = 0;
        while j < n
            invariant
                module_wf(*self),
                n == self.relocations@.len(),
                j <= n,
                forall|a: int, b: int| 0 <= a < b < r@.len() ==> #[trigger] r@[a] < #[trigger] r@[b],
                forall|a: int|
                    0 <= a < r@.len() ==> (#[trigger] r@[a] as int) < j
                        && self.relocations@[r@[a] as int].section == section,
                forall|k: int|
                    0 <= k < j && (#[trigger] self.relocations@[k]).section == section
                        ==> r@.contains(k as u32),
            decreases n - j,
        {
            let ghost prev = r@;
            if self.relocations[j].section == section {
                r.push(j as u32);
                proof {
                    assert(r@[r@.len() - 1] == j as u32);
                    assert(r@.contains(j as u32));
                    assert forall|k: int|
                        0 <= k < j + 1 && (#[trigger] self.relocations@[k]).section
                            == section implies r@.contains(k as u32) by {
                        if k < j {
                            let idx = choose|idx: int| 0 <= idx < prev.len() && prev[idx] == k as u32;
                            assert(r@[idx] == k as u32);
                        }
                    }
                }
            }
            j = j + 1;
        }
        r
    }
}

} // verus!
