//! The input to a link: an [`Object`] and the pieces it is built from.

use vstd::prelude::*;

use crate::names::same_name;

verus! {

/// The size of the address a relocation patches in: a little-endian integer of 4 or 8
/// bytes.
#[derive(Clone, Copy, PartialEq, Eq, Hash, Debug)]
pub enum Width {
    /// A 32-bit address: four little-endian bytes.
    U32,
    /// A 64-bit address: eight little-endian bytes.
    U64,
}

impl Width {
    /// The number of bytes a slot of this width occupies.
    pub open spec fn size(self) -> nat {
        match self {
            Width::U32 => 4,
            Width::U64 => 8,
        }
    }

    /// The largest address a slot of this width holds.
    pub open spec fn max(self) -> int {
        match self {
            Width::U32 => 0xffff_ffff,
            Width::U64 => 0xffff_ffff_ffff_ffff,
        }
    }

    /// Returns the number of bytes a relocation of this width occupies.
    pub fn bytes(self) -> (n: usize)
        ensures
            n == self.size(),
    {
        match self {
            Width::U32 => 4,
            Width::U64 => 8,
        }
    }

    /// The largest unsigned value this width can hold, widened so that an address plus an
    /// addend can be compared against it without wrapping.
    pub(crate) fn max_value(self) -> (m: i128)
        ensures
            m == self.max(),
    {
        match self {
            Width::U32 => 0xffff_ffff,
            Width::U64 => 0xffff_ffff_ffff_ffff,
        }
    }
}

/// A section as the link sees it: a name and its bytes.
pub struct SectionView {
    pub name: Seq<char>,
    pub data: Seq<u8>,
}

/// A symbol definition as the link sees it.
pub struct SymbolView {
    pub name: Seq<char>,
    pub section: Seq<char>,
    pub offset: u64,
}

/// A relocation as the link sees it.
pub struct RelocationView {
    pub section: Seq<char>,
    pub offset: u64,
    pub target: Seq<char>,
    pub width: Width,
    pub addend: i64,
}

/// An object as the link sees it: its name, its sections in creation order, its symbol
/// definitions and its relocations, each in the order they were recorded.
pub struct ObjectView {
    pub name: Seq<char>,
    pub sections: Seq<SectionView>,
    pub symbols: Seq<SymbolView>,
    pub relocations: Seq<RelocationView>,
}

/// The bytes of the last section in `secs` named `n`, or nothing if there is none.
pub open spec fn section_in(secs: Seq<SectionView>, n: Seq<char>) -> Seq<u8>
    decreases secs.len(),
{
    if secs.len() == 0 {
        seq![]
    } else if secs.last().name == n {
        secs.last().data
    } else {
        section_in(secs.drop_last(), n)
    }
}

/// No two sections in `secs` share a name.
pub open spec fn distinct_names(secs: Seq<SectionView>) -> bool {
    forall|i: int, j: int|
        0 <= i < j < secs.len() ==> #[trigger] secs[i].name != #[trigger] secs[j].name
}

impl ObjectView {
    /// Whether the object created a section named `n`.
    pub open spec fn has_section(self, n: Seq<char>) -> bool {
        exists|i: int| 0 <= i < self.sections.len() && #[trigger] self.sections[i].name == n
    }

    /// The bytes of the object's section named `n` (none if it has no such section).
    pub open spec fn section_bytes(self, n: Seq<char>) -> Seq<u8> {
        section_in(self.sections, n)
    }

    /// An object holds at most one section per name.
    pub open spec fn wf(self) -> bool {
        distinct_names(self.sections)
    }
}

/// A named run of bytes contributed by an object.
pub(crate) struct Section {
    pub(crate) name: String,
    pub(crate) data: Vec<u8>,
}

impl View for Section {
    type V = SectionView;

    closed spec fn view(&self) -> SectionView {
        SectionView { name: self.name@, data: self.data@ }
    }
}

/// A symbol definition: `name` lives at `offset` inside the object's section `section`.
pub(crate) struct SymbolDef {
    pub(crate) name: String,
    pub(crate) section: String,
    pub(crate) offset: u64,
}

impl View for SymbolDef {
    type V = SymbolView;

    closed spec fn view(&self) -> SymbolView {
        SymbolView { name: self.name@, section: self.section@, offset: self.offset }
    }
}

/// A relocation: the `width` bytes at `offset` in `section` must hold the address of
/// `target`, plus `addend`.
pub(crate) struct Relocation {
    pub(crate) section: String,
    pub(crate) offset: u64,
    pub(crate) target: String,
    pub(crate) width: Width,
    pub(crate) addend: i64,
}

impl View for Relocation {
    type V = RelocationView;

    closed spec fn view(&self) -> RelocationView {
        RelocationView {
            section: self.section@,
            offset: self.offset,
            target: self.target@,
            width: self.width,
            addend: self.addend,
        }
    }
}

/// One compilation unit handed to the linker: named byte sections, the symbols defined in
/// them, and the relocations still to be patched. Sections are addressed by name;
/// appending to a name that already exists extends that section, so an object holds at
/// most one section per name.
pub struct Object {
    pub(crate) name: String,
    pub(crate) sections: Vec<Section>,
    pub(crate) symbols: Vec<SymbolDef>,
    pub(crate) relocations: Vec<Relocation>,
}

impl View for Object {
    type V = ObjectView;

    closed spec fn view(&self) -> ObjectView {
        ObjectView {
            name: self.name@,
            sections: self.sections@.map_values(|s: Section| s@),
            symbols: self.symbols@.map_values(|s: SymbolDef| s@),
            relocations: self.relocations@.map_values(|r: Relocation| r@),
        }
    }
}

impl Object {
    #[verifier::type_invariant]
    closed spec fn inv(self) -> bool {
        self@.wf()
    }

    /// Creates an empty object with the given name.
    pub fn new(name: &str) -> (o: Object)
        ensures
            o@.name == name@,
            o@.sections.len() == 0,
            o@.symbols.len() == 0,
            o@.relocations.len() == 0,
    {
        let o = Object {
            name: name.to_owned(),
            sections: Vec::new(),
            symbols: Vec::new(),
            relocations: Vec::new(),
        };
        proof {
            assert(o@.sections =~= Seq::<SectionView>::empty());
        }
        o
    }

    /// Returns the object's name.
    pub fn name(&self) -> (n: &str)
        ensures
            n@ == self@.name,
    {
        self.name.as_str()
    }

    /// The position of the section named `name`, if the object has one.
    fn section_position(&self, name: &str) -> (p: Option<usize>)
        ensures
            match p {
                Some(i) => i < self@.sections.len() && self@.sections[i as int].name == name@,
                None => !self@.has_section(name@),
            },
    {
        let mut i: usize = 0;
        while i < self.sections.len()
            invariant
                i <= self.sections@.len(),
                forall|j: int| 0 <= j < i ==> self@.sections[j].name != name@,
            decreases self.sections@.len() - i,
        {
            if same_name(self.sections[i].name.as_str(), name) {
                return Some(i);
            }
            i = i + 1;
        }
        None
    }
}

impl Object {
    /// Appends `data` to the section named `name`, creating the section if it is new, and
    /// returns the offset within that section where `data` begins: `0` for a fresh
    /// section, the previous length when extending one.
    pub fn section(&mut self, name: &str, data: &[u8]) -> (start: u64)
        ensures
            start == old(self)@.section_bytes(name@).len(),
            final(self)@.has_section(name@),
            final(self)@.section_bytes(name@) == old(self)@.section_bytes(name@) + data@,
            forall|n: Seq<char>| n != name@ ==> #[trigger] final(self)@.has_section(n) == old(self)@.has_section(n)
                && final(self)@.section_bytes(n) == old(self)@.section_bytes(n),
            final(self)@.name == old(self)@.name,
            final(self)@.symbols == old(self)@.symbols,
            final(self)@.relocations == old(self)@.relocations,
            old(self)@.has_section(name@) ==> exists|i: int|
                0 <= i < old(self)@.sections.len() && old(self)@.sections[i].name == name@
                    && final(self)@.sections == old(self)@.sections.update(
                    i,
                    SectionView { name: name@, data: old(self)@.sections[i].data + data@ },
                ),
            !old(self)@.has_section(name@) ==> start == 0 && final(self)@.sections
                == old(self)@.sections.push(SectionView { name: name@, data: data@ }),
    {
        proof { use_type_invariant(&*self); }
        let position = self.section_position(name);
        let mut sections: Vec<Section> = Vec::new();
        std::mem::swap(&mut sections, &mut self.sections);
        match position {
            Some(i) => {
                let mut taken = Section { name: name.to_owned(), data: Vec::new() };
                sections.set_and_swap(i, &mut taken);
                proof {
                    lemma_section_in_distinct(old(self)@.sections, i as int);
                }
                let start = taken.data.len() as u64;
                let ghost before = taken.data@;
                taken.data.extend_from_slice(data);
                proof {
                    assert forall|k: int| 0 <= k < taken.data@.len() implies
                        #[trigger] taken.data@[k] == (before + data@)[k] by {
                        if k >= before.len() {
                            assert(cloned::<u8>(data@[k - before.len()], taken.data@[k]));
                        }
                    }
                    assert(taken.data@ =~= before + data@);
                }
                sections.set_and_swap(i, &mut taken);
                proof {
                    let new_view = sections@.map_values(|s: Section| s@);
                    assert(new_view =~= old(self)@.sections.update(
                        i as int,
                        SectionView { name: name@, data: old(self)@.sections[i as int].data + data@ },
                    ));
                    assert(distinct_names(new_view));
                }
                self.sections = sections;
                proof {
                    lemma_section_in_update(old(self)@.sections, i as int, old(self)@.sections[i as int].data + data@);
                    let new_secs = self@.sections;
                    assert(new_secs =~= old(self)@.sections.update(
                        i as int,
                        SectionView { name: name@, data: old(self)@.sections[i as int].data + data@ },
                    ));
                    assert(before == old(self)@.sections[i as int].data);
                    assert(new_secs[i as int].name == name@);
                    assert(self@.has_section(name@));
                    assert forall|n: Seq<char>| n != name@ implies #[trigger] self@.has_section(n) == old(self)@.has_section(n) by {
                        if self@.has_section(n) {
                            let q = choose|q: int| 0 <= q < new_secs.len() && #[trigger] new_secs[q].name == n;
                            assert(old(self)@.sections[q].name == n);
                        }
                        if old(self)@.has_section(n) {
                            let q = choose|q: int| 0 <= q < old(self)@.sections.len() && #[trigger] old(self)@.sections[q].name == n;
                            assert(new_secs[q].name == n);
                        }
                    }
                    assert(start == old(self)@.section_bytes(name@).len());
                }
                start
            },
            None => {
                sections.push(Section { name: name.to_owned(), data: vstd::slice::slice_to_vec(data) });
                proof {
                    let new_view = sections@.map_values(|s: Section| s@);
                    assert(new_view =~= old(self)@.sections.push(
                        SectionView { name: name@, data: data@ },
                    ));
                    assert forall|a: int, b: int| 0 <= a < b < new_view.len() implies
                        #[trigger] new_view[a].name != #[trigger] new_view[b].name by {
                        if b == new_view.len() - 1 {
                            assert(old(self)@.sections[a].name == new_view[a].name);
                        }
                    }
                }
                self.sections = sections;
                proof {
                    let new_secs = self@.sections;
                    assert(new_secs =~= old(self)@.sections.push(
                        SectionView { name: name@, data: data@ },
                    ));
                    assert(new_secs.drop_last() =~= old(self)@.sections);
                    assert(new_secs[new_secs.len() - 1].name == name@);
                    assert(self@.has_section(name@));
                    assert forall|q: int| 0 <= q < old(self)@.sections.len() implies #[trigger] old(self)@.sections[q].name != name@ by {
                        if old(self)@.sections[q].name == name@ {
                            assert(old(self)@.has_section(name@));
                        }
                    }
                    lemma_section_in_absent(old(self)@.sections, name@);
                    assert(self@.section_bytes(name@) =~= old(self)@.section_bytes(name@) + data@);
                    assert forall|n: Seq<char>| n != name@ implies #[trigger] self@.has_section(n) == old(self)@.has_section(n) by {
                        if self@.has_section(n) {
                            let q = choose|q: int| 0 <= q < new_secs.len() && #[trigger] new_secs[q].name == n;
                            assert(old(self)@.sections[q].name == n);
                        }
                        if old(self)@.has_section(n) {
                            let q = choose|q: int| 0 <= q < old(self)@.sections.len() && #[trigger] old(self)@.sections[q].name == n;
                            assert(new_secs[q].name == n);
                        }
                    }
                }
                0
            },
        }
    }

    /// Defines a symbol named `name` at `offset` bytes into the section `section`.
    pub fn define(&mut self, name: &str, section: &str, offset: u64)
        ensures
            final(self)@.name == old(self)@.name,
            final(self)@.sections == old(self)@.sections,
            final(self)@.relocations == old(self)@.relocations,
            final(self)@.symbols == old(self)@.symbols.push(
                SymbolView { name: name@, section: section@, offset },
            ),
    {
        proof { use_type_invariant(&*self); }
        let mut symbols: Vec<SymbolDef> = Vec::new();
        std::mem::swap(&mut symbols, &mut self.symbols);
        symbols.push(SymbolDef { name: name.to_owned(), section: section.to_owned(), offset });
        self.symbols = symbols;
        proof {
            assert(self@.symbols =~= old(self)@.symbols.push(
                SymbolView { name: name@, section: section@, offset },
            ));
        }
    }

    /// Records a relocation: the `width` bytes at `offset` in `section` hold the address of
    /// `target`, plus `addend`.
    pub fn relocate(&mut self, section: &str, offset: u64, target: &str, width: Width, addend: i64)
        ensures
            final(self)@.name == old(self)@.name,
            final(self)@.sections == old(self)@.sections,
            final(self)@.symbols == old(self)@.symbols,
            final(self)@.relocations == old(self)@.relocations.push(
                RelocationView { section: section@, offset, target: target@, width, addend },
            ),
    {
        proof { use_type_invariant(&*self); }
        let mut relocations: Vec<Relocation> = Vec::new();
        std::mem::swap(&mut relocations, &mut self.relocations);
        relocations.push(Relocation {
            section: section.to_owned(),
            offset,
            target: target.to_owned(),
            width,
            addend,
        });
        self.relocations = relocations;
        proof {
            assert(self@.relocations =~= old(self)@.relocations.push(
                RelocationView { section: section@, offset, target: target@, width, addend },
            ));
        }
    }

    /// Returns the bytes of the section named `name`, or `None` if the object has no such
    /// section.
    pub fn section_data(&self, name: &str) -> (d: Option<&[u8]>)
        ensures
            match d {
                Some(bytes) => self@.has_section(name@) && bytes@ == self@.section_bytes(name@),
                None => !self@.has_section(name@),
            },
    {
        proof { use_type_invariant(self); }
        match self.section_position(name) {
            Some(i) => {
                proof { lemma_section_in_distinct(self@.sections, i as int); }
                Some(self.sections[i].data.as_slice())
            },
            None => None,
        }
    }
}

impl Object {
    /// The object holds at most one section per name.
    pub(crate) fn one_section_per_name(&self)
        ensures
            self@.wf(),
    {
        proof { use_type_invariant(self); }
    }

    /// Returns the number of sections the object holds.
    pub fn section_count(&self) -> (n: usize)
        ensures
            n == self@.sections.len(),
    {
        self.sections.len()
    }

    /// The name of the `i`-th section.
    pub(crate) fn section_name_at(&self, i: usize) -> (n: &String)
        requires
            i < self@.sections.len(),
        ensures
            n@ == self@.sections[i as int].name,
    {
        &self.sections[i].name
    }

    /// The bytes of the `i`-th section.
    pub(crate) fn section_bytes_at(&self, i: usize) -> (d: &[u8])
        requires
            i < self@.sections.len(),
        ensures
            d@ == self@.sections[i as int].data,
    {
        self.sections[i].data.as_slice()
    }

    /// Returns the number of symbols the object defines.
    pub fn symbol_count(&self) -> (n: usize)
        ensures
            n == self@.symbols.len(),
    {
        self.symbols.len()
    }

    /// The `i`-th symbol definition: its name, section and offset.
    pub(crate) fn symbol_at(&self, i: usize) -> (r: (&String, &String, u64))
        requires
            i < self@.symbols.len(),
        ensures
            r.0@ == self@.symbols[i as int].name,
            r.1@ == self@.symbols[i as int].section,
            r.2 == self@.symbols[i as int].offset,
    {
        let s = &self.symbols[i];
        (&s.name, &s.section, s.offset)
    }

    /// Returns the number of relocations the object records.
    pub fn relocation_count(&self) -> (n: usize)
        ensures
            n == self@.relocations.len(),
    {
        self.relocations.len()
    }

    /// The `i`-th relocation: its section, offset, target, width and addend.
    pub(crate) fn relocation_at(&self, i: usize) -> (r: (&String, u64, &String, Width, i64))
        requires
            i < self@.relocations.len(),
        ensures
            r.0@ == self@.relocations[i as int].section,
            r.1 == self@.relocations[i as int].offset,
            r.2@ == self@.relocations[i as int].target,
            r.3 == self@.relocations[i as int].width,
            r.4 == self@.relocations[i as int].addend,
    {
        let r = &self.relocations[i];
        (&r.section, r.offset, &r.target, r.width, r.addend)
    }
}

/// With distinct names, the bytes of the section named like the `i`-th are its own.
pub proof fn lemma_section_in_distinct(secs: Seq<SectionView>, i: int)
    requires
        distinct_names(secs),
        0 <= i < secs.len(),
    ensures
        section_in(secs, secs[i].name) == secs[i].data,
    decreases secs.len(),
{
    if i < secs.len() - 1 {
        assert(secs.drop_last()[i] == secs[i]);
        lemma_section_in_distinct(secs.drop_last(), i);
    }
}

/// Replacing the bytes of one section (keeping its name) changes only that name's bytes.
pub proof fn lemma_section_in_update(secs: Seq<SectionView>, i: int, d: Seq<u8>)
    requires
        distinct_names(secs),
        0 <= i < secs.len(),
    ensures
        forall|n: Seq<char>| #[trigger] section_in(secs.update(i, SectionView { name: secs[i].name, data: d }), n)
            == if n == secs[i].name { d } else { section_in(secs, n) },
    decreases secs.len(),
{
    let u = secs.update(i, SectionView { name: secs[i].name, data: d });
    if i == secs.len() - 1 {
        assert(u.drop_last() =~= secs.drop_last());
        assert forall|q: int| 0 <= q < secs.drop_last().len() implies #[trigger] secs.drop_last()[q].name != secs[i].name by {
            assert(secs.drop_last()[q] == secs[q]);
        }
        lemma_section_in_absent(secs.drop_last(), secs[i].name);
    } else {
        let t = secs.drop_last();
        assert(u.drop_last() =~= t.update(i, SectionView { name: t[i].name, data: d }));
        lemma_section_in_update(t, i, d);
        assert(secs[secs.len() - 1].name != secs[i].name);
        assert forall|n: Seq<char>| #[trigger] section_in(u, n) == if n == secs[i].name { d } else { section_in(secs, n) } by {
            assert(section_in(u.drop_last(), n) == if n == t[i].name { d } else { section_in(t, n) });
        }
    }
}

/// A name no section carries has no bytes.
pub proof fn lemma_section_in_absent(secs: Seq<SectionView>, n: Seq<char>)
    requires
        forall|i: int| 0 <= i < secs.len() ==> #[trigger] secs[i].name != n,
    ensures
        section_in(secs, n) == Seq::<u8>::empty(),
    decreases secs.len(),
{
    if secs.len() > 0 {
        assert(secs[secs.len() - 1].name != n);
        assert forall|i: int| 0 <= i < secs.drop_last().len() implies #[trigger] secs.drop_last()[i].name != n by {
            assert(secs.drop_last()[i] == secs[i]);
        }
        lemma_section_in_absent(secs.drop_last(), n);
    }
}

} // verus!
