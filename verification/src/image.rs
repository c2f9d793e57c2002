//! The output of a link: an [`Image`] and the [`OutputSection`]s it is laid out from.

use vstd::prelude::*;

use crate::names::same_name;
use crate::table::{entries_map, entry_views, sorted_by_name, SymbolTable};
use crate::text::{address_hex, address_text, decimal, decimal_text};

verus! {

/// One laid-out section: a name, the address it begins at, and its final bytes.
#[derive(Clone, PartialEq, Eq, Debug)]
pub struct OutputSection {
    pub(crate) name: String,
    pub(crate) address: u64,
    pub(crate) data: Vec<u8>,
}

/// A laid-out section as a value.
pub struct OutputSectionView {
    pub name: Seq<char>,
    pub address: u64,
    pub data: Seq<u8>,
}

impl View for OutputSection {
    type V = OutputSectionView;

    closed spec fn view(&self) -> OutputSectionView {
        OutputSectionView { name: self.name@, address: self.address, data: self.data@ }
    }
}

impl OutputSection {
    /// A section named `name` at `address` holding `data`.
    pub fn new(name: String, address: u64, data: Vec<u8>) -> (s: OutputSection)
        ensures
            s@ == (OutputSectionView { name: name@, address, data: data@ }),
    {
        OutputSection { name, address, data }
    }

    /// Returns the section's name.
    pub fn name(&self) -> (n: &str)
        ensures
            n@ == self@.name,
    {
        self.name.as_str()
    }

    /// Returns the address the section begins at in the laid-out image.
    pub fn address(&self) -> (a: u64)
        ensures
            a == self@.address,
    {
        self.address
    }

    /// Returns the section's final bytes, with every relocation into it patched.
    pub fn data(&self) -> (d: &[u8])
        ensures
            d@ == self@.data,
    {
        self.data.as_slice()
    }

    /// Returns the number of bytes in the section.
    pub fn len(&self) -> (n: usize)
        ensures
            n == self@.data.len(),
    {
        self.data.len()
    }

    /// Returns `true` if the section has no bytes.
    pub fn is_empty(&self) -> (b: bool)
        ensures
            b == (self@.data.len() == 0),
    {
        self.data.len() == 0
    }
}

/// A linked image as a value: the laid-out sections in address order, the symbol table,
/// and the entry point.
pub struct ImageView {
    pub sections: Seq<OutputSectionView>,
    pub symbols: Map<Seq<char>, u64>,
    pub entry: Option<u64>,
}

/// A linked image: the laid-out sections, the resolved symbol table, and the entry point.
#[derive(Clone, PartialEq, Eq, Debug)]
pub struct Image {
    pub(crate) sections: Vec<OutputSection>,
    pub(crate) symbols: SymbolTable,
    pub(crate) entry: Option<u64>,
}

impl View for Image {
    type V = ImageView;

    closed spec fn view(&self) -> ImageView {
        ImageView {
            sections: self.sections@.map_values(|s: OutputSection| s@),
            symbols: self.symbols.map(),
            entry: self.entry,
        }
    }
}

/// The laid-out sections of a list as values.
pub open spec fn section_views(v: Seq<OutputSection>) -> Seq<OutputSectionView> {
    v.map_values(|s: OutputSection| s@)
}

/// The map a list of entries describes when the first entry for a name wins.
pub open spec fn first_wins(s: Seq<(Seq<char>, u64)>) -> Map<Seq<char>, u64>
    decreases s.len(),
{
    if s.len() == 0 {
        Map::empty()
    } else {
        let m = first_wins(s.drop_last());
        if m.contains_key(s.last().0) {
            m
        } else {
            m.insert(s.last().0, s.last().1)
        }
    }
}

/// `i` is the position of the first section in `secs` named `n`.
pub open spec fn is_first_named(secs: Seq<OutputSectionView>, n: Seq<char>, i: int) -> bool {
    &&& 0 <= i < secs.len()
    &&& secs[i].name == n
    &&& forall|j: int| 0 <= j < i ==> secs[j].name != n
}

/// The link map's first line: the entry point's address, or `none`.
pub open spec fn entry_line(entry: Option<u64>) -> Seq<char> {
    match entry {
        Some(a) => "entry = "@ + address_text(a) + "\n"@,
        None => "entry = none\n"@,
    }
}

/// The link map's line for one section: its name, address and size.
pub open spec fn section_line(s: OutputSectionView) -> Seq<char> {
    s.name + " @ "@ + address_text(s.address) + " ("@ + decimal(s.data.len()) + " bytes)\n"@
}

/// The link map's lines for the sections, in order.
pub open spec fn section_lines(secs: Seq<OutputSectionView>) -> Seq<char>
    decreases secs.len(),
{
    if secs.len() == 0 {
        seq![]
    } else {
        section_lines(secs.drop_last()) + section_line(secs.last())
    }
}

/// The link map's line for one symbol: its address and name.
pub open spec fn symbol_line(e: (Seq<char>, u64)) -> Seq<char> {
    "    "@ + address_text(e.1) + " "@ + e.0 + "\n"@
}

/// The link map's lines for the symbols, in order.
pub open spec fn symbol_lines(syms: Seq<(Seq<char>, u64)>) -> Seq<char>
    decreases syms.len(),
{
    if syms.len() == 0 {
        seq![]
    } else {
        symbol_lines(syms.drop_last()) + symbol_line(syms.last())
    }
}

/// The link map of an image whose symbol table lists `syms` in name order: the entry
/// point, each section with its address and size, and (if there are any) the symbols.
pub open spec fn link_map(img: ImageView, syms: Seq<(Seq<char>, u64)>) -> Seq<char> {
    entry_line(img.entry) + section_lines(img.sections) + if syms.len() == 0 {
        Seq::<char>::empty()
    } else {
        "symbols:\n"@ + symbol_lines(syms)
    }
}

impl Image {
    /// The symbol table's entries, in name order.
    pub closed spec fn symbol_list(&self) -> Seq<(Seq<char>, u64)> {
        self.symbols.list()
    }

    /// An image with the given sections, symbol table and entry point.
    pub(crate) fn from_layout(sections: Vec<OutputSection>, symbols: SymbolTable, entry: Option<u64>) -> (img: Image)
        ensures
            img@ == (ImageView { sections: section_views(sections@), symbols: symbols.map(), entry }),
            img.symbol_list() == symbols.list(),
    {
        Image { sections, symbols, entry }
    }

    /// An image with the given sections and entry point whose symbol table maps each name
    /// in `symbols` to its address; where a name is listed twice, its first address is
    /// kept.
    pub fn from_parts(sections: Vec<OutputSection>, symbols: Vec<(String, u64)>, entry: Option<u64>) -> (img: Image)
        ensures
            img@ == (ImageView {
                sections: section_views(sections@),
                symbols: first_wins(entry_views(symbols@)),
                entry,
            }),
    {
        let ghost listed = entry_views(symbols@);
        let mut table = SymbolTable::new();
        let mut symbols = symbols;
        let mut i: usize = 0;
        proof { assert(listed.take(0) =~= Seq::<(Seq<char>, u64)>::empty()); }
        while i < symbols.len()
            invariant
                i <= symbols@.len(),
                listed.len() == symbols@.len(),
                forall|k: int| i <= k < symbols@.len() ==> #[trigger] entry_views(symbols@)[k] == listed[k],
                table.map() == first_wins(listed.take(i as int)),
            decreases symbols@.len() - i,
        {
            let ghost before = symbols@;
            let mut taken = (String::new(), 0u64);
            symbols.set_and_swap(i, &mut taken);
            let (name, address) = taken;
            proof {
                assert(entry_views(before)[i as int] == listed[i as int]);
                assert(name@ == listed[i as int].0 && address == listed[i as int].1);
                assert(listed.take(i + 1).drop_last() =~= listed.take(i as int));
                assert forall|k: int| i < k < symbols@.len() implies #[trigger] entry_views(symbols@)[k] == listed[k] by {
                    assert(symbols@[k] == before[k]);
                    assert(entry_views(before)[k] == listed[k]);
                }
            }
            table.insert_new(name, address);
            i = i + 1;
        }
        proof { assert(listed.take(i as int) =~= listed); }
        Image { sections, symbols: table, entry }
    }

    /// Returns the laid-out sections, in address order.
    pub fn sections(&self) -> (s: &[OutputSection])
        ensures
            section_views(s@) == self@.sections,
    {
        self.sections.as_slice()
    }

    /// Returns the first section named `name`, or `None` if the image has no such section.
    pub fn section(&self, name: &str) -> (r: Option<&OutputSection>)
        ensures
            match r {
                Some(s) => exists|i: int| is_first_named(self@.sections, name@, i) && s@ == self@.sections[i],
                None => forall|i: int| 0 <= i < self@.sections.len() ==> self@.sections[i].name != name@,
            },
    {
        let mut i: usize = 0;
        while i < self.sections.len()
            invariant
                i <= self.sections@.len(),
                forall|j: int| 0 <= j < i ==> self@.sections[j].name != name@,
            decreases self.sections@.len() - i,
        {
            if same_name(self.sections[i].name.as_str(), name) {
                proof { assert(is_first_named(self@.sections, name@, i as int)); }
                return Some(&self.sections[i]);
            }
            i = i + 1;
        }
        None
    }

    /// Returns the resolved address of the symbol named `name`, or `None` if no object
    /// defined it.
    pub fn symbol(&self, name: &str) -> (r: Option<u64>)
        ensures
            match r {
                Some(a) => self@.symbols.contains_key(name@) && self@.symbols[name@] == a,
                None => !self@.symbols.contains_key(name@),
            },
    {
        self.symbols.get(name)
    }

    /// Returns the symbol table as `(name, address)` pairs, sorted by name.
    pub fn symbols(&self) -> (s: &[(String, u64)])
        ensures
            entry_views(s@) == self.symbol_list(),
            sorted_by_name(self.symbol_list()),
            entries_map(self.symbol_list()) == self@.symbols,
    {
        self.symbols.entries_sorted();
        self.symbols.as_slice()
    }

    /// Returns the address of the entry point, or `None` if the link was not configured
    /// with one.
    pub fn entry(&self) -> (e: Option<u64>)
        ensures
            e == self@.entry,
    {
        self.entry
    }

    /// Returns the number of sections in the image.
    pub fn len(&self) -> (n: usize)
        ensures
            n == self@.sections.len(),
    {
        self.sections.len()
    }

    /// Returns `true` if the image has no sections.
    pub fn is_empty(&self) -> (b: bool)
        ensures
            b == (self@.sections.len() == 0),
    {
        self.sections.len() == 0
    }

    /// Renders the link map: the entry point, each section with its address and size, and
    /// the symbol table sorted by name.
    pub fn to_string(&self) -> (s: String)
        ensures
            s@ == link_map(self@, self.symbol_list()),
    {
        let mut out = match self.entry {
            Some(address) => String::from_str("entry = ").concat(address_hex(address).as_str()).concat("\n"),
            None => String::from_str("entry = none\n"),
        };
        let ghost head = out@;
        let mut i: usize = 0;
        while i < self.sections.len()
            invariant
                i <= self.sections@.len(),
                head == entry_line(self@.entry),
                out@ == head + section_lines(self@.sections.take(i as int)),
            decreases self.sections@.len() - i,
        {
            let section = &self.sections[i];
            let size = decimal_text(section.data.len() as u64);
            let line = section.name.clone().concat(" @ ").concat(address_hex(section.address).as_str()).concat(" (").concat(size.as_str()).concat(" bytes)\n");
            proof {
                assert(self@.sections.take(i + 1).drop_last() =~= self@.sections.take(i as int));
                assert(line@ == section_line(self@.sections[i as int]));
            }
            out.append(line.as_str());
            i = i + 1;
        }
        proof { assert(self@.sections.take(i as int) =~= self@.sections); }
        let entries = self.symbols.as_slice();
        if entries.len() > 0 {
            let ghost mid = out@;
            out.append("symbols:\n");
            let mut k: usize = 0;
            while k < entries.len()
                invariant
                    k <= entries@.len(),
                    entry_views(entries@) == self.symbol_list(),
                    out@ == mid + "symbols:\n"@ + symbol_lines(self.symbol_list().take(k as int)),
                decreases entries@.len() - k,
            {
                let line = String::from_str("    ").concat(address_hex(entries[k].1).as_str()).concat(" ").concat(entries[k].0.as_str()).concat("\n");
                proof {
                    assert(self.symbol_list().take(k + 1).drop_last() =~= self.symbol_list().take(k as int));
                    assert(self.symbol_list()[k as int] == (entries@[k as int].0@, entries@[k as int].1));
                }
                out.append(line.as_str());
                k = k + 1;
            }
            proof { assert(self.symbol_list().take(k as int) =~= self.symbol_list()); }
        } else {
            proof { assert(out@ =~= out@ + Seq::<char>::empty()); }
        }
        out
    }
}

} // verus!
