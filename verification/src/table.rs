//! The symbol table: names and addresses, kept sorted by name.

use vstd::prelude::*;

use crate::names::{
    compare_names, lemma_bytes_lt_asymmetric, lemma_bytes_lt_irreflexive,
    lemma_bytes_lt_transitive, name_bytes, name_lt, NameOrder,
};

verus! {

/// Entries in strictly increasing name order (so no name occurs twice).
pub open spec fn sorted_by_name(s: Seq<(Seq<char>, u64)>) -> bool {
    forall|i: int, j: int| 0 <= i < j < s.len() ==> name_lt(#[trigger] s[i].0, #[trigger] s[j].0)
}

/// The map from name to address that a list of entries describes (a later entry wins).
pub open spec fn entries_map(s: Seq<(Seq<char>, u64)>) -> Map<Seq<char>, u64>
    decreases s.len(),
{
    if s.len() == 0 {
        Map::empty()
    } else {
        entries_map(s.drop_last()).insert(s.last().0, s.last().1)
    }
}

/// The name order is a strict order: irreflexive and transitive.
pub proof fn lemma_name_lt_strict(a: Seq<char>, b: Seq<char>, c: Seq<char>)
    ensures
        !name_lt(a, a),
        name_lt(a, b) ==> !name_lt(b, a),
        name_lt(a, b) && name_lt(b, c) ==> name_lt(a, c),
{
    lemma_bytes_lt_irreflexive(name_bytes(a));
    if name_lt(a, b) {
        lemma_bytes_lt_asymmetric(name_bytes(a), name_bytes(b));
        if name_lt(b, c) {
            lemma_bytes_lt_transitive(name_bytes(a), name_bytes(b), name_bytes(c));
        }
    }
}

/// A sorted list of entries names each name at most once.
pub proof fn lemma_sorted_distinct(s: Seq<(Seq<char>, u64)>)
    requires
        sorted_by_name(s),
    ensures
        forall|i: int, j: int| 0 <= i < s.len() && 0 <= j < s.len() && i != j ==> #[trigger] s[i].0 != #[trigger] s[j].0,
{
    assert forall|i: int, j: int| 0 <= i < s.len() && 0 <= j < s.len() && i != j implies #[trigger] s[i].0 != #[trigger] s[j].0 by {
        lemma_name_lt_strict(s[i].0, s[j].0, s[j].0);
        lemma_name_lt_strict(s[j].0, s[i].0, s[i].0);
    }
}

/// What a list of entries with distinct names maps each name to.
pub proof fn lemma_entries_map(s: Seq<(Seq<char>, u64)>)
    requires
        forall|i: int, j: int| 0 <= i < s.len() && 0 <= j < s.len() && i != j ==> #[trigger] s[i].0 != #[trigger] s[j].0,
    ensures
        forall|n: Seq<char>| #[trigger] entries_map(s).contains_key(n) <==> exists|i: int| 0 <= i < s.len() && s[i].0 == n,
        forall|i: int| 0 <= i < s.len() ==> #[trigger] entries_map(s)[s[i].0] == s[i].1,
    decreases s.len(),
{
    if s.len() > 0 {
        let t = s.drop_last();
        assert forall|i: int, j: int| 0 <= i < t.len() && 0 <= j < t.len() && i != j implies #[trigger] t[i].0 != #[trigger] t[j].0 by {
            assert(t[i] == s[i] && t[j] == s[j]);
        }
        lemma_entries_map(t);
        assert forall|n: Seq<char>| #[trigger] entries_map(s).contains_key(n) <==> exists|i: int| 0 <= i < s.len() && s[i].0 == n by {
            if entries_map(s).contains_key(n) && n != s.last().0 {
                assert(entries_map(t).contains_key(n));
                let i = choose|i: int| 0 <= i < t.len() && t[i].0 == n;
                assert(s[i] == t[i]);
            }
            if exists|i: int| 0 <= i < s.len() && s[i].0 == n {
                let i = choose|i: int| 0 <= i < s.len() && s[i].0 == n;
                if i < s.len() - 1 {
                    assert(t[i] == s[i]);
                    assert(entries_map(t).contains_key(n));
                }
            }
        }
        assert forall|i: int| 0 <= i < s.len() implies #[trigger] entries_map(s)[s[i].0] == s[i].1 by {
            if i < s.len() - 1 {
                assert(t[i] == s[i]);
                assert(s[i].0 != s[s.len() - 1].0);
                assert(entries_map(t)[t[i].0] == t[i].1);
                assert(entries_map(s) == entries_map(t).insert(s.last().0, s.last().1));
            }
        }
    }
}

/// Entries with their names as character sequences.
pub open spec fn entry_views(v: Seq<(String, u64)>) -> Seq<(Seq<char>, u64)> {
    v.map_values(|e: (String, u64)| (e.0@, e.1))
}

/// The symbol table: each defined name with its resolved address, kept sorted by name.
#[derive(PartialEq, Eq, Debug)]
pub(crate) struct SymbolTable {
    pub(crate) entries: Vec<(String, u64)>,
}

impl SymbolTable {
    /// The entries, in name order.
    pub closed spec fn list(&self) -> Seq<(Seq<char>, u64)> {
        entry_views(self.entries@)
    }

    /// What the table maps each name to.
    pub open spec fn map(&self) -> Map<Seq<char>, u64> {
        entries_map(self.list())
    }

    #[verifier::type_invariant]
    closed spec fn inv(self) -> bool {
        sorted_by_name(self.list())
    }

    /// The entries are sorted by name.
    pub fn entries_sorted(&self)
        ensures
            sorted_by_name(self.list()),
    {
        proof { use_type_invariant(self); }
    }

    /// An empty table.
    pub fn new() -> (t: SymbolTable)
        ensures
            t.list().len() == 0,
            t.map() == Map::<Seq<char>, u64>::empty(),
    {
        let t = SymbolTable { entries: Vec::new() };
        proof { assert(t.list() =~= Seq::<(Seq<char>, u64)>::empty()); }
        t
    }

    /// Where `name` is in the table (`Ok`), or where it would go (`Err`).
    fn search(&self, name: &str) -> (r: Result<usize, usize>)
        ensures
            match r {
                Ok(i) => i < self.list().len() && self.list()[i as int].0 == name@,
                Err(i) => i <= self.list().len()
                    && (forall|k: int| 0 <= k < i ==> name_lt(#[trigger] self.list()[k].0, name@))
                    && (forall|k: int| i <= k < self.list().len() ==> name_lt(name@, #[trigger] self.list()[k].0)),
            },
    {
        proof { use_type_invariant(self); }
        let ghost l = self.list();
        let mut lo: usize = 0;
        let mut hi: usize = self.entries.len();
        while lo < hi
            invariant
                l == self.list(),
                sorted_by_name(l),
                lo <= hi <= l.len(),
                l.len() == self.entries@.len(),
                forall|k: int| 0 <= k < lo ==> name_lt(#[trigger] l[k].0, name@),
                forall|k: int| hi <= k < l.len() ==> name_lt(name@, #[trigger] l[k].0),
            decreases hi - lo,
        {
            let mid = lo + (hi - lo) / 2;
            assert(l[mid as int].0 == self.entries@[mid as int].0@);
            match compare_names(self.entries[mid].0.as_str(), name) {
                NameOrder::Equal => {
                    return Ok(mid);
                },
                NameOrder::Less => {
                    assert forall|k: int| 0 <= k < mid + 1 implies name_lt(#[trigger] l[k].0, name@) by {
                        if k < mid {
                            lemma_name_lt_strict(l[k].0, l[mid as int].0, name@);
                        }
                    }
                    lo = mid + 1;
                },
                NameOrder::Greater => {
                    assert forall|k: int| mid <= k < l.len() implies name_lt(name@, #[trigger] l[k].0) by {
                        if k > mid {
                            lemma_name_lt_strict(name@, l[mid as int].0, l[k].0);
                        }
                    }
                    hi = mid;
                },
            }
        }
        Err(lo)
    }

    /// The address of `name`, or `None` if the table has no such name.
    pub fn get(&self, name: &str) -> (r: Option<u64>)
        ensures
            match r {
                Some(a) => self.map().contains_key(name@) && self.map()[name@] == a,
                None => !self.map().contains_key(name@),
            },
    {
        proof {
            use_type_invariant(self);
            lemma_sorted_distinct(self.list());
            lemma_entries_map(self.list());
        }
        match self.search(name) {
            Ok(i) => {
                assert(self.list()[i as int].1 == self.entries@[i as int].1);
                Some(self.entries[i].1)
            },
            Err(i) => {
                proof {
                    assert forall|k: int| 0 <= k < self.list().len() implies self.list()[k].0 != name@ by {
                        lemma_name_lt_strict(name@, name@, name@);
                    }
                }
                None
            },
        }
    }

    /// Adds `name` at `address` unless the table already has that name; returns whether it
    /// was added.
    pub fn insert_new(&mut self, name: String, address: u64) -> (added: bool)
        ensures
            added == !old(self).map().contains_key(name@),
            added ==> final(self).map() == old(self).map().insert(name@, address),
            !added ==> final(self).map() == old(self).map(),
    {
        proof {
            use_type_invariant(&*self);
            lemma_sorted_distinct(self.list());
            lemma_entries_map(self.list());
        }
        match self.search(name.as_str()) {
            Ok(i) => false,
            Err(i) => {
                let ghost old_list = self.list();
                proof {
                    assert forall|k: int| 0 <= k < old_list.len() implies old_list[k].0 != name@ by {
                        lemma_name_lt_strict(name@, name@, name@);
                    }
                }
                let ghost new_list = old_list.insert(i as int, (name@, address));
                let mut entries: Vec<(String, u64)> = Vec::new();
                std::mem::swap(&mut entries, &mut self.entries);
                entries.insert(i, (name, address));
                proof {
                    assert(entry_views(entries@) =~= new_list);
                    assert forall|a: int, b: int| 0 <= a < b < new_list.len() implies
                        name_lt(#[trigger] new_list[a].0, #[trigger] new_list[b].0) by {
                        if b < i {
                        } else if a < i && b == i {
                        } else if a < i {
                            assert(new_list[b] == old_list[b - 1]);
                        } else if a == i {
                            assert(new_list[b] == old_list[b - 1]);
                        } else {
                            assert(new_list[a] == old_list[a - 1]);
                            assert(new_list[b] == old_list[b - 1]);
                        }
                    }
                    lemma_sorted_distinct(new_list);
                    lemma_entries_map(new_list);
                    let m_old = entries_map(old_list);
                    let m_new = entries_map(new_list);
                    assert forall|n: Seq<char>| #[trigger] m_new.contains_key(n) == m_old.insert(name@, address).contains_key(n) by {
                        if m_new.contains_key(n) {
                            let k = choose|k: int| 0 <= k < new_list.len() && new_list[k].0 == n;
                            if k > i {
                                assert(new_list[k] == old_list[k - 1]);
                            }
                        }
                        if n == name@ {
                            assert(new_list[i as int].0 == n);
                        }
                        if m_old.contains_key(n) {
                            let k = choose|k: int| 0 <= k < old_list.len() && old_list[k].0 == n;
                            if k >= i {
                                assert(new_list[k + 1] == old_list[k]);
                            } else {
                                assert(new_list[k] == old_list[k]);
                            }
                        }
                    }
                    assert forall|n: Seq<char>| m_new.contains_key(n) implies #[trigger] m_new[n] == m_old.insert(name@, address)[n] by {
                        let k = choose|k: int| 0 <= k < new_list.len() && new_list[k].0 == n;
                        assert(m_new[new_list[k].0] == new_list[k].1);
                        if k > i {
                            assert(new_list[k] == old_list[k - 1]);
                            assert(m_old[old_list[k - 1].0] == old_list[k - 1].1);
                        } else if k < i {
                            assert(m_old[old_list[k].0] == old_list[k].1);
                        }
                    }
                    assert(m_new =~= m_old.insert(name@, address));
                }
                self.entries = entries;
                true
            },
        }
    }

    /// The entries, in name order.
    pub fn as_slice(&self) -> (s: &[(String, u64)])
        ensures
            entry_views(s@) == self.list(),
    {
        self.entries.as_slice()
    }
}

impl Clone for SymbolTable {
    /// A copy of the table with the same entries.
    fn clone(&self) -> (t: SymbolTable)
        ensures
            t.list() == self.list(),
    {
        proof { use_type_invariant(self); }
        let mut entries: Vec<(String, u64)> = Vec::new();
        let mut i: usize = 0;
        while i < self.entries.len()
            invariant
                i <= self.entries@.len(),
                entries@.len() == i,
                entry_views(entries@) =~= self.list().take(i as int),
            decreases self.entries@.len() - i,
        {
            let name = self.entries[i].0.clone();
            let ghost before = entries@;
            entries.push((name, self.entries[i].1));
            proof {
                assert(name@ == self.entries@[i as int].0@);
                assert(self.list()[i as int] == (self.entries@[i as int].0@, self.entries@[i as int].1));
                assert(entry_views(before) =~= self.list().take(i as int));
                assert forall|k: int| 0 <= k < i + 1 implies #[trigger] entry_views(entries@)[k] == self.list().take(i + 1)[k] by {
                    if k < i {
                        assert(entries@[k] == before[k]);
                        assert(entry_views(before)[k] == self.list().take(i as int)[k]);
                    }
                }
                assert(entry_views(entries@) =~= self.list().take(i + 1));
            }
            i = i + 1;
        }
        proof { assert(self.list().take(i as int) =~= self.list()); }
        SymbolTable { entries }
    }
}

} // verus!
