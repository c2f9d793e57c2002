//! Laying objects out into an image: the [`Linker`] and the [`link`] shortcut.

use vstd::prelude::*;

use crate::error::{with_error_view, LinkError, LinkErrorView};
use crate::model::{
    add_names, any_has_section, contribution, distinct, entry_outcome, laid_out, le_bytes,
    lemma_add_names, lemma_contribution_bound, lemma_le_bytes_len, lemma_merged_absent,
    lemma_output_names, lemma_patch_sticks, lemma_resolve_sticks, lemma_start_of_monotone,
    link_result, merged_data, merged_sections, object_views, output_names, patch_all,
    patch_step, patch_upto, relocation_start, relocation_value, resolve_all, resolve_upto,
    slot_of, splice, start_of, string_views, symbol_outcome, symbol_target,
};
use crate::image::{section_views, Image, ImageView, OutputSection};
use crate::names::same_name;
use crate::table::SymbolTable;
use crate::object::{lemma_section_in_absent, section_in, Object, ObjectView};

verus! {

/// Views of a list of byte vectors.
pub open spec fn byte_views(v: Seq<Vec<u8>>) -> Seq<Seq<u8>> {
    v.map_values(|d: Vec<u8>| d@)
}

/// The position of the output section named `name`, if there is one.
fn section_index(names: &Vec<String>, name: &str) -> (r: Option<usize>)
    ensures
        match r {
            Some(i) => i < names@.len() && names@[i as int]@ == name@,
            None => forall|i: int| 0 <= i < names@.len() ==> #[trigger] names@[i]@ != name@,
        },
{
    let mut i: usize = 0;
    while i < names.len()
        invariant
            i <= names@.len(),
            forall|j: int| 0 <= j < i ==> #[trigger] names@[j]@ != name@,
        decreases names@.len() - i,
    {
        if same_name(names[i].as_str(), name) {
            return Some(i);
        }
        i = i + 1;
    }
    None
}

/// Concatenates the sections of every object by name, in object order. Returns the output
/// section names, their merged bytes, and for each object the offset at which each of its
/// sections begins within the merged section of that name.
fn merge_sections(objects: &[Object]) -> (r: (Vec<String>, Vec<Vec<u8>>, Vec<Vec<u64>>))
    ensures
        forall|k: int| 0 <= k < objects@.len() ==> (#[trigger] objects@[k])@.wf(),
        string_views(r.0@) == output_names(object_views(objects@)),
        r.1@.len() == r.0@.len(),
        forall|s: int| 0 <= s < r.1@.len() ==> (#[trigger] r.1@[s])@ == merged_data(object_views(objects@), r.0@[s]@),
        r.2@.len() == objects@.len(),
        forall|k: int| 0 <= k < objects@.len() ==> (#[trigger] r.2@[k])@.len() == objects@[k]@.sections.len(),
        forall|k: int, m: int| 0 <= k < objects@.len() && 0 <= m < objects@[k]@.sections.len() ==>
            (#[trigger] r.2@[k]@[m]) == contribution(object_views(objects@), k, objects@[k]@.sections[m].name),
{
    let ghost objs = object_views(objects@);
    let mut names: Vec<String> = Vec::new();
    let mut datas: Vec<Vec<u8>> = Vec::new();
    let mut bases: Vec<Vec<u64>> = Vec::new();
    let mut k: usize = 0;
    proof {
        assert(objs.take(0) =~= Seq::<ObjectView>::empty());
        assert(string_views(names@) =~= output_names(objs.take(0)));
    }
    while k < objects.len()
        invariant
            objs == object_views(objects@),
            k <= objects@.len(),
            forall|j: int| 0 <= j < k ==> (#[trigger] objects@[j])@.wf(),
            string_views(names@) == output_names(objs.take(k as int)),
            datas@.len() == names@.len(),
            forall|s: int| 0 <= s < datas@.len() ==> (#[trigger] datas@[s])@ == merged_data(objs.take(k as int), names@[s]@),
            bases@.len() == k,
            forall|j: int| 0 <= j < k ==> (#[trigger] bases@[j])@.len() == objects@[j]@.sections.len(),
            forall|j: int, m: int| 0 <= j < k && 0 <= m < objects@[j]@.sections.len() ==>
                (#[trigger] bases@[j]@[m]) == contribution(objs, j, objects@[j]@.sections[m].name),
        decreases objects@.len() - k,
    {
        let object = &objects[k];
        object.one_section_per_name();
        let ghost o = object@;
        let ghost pre = objs.take(k as int);
        let ghost start_names = output_names(pre);
        proof {
            lemma_output_names(pre);
            assert(objs[k as int] == o);
        }
        let mut row: Vec<u64> = Vec::new();
        let mut m: usize = 0;
        let count = object.section_count();
        proof { lemma_add_names(start_names, o.sections.take(0)); }
        while m < count
            invariant
                objs == object_views(objects@),
                k < objects@.len(),
                o == objects@[k as int]@,
                object@ == o,
                o == objs[k as int],
                o.wf(),
                pre == objs.take(k as int),
                start_names == output_names(pre),
                distinct(start_names),
                count == o.sections.len(),
                m <= count,
                string_views(names@) == add_names(start_names, o.sections.take(m as int)),
                datas@.len() == names@.len(),
                forall|s: int| 0 <= s < datas@.len() ==> (#[trigger] datas@[s])@ == merged_data(pre, names@[s]@) + section_in(o.sections.take(m as int), names@[s]@),
                row@.len() == m,
                forall|i: int| 0 <= i < m ==> (#[trigger] row@[i]) == contribution(objs, k as int, o.sections[i].name),
                forall|x: Seq<char>| #[trigger] output_names(pre).contains(x) <==> any_has_section(pre, x),
            decreases count - m,
        {
            let name = object.section_name_at(m);
            let bytes = object.section_bytes_at(m);
            let ghost secs_m = o.sections.take(m as int);
            let ghost secs_m1 = o.sections.take(m + 1);
            proof {
                lemma_add_names(start_names, secs_m);
                assert(secs_m1.drop_last() =~= secs_m);
                assert forall|i: int| 0 <= i < secs_m.len() implies #[trigger] secs_m[i].name != name@ by {
                    assert(secs_m[i] == o.sections[i]);
                }
                lemma_section_in_absent(secs_m, name@);
                assert(objs.take(k as int) == pre);
            }
            match section_index(&names, name.as_str()) {
                Some(s) => {
                    let base = datas[s].len() as u64;
                    let mut d: Vec<u8> = Vec::new();
                    datas.set_and_swap(s, &mut d);
                    let ghost before = d@;
                    d.extend_from_slice(bytes);
                    proof {
                        assert forall|q: int| 0 <= q < d@.len() implies #[trigger] d@[q] == (before + bytes@)[q] by {
                            if q >= before.len() {
                                assert(cloned::<u8>(bytes@[q - before.len()], d@[q]));
                            }
                        }
                        assert(d@ =~= before + bytes@);
                    }
                    datas.set_and_swap(s, &mut d);
                    row.push(base);
                    proof {
                        assert(string_views(names@)[s as int] == name@);
                        assert(add_names(start_names, secs_m1) == add_names(start_names, secs_m)) by {
                            assert(add_names(start_names, secs_m).contains(name@)) by {
                                assert(string_views(names@)[s as int] == name@);
                            }
                        }
                        assert forall|t: int| 0 <= t < datas@.len() implies (#[trigger] datas@[t])@ == merged_data(pre, names@[t]@) + section_in(secs_m1, names@[t]@) by {
                            if t != s {
                                assert(string_views(names@)[t] != string_views(names@)[s as int]);
                            }
                        }
                    }
                },
                None => {
                    proof {
                        assert(!string_views(names@).contains(name@)) by {
                            if string_views(names@).contains(name@) {
                                let t = choose|t: int| 0 <= t < string_views(names@).len() && string_views(names@)[t] == name@;
                                assert(names@[t]@ == name@);
                            }
                        }
                        assert(!start_names.contains(name@));
                        lemma_merged_absent(pre, name@);
                    }
                    let fresh = name.clone();
                    names.push(fresh);
                    datas.push(vstd::slice::slice_to_vec(bytes));
                    row.push(0);
                    proof {
                        assert(string_views(names@) =~= add_names(start_names, secs_m1));
                        assert forall|t: int| 0 <= t < datas@.len() implies (#[trigger] datas@[t])@ == merged_data(pre, names@[t]@) + section_in(secs_m1, names@[t]@) by {
                            if t < datas@.len() - 1 {
                                assert(string_views(names@)[t] != name@);
                            } else {
                                assert(merged_data(pre, name@) + bytes@ =~= bytes@);
                            }
                        }
                    }
                },
            }
            m = m + 1;
        }
        bases.push(row);
        proof {
            let post = objs.take(k + 1);
            assert(post.drop_last() =~= pre);
            assert(post.last() == o);
            assert(o.sections.take(count as int) =~= o.sections);
            assert forall|s: int| 0 <= s < datas@.len() implies (#[trigger] datas@[s])@ == merged_data(post, names@[s]@) by {
                assert(merged_data(post, names@[s]@) == merged_data(pre, names@[s]@) + o.section_bytes(names@[s]@));
            }
        }
        k = k + 1;
    }
    proof {
        assert(objs.take(k as int) =~= objs);
    }
    (names, datas, bases)
}

/// Assigns each output section an address, placing them end to end from `base_address`.
fn place_sections(datas: &Vec<Vec<u8>>, base_address: u64) -> (r: Result<Vec<u64>, LinkError>)
    ensures
        match r {
            Ok(addresses) => {
                &&& start_of(byte_views(datas@), base_address as int, datas@.len() as int) <= u64::MAX
                &&& addresses@.len() == datas@.len()
                &&& forall|s: int| 0 <= s < datas@.len() ==> #[trigger] addresses@[s] == start_of(byte_views(datas@), base_address as int, s)
            },
            Err(e) => {
                &&& start_of(byte_views(datas@), base_address as int, datas@.len() as int) > u64::MAX
                &&& e@ == LinkErrorView::LayoutOverflow
            },
        },
{
    let ghost views = byte_views(datas@);
    let mut addresses: Vec<u64> = Vec::new();
    let mut cursor: u64 = base_address;
    let mut i: usize = 0;
    while i < datas.len()
        invariant
            views == byte_views(datas@),
            i <= datas@.len(),
            cursor == start_of(views, base_address as int, i as int),
            addresses@.len() == i,
            forall|s: int| 0 <= s < i ==> #[trigger] addresses@[s] == start_of(views, base_address as int, s),
        decreases datas@.len() - i,
    {
        addresses.push(cursor);
        let size = datas[i].len() as u64;
        proof { assert(views[i as int] == datas@[i as int]@); }
        match cursor.checked_add(size) {
            Some(next) => {
                cursor = next;
            },
            None => {
                proof {
                    lemma_start_of_monotone(views, base_address as int, i + 1, datas@.len() as int);
                }
                return Err(LinkError::LayoutOverflow);
            },
        }
        i = i + 1;
    }
    Ok(addresses)
}

/// The offset within its merged output section where object `k`'s contribution to
/// `section` begins, or `InvalidSection` if the object never created that section.
fn section_base(object: &Object, row: &Vec<u64>, section: &str) -> (r: Result<u64, LinkError>)
    requires
        row@.len() == object@.sections.len(),
    ensures
        match r {
            Ok(b) => object@.has_section(section@) && exists|m: int|
                0 <= m < row@.len() && object@.sections[m].name == section@ && b == row@[m],
            Err(e) => !object@.has_section(section@)
                && e@ == (LinkErrorView::InvalidSection { object: object@.name, section: section@ }),
        },
{
    let mut m: usize = 0;
    let count = object.section_count();
    while m < count
        invariant
            count == object@.sections.len(),
            row@.len() == count,
            m <= count,
            forall|q: int| 0 <= q < m ==> #[trigger] object@.sections[q].name != section@,
        decreases count - m,
    {
        if same_name(object.section_name_at(m).as_str(), section) {
            return Ok(row[m]);
        }
        m = m + 1;
    }
    Err(LinkError::InvalidSection { object: object.name().to_owned(), section: section.to_owned() })
}

/// What the merge produced, as the later passes rely on it.
pub open spec fn merged(objects: Seq<Object>, names: Seq<String>, datas: Seq<Vec<u8>>, bases: Seq<Vec<u64>>) -> bool {
    let objs = object_views(objects);
    &&& forall|k: int| 0 <= k < objects.len() ==> (#[trigger] objects[k])@.wf()
    &&& string_views(names) == output_names(objs)
    &&& datas.len() == names.len()
    &&& forall|s: int| 0 <= s < datas.len() ==> (#[trigger] datas[s])@ == merged_data(objs, names[s]@)
    &&& bases.len() == objects.len()
    &&& forall|k: int| 0 <= k < objects.len() ==> (#[trigger] bases[k])@.len() == objects[k]@.sections.len()
    &&& forall|k: int, m: int| 0 <= k < objects.len() && 0 <= m < objects[k]@.sections.len() ==>
        (#[trigger] bases[k]@[m]) == contribution(objs, k, objects[k]@.sections[m].name)
}

/// The merged sections of the objects are the bytes the merge produced.
proof fn lemma_merged_views(objects: Seq<Object>, names: Seq<String>, datas: Seq<Vec<u8>>, bases: Seq<Vec<u64>>)
    requires
        merged(objects, names, datas, bases),
    ensures
        byte_views(datas) == merged_sections(object_views(objects)),
{
    let objs = object_views(objects);
    assert forall|s: int| 0 <= s < datas.len() implies #[trigger] byte_views(datas)[s] == merged_sections(objs)[s] by {
        assert(string_views(names)[s] == names[s]@);
    }
    assert(byte_views(datas) =~= merged_sections(objs));
}

/// Resolves a symbol of object `k` to an absolute address: section address plus
/// contribution base plus offset.
fn symbol_address(
    objects: &[Object],
    k: usize,
    names: &Vec<String>,
    addresses: &Vec<u64>,
    bases: &Vec<Vec<u64>>,
    datas: Ghost<Seq<Vec<u8>>>,
    base_address: Ghost<u64>,
    section: &str,
    offset: u64,
) -> (r: Result<u64, LinkError>)
    requires
        k < objects@.len(),
        merged(objects@, names@, datas@, bases@),
        addresses@.len() == names@.len(),
        forall|s: int| 0 <= s < names@.len() ==> #[trigger] addresses@[s] == start_of(byte_views(datas@), base_address@ as int, s),
    ensures
        with_error_view(r) == symbol_outcome(object_views(objects@), base_address@, k as int, section@, offset),
{
    let ghost objs = object_views(objects@);
    proof {
        assert(objs[k as int] == objects@[k as int]@);
        lemma_merged_views(objects@, names@, datas@, bases@);
        lemma_output_names(objs);
    }
    let object = &objects[k];
    let base = match section_base(object, &bases[k], section) {
        Ok(b) => b,
        Err(e) => return Err(e),
    };
    proof {
        let m = choose|m: int| 0 <= m < bases@[k as int]@.len() && object@.sections[m].name == section@ && base == bases@[k as int]@[m];
        assert(any_has_section(objs, section@));
        assert(output_names(objs).contains(section@));
    }
    let slot = match section_index(names, section) {
        Some(s) => s,
        None => {
            proof {
                let t = choose|t: int| 0 <= t < output_names(objs).len() && output_names(objs)[t] == section@;
                assert(string_views(names@)[t] == names@[t]@);
            }
            return Err(LinkError::InvalidSection { object: object.name().to_owned(), section: section.to_owned() });
        },
    };
    proof {
        assert(string_views(names@)[slot as int] == names@[slot as int]@);
        assert(slot_of(output_names(objs), section@) == slot) by {
            let t = slot_of(output_names(objs), section@);
            assert(output_names(objs)[slot as int] == section@);
            assert(distinct(output_names(objs)));
        }
        assert(symbol_target(objs, base_address@, k as int, section@, offset) == addresses@[slot as int] + base + offset);
    }
    match addresses[slot].checked_add(base) {
        Some(a) => match a.checked_add(offset) {
            Some(address) => Ok(address),
            None => Err(LinkError::LayoutOverflow),
        },
        None => Err(LinkError::LayoutOverflow),
    }
}

/// Resolves every defined symbol to an absolute address, rejecting a name defined twice
/// or a symbol placed in a section its object never created.
fn resolve_symbols(
    objects: &[Object],
    names: &Vec<String>,
    addresses: &Vec<u64>,
    bases: &Vec<Vec<u64>>,
    datas: Ghost<Seq<Vec<u8>>>,
    base_address: Ghost<u64>,
) -> (r: Result<SymbolTable, LinkError>)
    requires
        merged(objects@, names@, datas@, bases@),
        addresses@.len() == names@.len(),
        forall|s: int| 0 <= s < names@.len() ==> #[trigger] addresses@[s] == start_of(byte_views(datas@), base_address@ as int, s),
    ensures
        match r {
            Ok(table) => resolve_all(object_views(objects@), base_address@) == Ok::<Map<Seq<char>, u64>, LinkErrorView>(table.map()),
            Err(e) => resolve_all(object_views(objects@), base_address@) == Err::<Map<Seq<char>, u64>, LinkErrorView>(e@),
        },
{
    let ghost objs = object_views(objects@);
    let mut table = SymbolTable::new();
    let mut k: usize = 0;
    while k < objects.len()
        invariant
            objs == object_views(objects@),
            k <= objects@.len(),
            merged(objects@, names@, datas@, bases@),
            addresses@.len() == names@.len(),
            forall|s: int| 0 <= s < names@.len() ==> #[trigger] addresses@[s] == start_of(byte_views(datas@), base_address@ as int, s),
            resolve_upto(objs, base_address@, k as nat, 0) == Ok::<Map<Seq<char>, u64>, LinkErrorView>(table.map()),
        decreases objects@.len() - k,
    {
        let object = &objects[k];
        let count = object.symbol_count();
        proof { assert(objs[k as int] == object@); }
        let mut j: usize = 0;
        while j < count
            invariant
                objs == object_views(objects@),
                k < objects@.len(),
                object@ == objs[k as int],
                count == objs[k as int].symbols.len(),
                j <= count,
                merged(objects@, names@, datas@, bases@),
                addresses@.len() == names@.len(),
                forall|s: int| 0 <= s < names@.len() ==> #[trigger] addresses@[s] == start_of(byte_views(datas@), base_address@ as int, s),
                resolve_upto(objs, base_address@, k as nat, j as nat) == Ok::<Map<Seq<char>, u64>, LinkErrorView>(table.map()),
            decreases count - j,
        {
            let (name, section, offset) = object.symbol_at(j);
            let outcome = symbol_address(objects, k, names, addresses, bases, datas, base_address, section.as_str(), offset);
            let address = match outcome {
                Ok(a) => a,
                Err(e) => {
                    proof {
                        lemma_resolve_sticks(objs, base_address@, k as nat, (j + 1) as nat, objs.len(), 0);
                    }
                    return Err(e);
                },
            };
            if !table.insert_new(name.clone(), address) {
                proof {
                    lemma_resolve_sticks(objs, base_address@, k as nat, (j + 1) as nat, objs.len(), 0);
                }
                return Err(LinkError::DuplicateSymbol { name: name.clone() });
            }
            j = j + 1;
        }
        k = k + 1;
    }
    Ok(table)
}

/// Writes the low `n` bytes of `value`, little-endian, into `data` from `start` on.
fn write_le(data: &mut Vec<u8>, start: usize, value: u64, n: usize)
    requires
        start + n <= old(data)@.len(),
    ensures
        final(data)@ == splice(old(data)@, start as int, le_bytes(value as nat, n as nat)),
{
    let ghost bytes = le_bytes(value as nat, n as nat);
    proof { lemma_le_bytes_len(value as nat, n as nat); }
    let mut rest: u64 = value;
    let mut i: usize = 0;
    proof {
        assert(bytes.skip(0) =~= bytes);
        assert(splice(old(data)@, start as int, bytes.take(0)) =~= old(data)@);
    }
    while i < n
        invariant
            i <= n,
            start + n <= data.len(),
            bytes == le_bytes(value as nat, n as nat),
            bytes.len() == n,
            le_bytes(rest as nat, (n - i) as nat) == bytes.skip(i as int),
            data@ == splice(old(data)@, start as int, bytes.take(i as int)),
        decreases n - i,
    {
        let byte = (rest % 256) as u8;
        proof {
            assert(bytes.skip(i as int)[0] == byte);
            assert(bytes[i as int] == byte);
            assert(le_bytes((rest / 256) as nat, (n - i - 1) as nat) =~= bytes.skip(i as int).drop_first());
            assert(bytes.skip(i as int).drop_first() =~= bytes.skip(i + 1));
        }
        data.set(start + i, byte);
        rest = rest / 256;
        proof {
            assert(data@ =~= splice(old(data)@, start as int, bytes.take(i + 1)));
        }
        i = i + 1;
    }
    proof { assert(bytes.take(n as int) =~= bytes); }
}

/// The lengths of the patched sections are those of the merged sections.
pub open spec fn same_lengths(datas: Seq<Vec<u8>>, merged: Seq<Seq<u8>>) -> bool {
    &&& datas.len() == merged.len()
    &&& forall|s: int| 0 <= s < datas.len() ==> (#[trigger] datas[s])@.len() == merged[s].len()
}

/// Patches every relocation: resolves its target, checks that the slot fits and the
/// address fits the width, and writes the address into the section bytes little-endian.
fn patch_relocations(
    objects: &[Object],
    datas: &mut Vec<Vec<u8>>,
    table: &SymbolTable,
    names: &Vec<String>,
    bases: &Vec<Vec<u64>>,
) -> (r: Result<(), LinkError>)
    requires
        merged(objects@, names@, old(datas)@, bases@),
    ensures
        final(datas)@.len() == old(datas)@.len(),
        match r {
            Ok(()) => patch_all(object_views(objects@), table.map()) == Ok::<Seq<Seq<u8>>, LinkErrorView>(byte_views(final(datas)@)),
            Err(e) => patch_all(object_views(objects@), table.map()) == Err::<Seq<Seq<u8>>, LinkErrorView>(e@),
        },
{
    let ghost objs = object_views(objects@);
    let ghost tab = table.map();
    let ghost merged_views = merged_sections(objs);
    let ghost start_datas = datas@;
    proof {
        lemma_merged_views(objects@, names@, datas@, bases@);
        lemma_output_names(objs);
    }
    let mut k: usize = 0;
    while k < objects.len()
        invariant
            objs == object_views(objects@),
            tab == table.map(),
            k <= objects@.len(),
            merged(objects@, names@, start_datas, bases@),
            merged_views == merged_sections(objs),
            byte_views(start_datas) == merged_views,
            distinct(output_names(objs)),
            forall|x: Seq<char>| #[trigger] output_names(objs).contains(x) <==> any_has_section(objs, x),
            same_lengths(datas@, merged_views),
            datas@.len() == start_datas.len(),
            start_datas == old(datas)@,
            patch_upto(objs, tab, k as nat, 0) == Ok::<Seq<Seq<u8>>, LinkErrorView>(byte_views(datas@)),
        decreases objects@.len() - k,
    {
        let object = &objects[k];
        let count = object.relocation_count();
        proof { assert(objs[k as int] == object@); }
        let mut j: usize = 0;
        while j < count
            invariant
                objs == object_views(objects@),
                tab == table.map(),
                k < objects@.len(),
                object@ == objs[k as int],
                count == objs[k as int].relocations.len(),
                j <= count,
                merged(objects@, names@, start_datas, bases@),
                merged_views == merged_sections(objs),
                byte_views(start_datas) == merged_views,
                distinct(output_names(objs)),
                forall|x: Seq<char>| #[trigger] output_names(objs).contains(x) <==> any_has_section(objs, x),
                same_lengths(datas@, merged_views),
                datas@.len() == start_datas.len(),
                start_datas == old(datas)@,
                patch_upto(objs, tab, k as nat, j as nat) == Ok::<Seq<Seq<u8>>, LinkErrorView>(byte_views(datas@)),
            decreases count - j,
        {
            let (section, offset, target, width, addend) = object.relocation_at(j);
            let ghost rel = objs[k as int].relocations[j as int];
            proof {
                if patch_upto(objs, tab, k as nat, (j + 1) as nat) is Err {
                    lemma_patch_sticks(objs, tab, k as nat, (j + 1) as nat, objs.len(), 0);
                }
            }
            let base = match section_base(object, &bases[k], section.as_str()) {
                Ok(b) => b,
                Err(e) => return Err(e),
            };
            proof {
                let m = choose|m: int| 0 <= m < bases@[k as int]@.len() && object@.sections[m].name == section@ && base == bases@[k as int]@[m];
                assert(base == contribution(objs, k as int, section@));
                assert(any_has_section(objs, section@));
                assert(output_names(objs).contains(section@));
            }
            let slot = match section_index(names, section.as_str()) {
                Some(s) => s,
                None => {
                    proof {
                        let t = choose|t: int| 0 <= t < output_names(objs).len() && output_names(objs)[t] == section@;
                        assert(string_views(names@)[t] == names@[t]@);
                    }
                    return Err(LinkError::InvalidSection { object: object.name().to_owned(), section: section.clone() });
                },
            };
            proof {
                assert(string_views(names@)[slot as int] == names@[slot as int]@);
                assert(output_names(objs)[slot as int] == section@);
                assert(slot_of(output_names(objs), section@) == slot);
            }
            let section_len: u64 = match object.section_data(section.as_str()) {
                Some(bytes) => bytes.len() as u64,
                None => 0,
            };
            let end = match offset.checked_add(width.bytes() as u64) {
                Some(e) => {
                    if e <= section_len {
                        e
                    } else {
                        return Err(LinkError::RelocationOutOfRange {
                            object: object.name().to_owned(),
                            section: section.clone(),
                            offset,
                        });
                    }
                },
                None => {
                    return Err(LinkError::RelocationOutOfRange {
                        object: object.name().to_owned(),
                        section: section.clone(),
                        offset,
                    });
                },
            };
            let address = match table.get(target.as_str()) {
                Some(a) => a,
                None => {
                    return Err(LinkError::UndefinedSymbol {
                        name: target.clone(),
                        object: object.name().to_owned(),
                    });
                },
            };
            let value: i128 = address as i128 + addend as i128;
            if value < 0 || value > width.max_value() {
                return Err(LinkError::RelocationOverflow { target: target.clone(), width });
            }
            proof {
                lemma_contribution_bound(objs, k as int, section@);
                assert(merged_views[slot as int] == merged_data(objs, section@));
                assert(datas@[slot as int]@.len() == merged_views[slot as int].len());
                assert(datas@[slot as int]@.len() == datas@[slot as int].len());
            }
            let start = (base + offset) as usize;
            let ghost prev_datas = datas@;
            let mut d: Vec<u8> = Vec::new();
            datas.set_and_swap(slot, &mut d);
            write_le(&mut d, start, value as u64, width.bytes());
            let ghost written = d@;
            datas.set_and_swap(slot, &mut d);
            proof {
                let prev = patch_upto(objs, tab, k as nat, j as nat);
                assert(relocation_value(tab, rel) == value);
                assert(value as u64 as nat == relocation_value(tab, rel) as nat);
                assert(byte_views(datas@) =~= byte_views(prev_datas).update(slot as int, written));
                assert(relocation_start(objs, k as int, rel) == start);
                assert(byte_views(prev_datas)[slot as int] == prev_datas[slot as int]@);
                assert(patch_upto(objs, tab, k as nat, (j + 1) as nat) == patch_step(objs, tab, k as int, rel, byte_views(prev_datas)));
                assert(forall|t: int| 0 <= t < datas@.len() ==> (#[trigger] datas@[t])@ == byte_views(datas@)[t]);
                assert(forall|t: int| 0 <= t < prev_datas.len() ==> (#[trigger] prev_datas[t])@ == byte_views(prev_datas)[t]);
            }
            j = j + 1;
        }
        k = k + 1;
    }
    Ok(())
}

/// Looks up the entry-point symbol, if one was configured.
fn resolve_entry(entry: Option<&str>, table: &SymbolTable) -> (r: Result<Option<u64>, LinkError>)
    ensures
        with_error_view(r) == entry_outcome(
            match entry {
                Some(n) => Some(n@),
                None => None,
            },
            table.map(),
        ),
{
    match entry {
        Some(name) => match table.get(name) {
            Some(address) => Ok(Some(address)),
            None => Err(LinkError::UndefinedEntry { name: name.to_owned() }),
        },
        None => Ok(None),
    }
}

/// A linker as a value: the address the image is laid out from and the entry symbol.
pub struct LinkerView {
    pub base_address: u64,
    pub entry: Option<Seq<char>>,
}

/// A configured linker: a base address and an optional entry point. It holds no per-link
/// state, so one instance links many sets of objects.
#[derive(Clone, PartialEq, Eq, Debug)]
pub struct Linker {
    base_address: u64,
    entry: Option<String>,
}

impl View for Linker {
    type V = LinkerView;

    closed spec fn view(&self) -> LinkerView {
        LinkerView {
            base_address: self.base_address,
            entry: match self.entry {
                Some(n) => Some(n@),
                None => None,
            },
        }
    }
}

/// A link's outcome as a value.
pub open spec fn link_outcome(r: Result<Image, LinkError>) -> Result<ImageView, LinkErrorView> {
    match r {
        Ok(image) => Ok(image@),
        Err(e) => Err(e@),
    }
}

impl Default for Linker {
    /// Base address `0` and no entry point.
    fn default() -> (l: Linker)
        ensures
            l@ == (LinkerView { base_address: 0, entry: None }),
    {
        Linker { base_address: 0, entry: None }
    }
}

impl Linker {
    /// Creates a linker with the default configuration: base address `0` and no entry
    /// point.
    pub fn new() -> (l: Linker)
        ensures
            l@ == (LinkerView { base_address: 0, entry: None }),
    {
        Linker { base_address: 0, entry: None }
    }

    /// Sets the address the first output section is placed at; later sections follow it.
    pub fn base_address(self, address: u64) -> (l: Linker)
        ensures
            l@ == (LinkerView { base_address: address, entry: self@.entry }),
    {
        Linker { base_address: address, entry: self.entry }
    }

    /// Sets the symbol whose address becomes the image's entry point.
    pub fn entry(self, symbol: &str) -> (l: Linker)
        ensures
            l@ == (LinkerView { base_address: self@.base_address, entry: Some(symbol@) }),
    {
        Linker { base_address: self.base_address, entry: Some(symbol.to_owned()) }
    }

    /// Links `objects` into an image: their sections are merged by name in object order
    /// and placed end to end from the base address, every symbol is resolved to an
    /// address, every relocation is patched, and the entry point is looked up.
    pub fn link(&self, objects: &[Object]) -> (r: Result<Image, LinkError>)
        ensures
            link_outcome(r) == link_result(object_views(objects@), self@.base_address, self@.entry),
    {
        let ghost objs = object_views(objects@);
        let (names, datas, bases) = merge_sections(objects);
        proof {
            lemma_merged_views(objects@, names@, datas@, bases@);
        }
        let addresses = match place_sections(&datas, self.base_address) {
            Ok(a) => a,
            Err(e) => return Err(e),
        };
        let table = match resolve_symbols(objects, &names, &addresses, &bases, Ghost(datas@), Ghost(self.base_address)) {
            Ok(t) => t,
            Err(e) => return Err(e),
        };
        let mut datas = datas;
        match patch_relocations(objects, &mut datas, &table, &names, &bases) {
            Ok(()) => {},
            Err(e) => return Err(e),
        }
        let entry_name: Option<&str> = match &self.entry {
            Some(n) => Some(n.as_str()),
            None => None,
        };
        let entry = match resolve_entry(entry_name, &table) {
            Ok(e) => e,
            Err(e) => return Err(e),
        };
        let ghost patched = byte_views(datas@);
        let mut sections: Vec<OutputSection> = Vec::new();
        let mut s: usize = 0;
        while s < names.len()
            invariant
                s <= names@.len(),
                datas@.len() == names@.len(),
                addresses@.len() == names@.len(),
                patched.len() == names@.len(),
                forall|t: int| s <= t < names@.len() ==> (#[trigger] datas@[t])@ == patched[t],
                sections@.len() == s,
                section_views(sections@) == laid_out(objs, self@.base_address, patched).take(s as int),
                string_views(names@) == output_names(objs),
                forall|t: int| 0 <= t < names@.len() ==> #[trigger] addresses@[t] == start_of(merged_sections(objs), self@.base_address as int, t),
            decreases names@.len() - s,
        {
            let mut d: Vec<u8> = Vec::new();
            datas.set_and_swap(s, &mut d);
            let name = names[s].clone();
            let ghost before = sections@;
            sections.push(OutputSection::new(name, addresses[s], d));
            proof {
                assert(string_views(names@)[s as int] == names@[s as int]@);
                assert forall|t: int| 0 <= t < s + 1 implies #[trigger] section_views(sections@)[t] == laid_out(objs, self@.base_address, patched).take(s + 1)[t] by {
                    if t < s {
                        assert(sections@[t] == before[t]);
                        assert(section_views(before)[t] == laid_out(objs, self@.base_address, patched).take(s as int)[t]);
                    }
                }
                assert(section_views(sections@) =~= laid_out(objs, self@.base_address, patched).take(s + 1));
            }
            s = s + 1;
        }
        proof {
            assert(laid_out(objs, self@.base_address, patched).take(s as int) =~= laid_out(objs, self@.base_address, patched));
        }
        Ok(Image::from_layout(sections, table, entry))
    }
}

/// Links `objects` into an image with the default configuration: base address `0` and
/// no entry point. The same as `Linker::new().link(objects)`.
pub fn link(objects: &[Object]) -> (r: Result<Image, LinkError>)
    ensures
        link_outcome(r) == link_result(object_views(objects@), 0, None),
{
    Linker::new().link(objects)
}

} // verus!
