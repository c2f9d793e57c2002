//! What a link computes, stated over values: the merged sections, their placement, the
//! symbol table, the patched bytes, and the entry point.

use vstd::prelude::*;

use crate::error::LinkErrorView;
use crate::image::{ImageView, OutputSectionView};
use crate::object::{lemma_section_in_absent, Object, ObjectView, RelocationView};

verus! {

/// The objects of a list, as values.
pub open spec fn object_views(objects: Seq<Object>) -> Seq<ObjectView> {
    objects.map_values(|o: Object| o@)
}

/// The names of a list of strings, as character sequences.
pub open spec fn string_views(v: Seq<String>) -> Seq<Seq<char>> {
    v.map_values(|s: String| s@)
}

// ---------------------------------------------------------------------------------------
// Merging

/// The bytes of the output section named `n`: every object's section of that name,
/// concatenated in object order.
pub open spec fn merged_data(objs: Seq<ObjectView>, n: Seq<char>) -> Seq<u8>
    decreases objs.len(),
{
    if objs.len() == 0 {
        seq![]
    } else {
        merged_data(objs.drop_last(), n) + objs.last().section_bytes(n)
    }
}

/// Where object `k`'s contribution to the section named `n` begins within the merged
/// section: the bytes the objects before it contributed.
pub open spec fn contribution(objs: Seq<ObjectView>, k: int, n: Seq<char>) -> nat {
    merged_data(objs.take(k), n).len()
}

/// `names`, followed by each name of `secs` that is new, in order.
pub open spec fn add_names(names: Seq<Seq<char>>, secs: Seq<crate::object::SectionView>) -> Seq<Seq<char>>
    decreases secs.len(),
{
    if secs.len() == 0 {
        names
    } else {
        let prev = add_names(names, secs.drop_last());
        if prev.contains(secs.last().name) {
            prev
        } else {
            prev.push(secs.last().name)
        }
    }
}

/// The names of the output sections: every section name, in the order it first occurs
/// across the objects.
pub open spec fn output_names(objs: Seq<ObjectView>) -> Seq<Seq<char>>
    decreases objs.len(),
{
    if objs.len() == 0 {
        seq![]
    } else {
        add_names(output_names(objs.drop_last()), objs.last().sections)
    }
}

/// No name occurs twice.
pub open spec fn distinct(names: Seq<Seq<char>>) -> bool {
    forall|i: int, j: int| 0 <= i < names.len() && 0 <= j < names.len() && i != j ==> #[trigger] names[i] != #[trigger] names[j]
}

/// Some object created a section named `n`.
pub open spec fn any_has_section(objs: Seq<ObjectView>, n: Seq<char>) -> bool {
    exists|k: int| 0 <= k < objs.len() && #[trigger] objs[k].has_section(n)
}

pub proof fn lemma_add_names(names: Seq<Seq<char>>, secs: Seq<crate::object::SectionView>)
    ensures
        add_names(names, secs).len() >= names.len(),
        add_names(names, secs).take(names.len() as int) == names,
        forall|x: Seq<char>| #[trigger] add_names(names, secs).contains(x) <==> (names.contains(x) || exists|i: int| 0 <= i < secs.len() && secs[i].name == x),
        distinct(names) ==> distinct(add_names(names, secs)),
    decreases secs.len(),
{
    if secs.len() == 0 {
        assert(names.take(names.len() as int) =~= names);
    } else {
        let t = secs.drop_last();
        lemma_add_names(names, t);
        let prev = add_names(names, t);
        let res = add_names(names, secs);
        if !prev.contains(secs.last().name) {
            assert(res.take(names.len() as int) =~= prev.take(names.len() as int));
            if distinct(prev) {
                assert forall|i: int, j: int| 0 <= i < res.len() && 0 <= j < res.len() && i != j implies #[trigger] res[i] != #[trigger] res[j] by {
                    if i == res.len() - 1 {
                        assert(prev.contains(prev[j]));
                    } else if j == res.len() - 1 {
                        assert(prev.contains(prev[i]));
                    }
                }
            }
        }
        assert forall|x: Seq<char>| #[trigger] res.contains(x) <==> (names.contains(x) || exists|i: int| 0 <= i < secs.len() && secs[i].name == x) by {
            if exists|i: int| 0 <= i < secs.len() && secs[i].name == x {
                let i = choose|i: int| 0 <= i < secs.len() && secs[i].name == x;
                if i < secs.len() - 1 {
                    assert(t[i] == secs[i]);
                    assert(prev.contains(x));
                } else if !prev.contains(x) {
                    assert(res[res.len() - 1] == x);
                }
            }
            if prev.contains(x) {
                let j = choose|j: int| 0 <= j < prev.len() && prev[j] == x;
                assert(res[j] == x);
            }
            if res.contains(x) {
                let j = choose|j: int| 0 <= j < res.len() && res[j] == x;
                if j < prev.len() {
                    assert(prev[j] == x);
                    assert(prev.contains(x));
                } else {
                    assert(secs[secs.len() - 1].name == x);
                }
            }
            if prev.contains(x) && !(names.contains(x)) {
                let i = choose|i: int| 0 <= i < t.len() && t[i].name == x;
                assert(secs[i] == t[i]);
            }
        }
    }
}

pub proof fn lemma_output_names(objs: Seq<ObjectView>)
    ensures
        distinct(output_names(objs)),
        forall|x: Seq<char>| #[trigger] output_names(objs).contains(x) <==> any_has_section(objs, x),
    decreases objs.len(),
{
    if objs.len() > 0 {
        let pre = objs.drop_last();
        lemma_output_names(pre);
        lemma_add_names(output_names(pre), objs.last().sections);
        assert forall|x: Seq<char>| #[trigger] output_names(objs).contains(x) <==> any_has_section(objs, x) by {
            if output_names(pre).contains(x) {
                let k = choose|k: int| 0 <= k < pre.len() && #[trigger] pre[k].has_section(x);
                assert(objs[k] == pre[k]);
            }
            if exists|i: int| 0 <= i < objs.last().sections.len() && objs.last().sections[i].name == x {
                assert(objs[objs.len() - 1].has_section(x));
            }
            if any_has_section(objs, x) {
                let k = choose|k: int| 0 <= k < objs.len() && #[trigger] objs[k].has_section(x);
                if k < objs.len() - 1 {
                    assert(objs[k] == pre[k]);
                    assert(any_has_section(pre, x));
                } else {
                    let i = choose|i: int| 0 <= i < objs[k].sections.len() && #[trigger] objs[k].sections[i].name == x;
                }
            }
        }
    } else {
        assert(distinct(output_names(objs)));
    }
}

/// A name no object created a section for has no merged bytes.
pub proof fn lemma_merged_absent(objs: Seq<ObjectView>, n: Seq<char>)
    requires
        !any_has_section(objs, n),
    ensures
        merged_data(objs, n) == Seq::<u8>::empty(),
    decreases objs.len(),
{
    if objs.len() > 0 {
        let pre = objs.drop_last();
        assert(!any_has_section(pre, n)) by {
            if any_has_section(pre, n) {
                let k = choose|k: int| 0 <= k < pre.len() && #[trigger] pre[k].has_section(n);
                assert(objs[k] == pre[k]);
            }
        }
        lemma_merged_absent(pre, n);
        let last = objs.last();
        assert(!objs[objs.len() - 1].has_section(n));
        assert forall|i: int| 0 <= i < last.sections.len() implies #[trigger] last.sections[i].name != n by {
            if last.sections[i].name == n {
                assert(last.has_section(n));
            }
        }
        lemma_section_in_absent(last.sections, n);
        assert(merged_data(objs, n) =~= Seq::<u8>::empty());
    }
}

// ---------------------------------------------------------------------------------------
// Placement

/// The merged bytes of each output section, in output order.
pub open spec fn merged_sections(objs: Seq<ObjectView>) -> Seq<Seq<u8>> {
    output_names(objs).map_values(|n: Seq<char>| merged_data(objs, n))
}

/// The address of the `i`-th of the sections `datas` when they are placed end to end from
/// `base` (for `i` the length, the address just past the last one).
pub open spec fn start_of(datas: Seq<Seq<u8>>, base: int, i: int) -> int
    decreases i,
{
    if i <= 0 {
        base
    } else {
        start_of(datas, base, i - 1) + datas[i - 1].len()
    }
}

/// The sections, placed end to end from `base`, end within the 64-bit address space.
pub open spec fn layout_fits(objs: Seq<ObjectView>, base: u64) -> bool {
    start_of(merged_sections(objs), base as int, merged_sections(objs).len() as int) <= u64::MAX
}

/// Section starts only grow.
pub proof fn lemma_start_of_monotone(datas: Seq<Seq<u8>>, base: int, i: int, j: int)
    requires
        0 <= i <= j,
    ensures
        start_of(datas, base, i) <= start_of(datas, base, j),
    decreases j,
{
    if i < j {
        lemma_start_of_monotone(datas, base, i, j - 1);
    }
}

/// The position of the output section named `n`.
pub open spec fn slot_of(names: Seq<Seq<char>>, n: Seq<char>) -> int {
    choose|i: int| 0 <= i < names.len() && names[i] == n
}

/// The address of the output section named `n` once the sections are placed from `base`.
pub open spec fn section_address(objs: Seq<ObjectView>, base: u64, n: Seq<char>) -> int {
    start_of(merged_sections(objs), base as int, slot_of(output_names(objs), n))
}

// ---------------------------------------------------------------------------------------
// Symbols

/// The address `offset` bytes into object `k`'s part of `section` resolves to: the
/// section's address, plus where the object's contribution landed in it, plus the offset.
pub open spec fn symbol_target(objs: Seq<ObjectView>, base: u64, k: int, section: Seq<char>, offset: u64) -> int {
    section_address(objs, base, section) + contribution(objs, k, section) + offset
}

/// Resolving a symbol of object `k` at `offset` in `section`: its address, or why it has
/// none.
pub open spec fn symbol_outcome(objs: Seq<ObjectView>, base: u64, k: int, section: Seq<char>, offset: u64) -> Result<u64, LinkErrorView> {
    if !objs[k].has_section(section) {
        Err(LinkErrorView::InvalidSection { object: objs[k].name, section })
    } else if symbol_target(objs, base, k, section, offset) > u64::MAX {
        Err(LinkErrorView::LayoutOverflow)
    } else {
        Ok(symbol_target(objs, base, k, section, offset) as u64)
    }
}

/// The symbol table after the symbols of the objects before `k`, and the first `j` of
/// object `k`, are resolved in order; or the first failure.
pub open spec fn resolve_upto(objs: Seq<ObjectView>, base: u64, k: nat, j: nat) -> Result<Map<Seq<char>, u64>, LinkErrorView>
    decreases k, j,
{
    if j == 0 {
        if k == 0 {
            Ok(Map::empty())
        } else {
            resolve_upto(objs, base, (k - 1) as nat, objs[k - 1].symbols.len())
        }
    } else {
        match resolve_upto(objs, base, k, (j - 1) as nat) {
            Err(e) => Err(e),
            Ok(table) => {
                let s = objs[k as int].symbols[j - 1];
                match symbol_outcome(objs, base, k as int, s.section, s.offset) {
                    Err(e) => Err(e),
                    Ok(a) => if table.contains_key(s.name) {
                        Err(LinkErrorView::DuplicateSymbol { name: s.name })
                    } else {
                        Ok(table.insert(s.name, a))
                    },
                }
            },
        }
    }
}

/// The symbol table of the whole link, or the first symbol that fails.
pub open spec fn resolve_all(objs: Seq<ObjectView>, base: u64) -> Result<Map<Seq<char>, u64>, LinkErrorView> {
    resolve_upto(objs, base, objs.len(), 0)
}

/// `(k, j)` is a point in the walk over the objects' symbols.
pub open spec fn symbol_point(objs: Seq<ObjectView>, k: nat, j: nat) -> bool {
    k < objs.len() && j <= objs[k as int].symbols.len() || k == objs.len() && j == 0
}

/// Once resolution fails, it stays failed with the same error.
pub proof fn lemma_resolve_sticks(objs: Seq<ObjectView>, base: u64, k: nat, j: nat, k2: nat, j2: nat)
    requires
        symbol_point(objs, k, j),
        symbol_point(objs, k2, j2),
        k < k2 || (k == k2 && j <= j2),
        resolve_upto(objs, base, k, j) is Err,
    ensures
        resolve_upto(objs, base, k2, j2) == resolve_upto(objs, base, k, j),
    decreases k2, j2,
{
    if k2 == k && j2 == j {
    } else if j2 > 0 {
        lemma_resolve_sticks(objs, base, k, j, k2, (j2 - 1) as nat);
    } else {
        lemma_resolve_sticks(objs, base, k, j, (k2 - 1) as nat, objs[k2 - 1].symbols.len());
    }
}

// ---------------------------------------------------------------------------------------
// Relocations

/// `v` as `n` little-endian bytes (the low `n` bytes of `v`).
pub open spec fn le_bytes(v: nat, n: nat) -> Seq<u8>
    decreases n,
{
    if n == 0 {
        seq![]
    } else {
        seq![(v % 256) as u8] + le_bytes(v / 256, (n - 1) as nat)
    }
}

pub proof fn lemma_le_bytes_len(v: nat, n: nat)
    ensures
        le_bytes(v, n).len() == n,
    decreases n,
{
    if n > 0 {
        lemma_le_bytes_len(v / 256, (n - 1) as nat);
    }
}

/// `data` with the bytes from `start` on replaced by `bytes`.
pub open spec fn splice(data: Seq<u8>, start: int, bytes: Seq<u8>) -> Seq<u8> {
    Seq::new(data.len(), |i: int| if start <= i < start + bytes.len() { bytes[i - start] } else { data[i] })
}

/// The value relocation `r` writes: its target's address plus its addend.
pub open spec fn relocation_value(table: Map<Seq<char>, u64>, r: RelocationView) -> int {
    table[r.target] + r.addend
}

/// Where relocation `r` of object `k` writes within its merged output section.
pub open spec fn relocation_start(objs: Seq<ObjectView>, k: int, r: RelocationView) -> int {
    contribution(objs, k, r.section) + r.offset
}

/// Applying relocation `r` of object `k` to the section bytes `datas`: the patched bytes,
/// or why the relocation cannot be applied.
pub open spec fn patch_step(
    objs: Seq<ObjectView>,
    table: Map<Seq<char>, u64>,
    k: int,
    r: RelocationView,
    datas: Seq<Seq<u8>>,
) -> Result<Seq<Seq<u8>>, LinkErrorView> {
    let o = objs[k];
    if !o.has_section(r.section) {
        Err(LinkErrorView::InvalidSection { object: o.name, section: r.section })
    } else if r.offset + r.width.size() > o.section_bytes(r.section).len() {
        Err(LinkErrorView::RelocationOutOfRange { object: o.name, section: r.section, offset: r.offset })
    } else if !table.contains_key(r.target) {
        Err(LinkErrorView::UndefinedSymbol { name: r.target, object: o.name })
    } else if relocation_value(table, r) < 0 || relocation_value(table, r) > r.width.max() {
        Err(LinkErrorView::RelocationOverflow { target: r.target, width: r.width })
    } else {
        let slot = slot_of(output_names(objs), r.section);
        Ok(datas.update(slot, splice(datas[slot], relocation_start(objs, k, r),
            le_bytes(relocation_value(table, r) as nat, r.width.size()))))
    }
}

/// The section bytes after the relocations of the objects before `k`, and the first `j`
/// of object `k`, are applied in order to the merged sections; or the first failure.
pub open spec fn patch_upto(objs: Seq<ObjectView>, table: Map<Seq<char>, u64>, k: nat, j: nat) -> Result<Seq<Seq<u8>>, LinkErrorView>
    decreases k, j,
{
    if j == 0 {
        if k == 0 {
            Ok(merged_sections(objs))
        } else {
            patch_upto(objs, table, (k - 1) as nat, objs[k - 1].relocations.len())
        }
    } else {
        match patch_upto(objs, table, k, (j - 1) as nat) {
            Err(e) => Err(e),
            Ok(datas) => patch_step(objs, table, k as int, objs[k as int].relocations[j - 1], datas),
        }
    }
}

/// The section bytes with every relocation applied, or the first relocation that fails.
pub open spec fn patch_all(objs: Seq<ObjectView>, table: Map<Seq<char>, u64>) -> Result<Seq<Seq<u8>>, LinkErrorView> {
    patch_upto(objs, table, objs.len(), 0)
}

/// `(k, j)` is a point in the walk over the objects' relocations.
pub open spec fn relocation_point(objs: Seq<ObjectView>, k: nat, j: nat) -> bool {
    k < objs.len() && j <= objs[k as int].relocations.len() || k == objs.len() && j == 0
}

/// Once patching fails, it stays failed with the same error.
pub proof fn lemma_patch_sticks(objs: Seq<ObjectView>, table: Map<Seq<char>, u64>, k: nat, j: nat, k2: nat, j2: nat)
    requires
        relocation_point(objs, k, j),
        relocation_point(objs, k2, j2),
        k < k2 || (k == k2 && j <= j2),
        patch_upto(objs, table, k, j) is Err,
    ensures
        patch_upto(objs, table, k2, j2) == patch_upto(objs, table, k, j),
    decreases k2, j2,
{
    if k2 == k && j2 == j {
    } else if j2 > 0 {
        lemma_patch_sticks(objs, table, k, j, k2, (j2 - 1) as nat);
    } else {
        lemma_patch_sticks(objs, table, k, j, (k2 - 1) as nat, objs[k2 - 1].relocations.len());
    }
}

/// The objects before `k` contribute a prefix of each merged section.
pub proof fn lemma_merged_take(objs: Seq<ObjectView>, a: int, n: Seq<char>)
    requires
        0 <= a <= objs.len(),
    ensures
        merged_data(objs.take(a), n).len() <= merged_data(objs, n).len(),
        a < objs.len() ==> merged_data(objs.take(a + 1), n) == merged_data(objs.take(a), n) + objs[a].section_bytes(n),
    decreases objs.len(),
{
    if a < objs.len() {
        let t = objs.take(a + 1);
        assert(t.drop_last() =~= objs.take(a));
        assert(t.last() == objs[a]);
        let pre = objs.drop_last();
        assert(pre.take(a) =~= objs.take(a));
        lemma_merged_take(pre, a, n);
    } else {
        assert(objs.take(a) =~= objs);
    }
}

/// A relocation slot that fits its object's section fits the merged section.
pub proof fn lemma_contribution_bound(objs: Seq<ObjectView>, k: int, n: Seq<char>)
    requires
        0 <= k < objs.len(),
    ensures
        contribution(objs, k, n) + objs[k].section_bytes(n).len() <= merged_data(objs, n).len(),
{
    lemma_merged_take(objs, k, n);
    lemma_merged_take(objs, k + 1, n);
}

// ---------------------------------------------------------------------------------------
// The whole link

/// The address of the configured entry point, if any, or `UndefinedEntry` if no object
/// defines it.
pub open spec fn entry_outcome(entry: Option<Seq<char>>, table: Map<Seq<char>, u64>) -> Result<Option<u64>, LinkErrorView> {
    match entry {
        None => Ok(None),
        Some(n) => if table.contains_key(n) {
            Ok(Some(table[n]))
        } else {
            Err(LinkErrorView::UndefinedEntry { name: n })
        },
    }
}

/// The output sections: each name with its address when placed from `base`, holding
/// `datas`.
pub open spec fn laid_out(objs: Seq<ObjectView>, base: u64, datas: Seq<Seq<u8>>) -> Seq<OutputSectionView> {
    Seq::new(output_names(objs).len(), |i: int| OutputSectionView {
        name: output_names(objs)[i],
        address: start_of(merged_sections(objs), base as int, i) as u64,
        data: datas[i],
    })
}

/// What linking `objs` from `base`, with the entry point `entry`, produces: sections merge
/// and are placed end to end from `base` (or the layout overflows), symbols resolve,
/// relocations are patched, and the entry point is looked up; the first failure in that
/// order is the error.
pub open spec fn link_result(objs: Seq<ObjectView>, base: u64, entry: Option<Seq<char>>) -> Result<ImageView, LinkErrorView> {
    if !layout_fits(objs, base) {
        Err(LinkErrorView::LayoutOverflow)
    } else {
        match resolve_all(objs, base) {
            Err(e) => Err(e),
            Ok(table) => match patch_all(objs, table) {
                Err(e) => Err(e),
                Ok(datas) => match entry_outcome(entry, table) {
                    Err(e) => Err(e),
                    Ok(address) => Ok(ImageView {
                        sections: laid_out(objs, base, datas),
                        symbols: table,
                        entry: address,
                    }),
                },
            },
        }
    }
}

} // verus!
