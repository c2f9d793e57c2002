//! What holds of every successful link, proved from what a link computes.

use vstd::prelude::*;

use crate::model::{
    contribution, laid_out, layout_fits, le_bytes, lemma_le_bytes_len,
    lemma_merged_take, lemma_output_names, lemma_start_of_monotone, link_result, merged_data,
    merged_sections, output_names, patch_all, patch_upto, relocation_point,
    relocation_start, relocation_value, resolve_all, resolve_upto, slot_of, splice, start_of,
    symbol_outcome, symbol_point, any_has_section,
};
use crate::error::LinkErrorView;
use crate::image::ImageView;
use crate::object::{ObjectView, RelocationView};
use crate::text::digit_char;

verus! {

/// `(k1, j1)` comes before `(k2, j2)` in object order, then in recording order.
pub open spec fn before(k1: int, j1: int, k2: int, j2: int) -> bool {
    k1 < k2 || (k1 == k2 && j1 < j2)
}

/// Relocation `j` of object `k` exists.
pub open spec fn is_relocation(objs: Seq<ObjectView>, k: int, j: int) -> bool {
    0 <= k < objs.len() && 0 <= j < objs[k].relocations.len()
}

/// Symbol definition `j` of object `k` exists.
pub open spec fn is_symbol(objs: Seq<ObjectView>, k: int, j: int) -> bool {
    0 <= k < objs.len() && 0 <= j < objs[k].symbols.len()
}

/// Relocation `j` of object `k` writes byte `p` of output section `s`.
pub open spec fn writes_at(objs: Seq<ObjectView>, k: int, j: int, s: int, p: int) -> bool {
    let r = objs[k].relocations[j];
    &&& objs[k].has_section(r.section)
    &&& slot_of(output_names(objs), r.section) == s
    &&& relocation_start(objs, k, r) <= p < relocation_start(objs, k, r) + r.width.size()
}

/// Relocation `r` of object `k` can be applied against `table`: its section exists in
/// its object, its slot fits that section, its target is defined, and the address plus
/// addend fits its width.
pub open spec fn relocation_ok(objs: Seq<ObjectView>, table: Map<Seq<char>, u64>, k: int, r: RelocationView) -> bool {
    &&& objs[k].has_section(r.section)
    &&& r.offset + r.width.size() <= objs[k].section_bytes(r.section).len()
    &&& table.contains_key(r.target)
    &&& 0 <= relocation_value(table, r) <= r.width.max()
}

/// The walk over the relocations never changes how many sections there are or how long
/// each is.
proof fn lemma_patch_lengths(objs: Seq<ObjectView>, table: Map<Seq<char>, u64>, k: nat, j: nat)
    requires
        relocation_point(objs, k, j),
        patch_upto(objs, table, k, j) is Ok,
    ensures
        patch_upto(objs, table, k, j)->Ok_0.len() == merged_sections(objs).len(),
        forall|s: int| 0 <= s < merged_sections(objs).len() ==> #[trigger] patch_upto(objs, table, k, j)->Ok_0[s].len() == merged_sections(objs)[s].len(),
    decreases k, j,
{
    if j == 0 {
        if k > 0 {
            lemma_patch_lengths(objs, table, (k - 1) as nat, objs[k - 1].relocations.len());
        }
    } else {
        lemma_patch_lengths(objs, table, k, (j - 1) as nat);
        let d = patch_upto(objs, table, k, (j - 1) as nat)->Ok_0;
        let r = objs[k as int].relocations[j - 1];
        let slot = slot_of(output_names(objs), r.section);
        lemma_output_names(objs);
        assert(objs[k as int].has_section(r.section));
        assert(any_has_section(objs, r.section));
        assert(output_names(objs).contains(r.section));
        lemma_le_bytes_len(relocation_value(table, r) as nat, r.width.size());
    }
}

/// Applying relocations between two points of a successful walk changes only the bytes
/// they write, and no length.
proof fn lemma_patch_frame(objs: Seq<ObjectView>, table: Map<Seq<char>, u64>, k1: nat, j1: nat, k2: nat, j2: nat)
    requires
        relocation_point(objs, k1, j1),
        relocation_point(objs, k2, j2),
        k1 < k2 || (k1 == k2 && j1 <= j2),
        patch_upto(objs, table, k2, j2) is Ok,
    ensures
        patch_upto(objs, table, k1, j1) is Ok,
        ({
            let d1 = patch_upto(objs, table, k1, j1)->Ok_0;
            let d2 = patch_upto(objs, table, k2, j2)->Ok_0;
            &&& d2.len() == d1.len()
            &&& forall|s: int| 0 <= s < d1.len() ==> #[trigger] d2[s].len() == d1[s].len()
            &&& forall|s: int, p: int|
                0 <= s < d1.len() && 0 <= p < d1[s].len() && (forall|k: int, j: int|
                    is_relocation(objs, k, j) && !before(k, j, k1 as int, j1 as int) && before(k, j, k2 as int, j2 as int)
                        ==> !#[trigger] writes_at(objs, k, j, s, p)) ==> #[trigger] d2[s][p] == d1[s][p]
        }),
        forall|k: int, j: int|
            is_relocation(objs, k, j) && !before(k, j, k1 as int, j1 as int) && before(k, j, k2 as int, j2 as int)
                ==> relocation_ok(objs, table, k, #[trigger] objs[k].relocations[j]),
    decreases k2, j2,
{
    if k2 == k1 && j2 == j1 {
    } else if j2 > 0 {
        let pk = k2;
        let pj = (j2 - 1) as nat;
        assert(patch_upto(objs, table, pk, pj) is Ok);
        lemma_patch_frame(objs, table, k1, j1, pk, pj);
        lemma_patch_lengths(objs, table, pk, pj);
        lemma_output_names(objs);
        let d_prev = patch_upto(objs, table, pk, pj)->Ok_0;
        let r = objs[k2 as int].relocations[pj as int];
        let slot = slot_of(output_names(objs), r.section);
        let start = relocation_start(objs, k2 as int, r);
        let bytes = le_bytes(relocation_value(table, r) as nat, r.width.size());
        lemma_le_bytes_len(relocation_value(table, r) as nat, r.width.size());
        let d1 = patch_upto(objs, table, k1, j1)->Ok_0;
        let d2 = patch_upto(objs, table, k2, j2)->Ok_0;
        assert(relocation_ok(objs, table, k2 as int, r));
        assert(objs[k2 as int].has_section(r.section));
        assert(any_has_section(objs, r.section));
        assert(output_names(objs).contains(r.section));
        assert(0 <= slot < d_prev.len());
        assert(d2 == d_prev.update(slot, splice(d_prev[slot], start, bytes)));
        assert forall|s: int, p: int|
            0 <= s < d1.len() && 0 <= p < d1[s].len() && (forall|k: int, j: int|
                is_relocation(objs, k, j) && !before(k, j, k1 as int, j1 as int) && before(k, j, k2 as int, j2 as int)
                    ==> !#[trigger] writes_at(objs, k, j, s, p)) implies #[trigger] d2[s][p] == d1[s][p] by {
            assert(!writes_at(objs, k2 as int, pj as int, s, p));
            assert forall|k: int, j: int|
                is_relocation(objs, k, j) && !before(k, j, k1 as int, j1 as int) && before(k, j, pk as int, pj as int)
                    implies !#[trigger] writes_at(objs, k, j, s, p) by {
                assert(before(k, j, k2 as int, j2 as int));
            }
            assert(d_prev[s][p] == d1[s][p]);
        }
        assert forall|k: int, j: int|
            is_relocation(objs, k, j) && !before(k, j, k1 as int, j1 as int) && before(k, j, k2 as int, j2 as int)
                implies relocation_ok(objs, table, k, #[trigger] objs[k].relocations[j]) by {
            if !(k == k2 && j == pj) {
                assert(before(k, j, pk as int, pj as int));
            }
        }
    } else {
        let pk = (k2 - 1) as nat;
        let pj = objs[pk as int].relocations.len();
        lemma_patch_frame(objs, table, k1, j1, pk, pj);
        let d1 = patch_upto(objs, table, k1, j1)->Ok_0;
        let d2 = patch_upto(objs, table, k2, j2)->Ok_0;
        assert forall|s: int, p: int|
            0 <= s < d1.len() && 0 <= p < d1[s].len() && (forall|k: int, j: int|
                is_relocation(objs, k, j) && !before(k, j, k1 as int, j1 as int) && before(k, j, k2 as int, j2 as int)
                    ==> !#[trigger] writes_at(objs, k, j, s, p)) implies #[trigger] d2[s][p] == d1[s][p] by {
            assert forall|k: int, j: int|
                is_relocation(objs, k, j) && !before(k, j, k1 as int, j1 as int) && before(k, j, pk as int, pj as int)
                    implies !#[trigger] writes_at(objs, k, j, s, p) by {
                assert(before(k, j, k2 as int, j2 as int));
            }
        }
        assert forall|k: int, j: int|
            is_relocation(objs, k, j) && !before(k, j, k1 as int, j1 as int) && before(k, j, k2 as int, j2 as int)
                implies relocation_ok(objs, table, k, #[trigger] objs[k].relocations[j]) by {
            assert(before(k, j, pk as int, pj as int));
        }
    }
}

/// Resolving up to a point of a successful walk: every symbol before it resolved to its
/// address, the table holds exactly their names, and no two of them share a name.
proof fn lemma_resolve_facts(objs: Seq<ObjectView>, base: u64, k: nat, j: nat)
    requires
        symbol_point(objs, k, j),
        resolve_upto(objs, base, k, j) is Ok,
    ensures
        ({
            let m = resolve_upto(objs, base, k, j)->Ok_0;
            &&& forall|kk: int, jj: int| is_symbol(objs, kk, jj) && before(kk, jj, k as int, j as int) ==> {
                let s = #[trigger] objs[kk].symbols[jj];
                &&& symbol_outcome(objs, base, kk, s.section, s.offset) is Ok
                &&& m.contains_key(s.name)
                &&& m[s.name] == symbol_outcome(objs, base, kk, s.section, s.offset)->Ok_0
            }
            &&& forall|n: Seq<char>| #[trigger] m.contains_key(n) ==> exists|kk: int, jj: int|
                is_symbol(objs, kk, jj) && before(kk, jj, k as int, j as int) && #[trigger] objs[kk].symbols[jj].name == n
            &&& forall|k1: int, j1: int, k2: int, j2: int|
                is_symbol(objs, k1, j1) && before(k1, j1, k as int, j as int) && is_symbol(objs, k2, j2)
                    && before(k2, j2, k as int, j as int) && (k1 != k2 || j1 != j2)
                    ==> #[trigger] objs[k1].symbols[j1].name != #[trigger] objs[k2].symbols[j2].name
        }),
    decreases k, j,
{
    let m = resolve_upto(objs, base, k, j)->Ok_0;
    if j == 0 {
        if k > 0 {
            let pk = (k - 1) as nat;
            let pj = objs[pk as int].symbols.len();
            lemma_resolve_facts(objs, base, pk, pj);
            assert forall|kk: int, jj: int| is_symbol(objs, kk, jj) && before(kk, jj, k as int, j as int) implies
                before(kk, jj, pk as int, pj as int) by {}
        } else {
            assert(m =~= Map::<Seq<char>, u64>::empty());
        }
    } else {
        let pj = (j - 1) as nat;
        lemma_resolve_facts(objs, base, k, pj);
        let prev = resolve_upto(objs, base, k, pj)->Ok_0;
        let s = objs[k as int].symbols[pj as int];
        let a = symbol_outcome(objs, base, k as int, s.section, s.offset)->Ok_0;
        assert(!prev.contains_key(s.name));
        assert(m == prev.insert(s.name, a));
        assert forall|kk: int, jj: int| is_symbol(objs, kk, jj) && before(kk, jj, k as int, j as int) implies {
            let t = #[trigger] objs[kk].symbols[jj];
            &&& symbol_outcome(objs, base, kk, t.section, t.offset) is Ok
            &&& m.contains_key(t.name)
            &&& m[t.name] == symbol_outcome(objs, base, kk, t.section, t.offset)->Ok_0
        } by {
            if before(kk, jj, k as int, pj as int) {
                let t = objs[kk].symbols[jj];
                assert(prev.contains_key(t.name));
                assert(t.name != s.name);
            }
        }
        assert forall|n: Seq<char>| #[trigger] m.contains_key(n) implies exists|kk: int, jj: int|
            is_symbol(objs, kk, jj) && before(kk, jj, k as int, j as int) && #[trigger] objs[kk].symbols[jj].name == n by {
            if n == s.name {
                assert(objs[k as int].symbols[pj as int].name == n);
            } else {
                assert(prev.contains_key(n));
                let (kk, jj) = choose|kk: int, jj: int| is_symbol(objs, kk, jj) && before(kk, jj, k as int, pj as int) && #[trigger] objs[kk].symbols[jj].name == n;
                assert(objs[kk].symbols[jj].name == n);
            }
        }
        assert forall|k1: int, j1: int, k2: int, j2: int|
            is_symbol(objs, k1, j1) && before(k1, j1, k as int, j as int) && is_symbol(objs, k2, j2)
                && before(k2, j2, k as int, j as int) && (k1 != k2 || j1 != j2)
                implies #[trigger] objs[k1].symbols[j1].name != #[trigger] objs[k2].symbols[j2].name by {
            if k1 == k && j1 == pj {
                assert(prev.contains_key(objs[k2].symbols[j2].name));
            } else if k2 == k && j2 == pj {
                assert(prev.contains_key(objs[k1].symbols[j1].name));
            }
        }
    }
}

/// The address of output section `i` in a link from `base` that fits the address space.
proof fn lemma_laid_out_address(objs: Seq<ObjectView>, base: u64, datas: Seq<Seq<u8>>, i: int)
    requires
        layout_fits(objs, base),
        0 <= i < output_names(objs).len(),
    ensures
        laid_out(objs, base, datas)[i].address == start_of(merged_sections(objs), base as int, i),
{
    assert(merged_sections(objs).len() == output_names(objs).len());
    lemma_start_of_monotone(merged_sections(objs), base as int, i, merged_sections(objs).len() as int);
    lemma_start_of_monotone(merged_sections(objs), base as int, 0, i);
    let a = start_of(merged_sections(objs), base as int, i);
    assert(0 <= a <= u64::MAX);
    assert(a as u64 == a);
}

/// **Layout.** A successful link has one output section per section name, in the order
/// each name first occurs across the objects, with no name twice; each holds as many bytes
/// as the objects contributed under that name; the first starts at the base address and
/// each next one where the previous one ends, all within the 64-bit address space.
pub proof fn law_layout(objs: Seq<ObjectView>, base: u64, entry: Option<Seq<char>>)
    requires
        link_result(objs, base, entry) is Ok,
    ensures
        ({
            let img = link_result(objs, base, entry)->Ok_0;
            let n = img.sections.len();
            &&& n == output_names(objs).len()
            &&& forall|i: int| 0 <= i < n ==> (#[trigger] img.sections[i]).name == output_names(objs)[i]
            &&& forall|i: int| 0 <= i < n ==> any_has_section(objs, #[trigger] img.sections[i].name)
            &&& forall|i: int, j: int| 0 <= i < n && 0 <= j < n && i != j ==> #[trigger] img.sections[i].name != #[trigger] img.sections[j].name
            &&& forall|i: int| 0 <= i < n ==> (#[trigger] img.sections[i]).data.len() == merged_data(objs, img.sections[i].name).len()
            &&& n > 0 ==> img.sections[0].address == base
            &&& forall|i: int| 0 <= i < n - 1 ==> #[trigger] img.sections[i + 1].address == img.sections[i].address + img.sections[i].data.len()
            &&& n > 0 ==> img.sections[n - 1].address + img.sections[n - 1].data.len() <= u64::MAX
        }),
{
    let img = link_result(objs, base, entry)->Ok_0;
    let table = resolve_all(objs, base)->Ok_0;
    let datas = patch_all(objs, table)->Ok_0;
    let n = img.sections.len();
    let merged = merged_sections(objs);
    lemma_output_names(objs);
    lemma_patch_lengths(objs, table, objs.len(), 0);
    assert forall|i: int| 0 <= i < n implies any_has_section(objs, #[trigger] img.sections[i].name) by {
        assert(output_names(objs).contains(output_names(objs)[i]));
    }
    if n > 0 {
        lemma_laid_out_address(objs, base, datas, 0);
        lemma_laid_out_address(objs, base, datas, n - 1);
        assert(start_of(merged, base as int, n as int) == start_of(merged, base as int, n - 1) + merged[n - 1].len());
    }
    assert forall|i: int| 0 <= i < n - 1 implies #[trigger] img.sections[i + 1].address == img.sections[i].address + img.sections[i].data.len() by {
        lemma_laid_out_address(objs, base, datas, i);
        lemma_laid_out_address(objs, base, datas, i + 1);
    }
}

/// **Merging.** Object `k`'s section named `n` lands in the merged section of that name at
/// the object's contribution offset: after the bytes of every earlier object's section of
/// that name.
pub proof fn law_contribution(objs: Seq<ObjectView>, k: int, n: Seq<char>)
    requires
        0 <= k < objs.len(),
    ensures
        contribution(objs, k, n) + objs[k].section_bytes(n).len() <= merged_data(objs, n).len(),
        merged_data(objs, n).subrange(
            contribution(objs, k, n) as int,
            (contribution(objs, k, n) + objs[k].section_bytes(n).len()) as int,
        ) == objs[k].section_bytes(n),
{
    lemma_merged_prefix(objs, k + 1, n);
    lemma_merged_take(objs, k, n);
    let whole = merged_data(objs, n);
    let upto = merged_data(objs.take(k + 1), n);
    let c = contribution(objs, k, n) as int;
    let len = objs[k].section_bytes(n).len() as int;
    assert(whole.subrange(c, c + len) =~= upto.subrange(c, c + len));
    assert(upto.subrange(c, c + len) =~= objs[k].section_bytes(n));
}

/// The objects before `a` contribute a prefix of each merged section.
proof fn lemma_merged_prefix(objs: Seq<ObjectView>, a: int, n: Seq<char>)
    requires
        0 <= a <= objs.len(),
    ensures
        merged_data(objs.take(a), n).len() <= merged_data(objs, n).len(),
        merged_data(objs, n).take(merged_data(objs.take(a), n).len() as int) == merged_data(objs.take(a), n),
    decreases objs.len(),
{
    if a < objs.len() {
        let pre = objs.drop_last();
        assert(pre.take(a) =~= objs.take(a));
        lemma_merged_prefix(pre, a, n);
        let p = merged_data(objs.take(a), n);
        assert(merged_data(objs, n).take(p.len() as int) =~= merged_data(pre, n).take(p.len() as int));
    } else {
        assert(objs.take(a) =~= objs);
        assert(merged_data(objs, n).take(merged_data(objs, n).len() as int) =~= merged_data(objs, n));
    }
}

/// **Bytes no relocation touches.** In a successful link, each byte of an output section
/// that no relocation writes is the byte the objects contributed there.
pub proof fn law_unpatched_bytes(objs: Seq<ObjectView>, base: u64, entry: Option<Seq<char>>, i: int, p: int)
    requires
        link_result(objs, base, entry) is Ok,
        0 <= i < output_names(objs).len(),
        0 <= p < merged_data(objs, output_names(objs)[i]).len(),
        forall|k: int, j: int| is_relocation(objs, k, j) ==> !#[trigger] writes_at(objs, k, j, i, p),
    ensures
        link_result(objs, base, entry)->Ok_0.sections[i].data[p] == merged_data(objs, output_names(objs)[i])[p],
{
    let table = resolve_all(objs, base)->Ok_0;
    lemma_patch_frame(objs, table, 0, 0, objs.len(), 0);
}

/// **Relocations.** In a successful link every relocation was applicable: its section
/// exists in its object, its slot fits that section, its target is in the symbol table,
/// and the target's address plus the addend fits the slot's width.
pub proof fn law_relocations_applicable(objs: Seq<ObjectView>, base: u64, entry: Option<Seq<char>>, k: int, j: int)
    requires
        link_result(objs, base, entry) is Ok,
        is_relocation(objs, k, j),
    ensures
        relocation_ok(objs, link_result(objs, base, entry)->Ok_0.symbols, k, objs[k].relocations[j]),
{
    let table = resolve_all(objs, base)->Ok_0;
    lemma_patch_frame(objs, table, 0, 0, objs.len(), 0);
    assert(before(k, j, objs.len() as int, 0));
}

/// **Patched slots.** In a successful link, a relocation whose slot no later relocation
/// writes into holds, at its place in the merged section, its target's address plus its
/// addend as little-endian bytes of its width.
pub proof fn law_relocation_patched(objs: Seq<ObjectView>, base: u64, entry: Option<Seq<char>>, k: int, j: int)
    requires
        link_result(objs, base, entry) is Ok,
        is_relocation(objs, k, j),
        forall|k2: int, j2: int, p: int|
            is_relocation(objs, k2, j2) && before(k, j, k2, j2) && #[trigger] writes_at(objs, k2, j2, slot_of(output_names(objs), objs[k].relocations[j].section), p)
                ==> !writes_at(objs, k, j, slot_of(output_names(objs), objs[k].relocations[j].section), p),
    ensures
        ({
            let img = link_result(objs, base, entry)->Ok_0;
            let r = objs[k].relocations[j];
            let i = slot_of(output_names(objs), r.section);
            let start = relocation_start(objs, k, r);
            &&& 0 <= i < img.sections.len()
            &&& img.sections[i].name == r.section
            &&& img.symbols.contains_key(r.target)
            &&& 0 <= img.symbols[r.target] + r.addend <= r.width.max()
            &&& 0 <= start
            &&& start + r.width.size() <= img.sections[i].data.len()
            &&& img.sections[i].data.subrange(start, start + r.width.size())
                == le_bytes((img.symbols[r.target] + r.addend) as nat, r.width.size())
        }),
{
    let img = link_result(objs, base, entry)->Ok_0;
    let table = resolve_all(objs, base)->Ok_0;
    let r = objs[k].relocations[j];
    let i = slot_of(output_names(objs), r.section);
    let start = relocation_start(objs, k, r);
    let size = r.width.size();
    let bytes = le_bytes(relocation_value(table, r) as nat, size);
    lemma_patch_frame(objs, table, k as nat, (j + 1) as nat, objs.len(), 0);
    lemma_patch_frame(objs, table, k as nat, j as nat, k as nat, (j + 1) as nat);
    assert(before(k, j, k, j + 1));
    assert(relocation_ok(objs, table, k, r));
    lemma_output_names(objs);
    assert(objs[k].has_section(r.section));
    assert(any_has_section(objs, r.section));
    assert(output_names(objs).contains(r.section));
    lemma_patch_lengths(objs, table, k as nat, j as nat);
    lemma_patch_lengths(objs, table, objs.len(), 0);
    lemma_le_bytes_len(relocation_value(table, r) as nat, size);
    law_contribution(objs, k, r.section);
    let d_before = patch_upto(objs, table, k as nat, j as nat)->Ok_0;
    let d_after = patch_upto(objs, table, k as nat, (j + 1) as nat)->Ok_0;
    let d_end = patch_all(objs, table)->Ok_0;
    assert(d_after == d_before.update(i, splice(d_before[i], start, bytes)));
    assert forall|q: int| 0 <= q < size implies #[trigger] d_end[i][start + q] == bytes[q] by {
        assert forall|k2: int, j2: int|
            is_relocation(objs, k2, j2) && !before(k2, j2, k, j + 1) && before(k2, j2, objs.len() as int, 0)
                implies !#[trigger] writes_at(objs, k2, j2, i, start + q) by {
            assert(before(k, j, k2, j2));
            assert(writes_at(objs, k, j, i, start + q));
        }
    }
    assert(d_end[i].subrange(start, start + size) =~= bytes);
}

/// **Symbols.** In a successful link the symbol table holds exactly the defined names, no
/// name is defined twice, and each symbol's address is its section's address, plus where
/// its object's contribution landed in that section, plus its offset.
pub proof fn law_symbols(objs: Seq<ObjectView>, base: u64, entry: Option<Seq<char>>)
    requires
        link_result(objs, base, entry) is Ok,
    ensures
        ({
            let img = link_result(objs, base, entry)->Ok_0;
            &&& forall|n: Seq<char>| #[trigger] img.symbols.contains_key(n) <==> exists|k: int, j: int|
                is_symbol(objs, k, j) && #[trigger] objs[k].symbols[j].name == n
            &&& forall|k1: int, j1: int, k2: int, j2: int|
                is_symbol(objs, k1, j1) && is_symbol(objs, k2, j2) && (k1 != k2 || j1 != j2)
                    ==> #[trigger] objs[k1].symbols[j1].name != #[trigger] objs[k2].symbols[j2].name
            &&& forall|k: int, j: int| is_symbol(objs, k, j) ==> {
                let s = #[trigger] objs[k].symbols[j];
                let i = slot_of(output_names(objs), s.section);
                &&& objs[k].has_section(s.section)
                &&& 0 <= i < img.sections.len()
                &&& img.sections[i].name == s.section
                &&& img.symbols[s.name] == img.sections[i].address + contribution(objs, k, s.section) + s.offset
            }
        }),
{
    let img = link_result(objs, base, entry)->Ok_0;
    let table = resolve_all(objs, base)->Ok_0;
    let datas = patch_all(objs, table)->Ok_0;
    lemma_resolve_facts(objs, base, objs.len(), 0);
    lemma_output_names(objs);
    assert forall|n: Seq<char>| #[trigger] img.symbols.contains_key(n) <==> exists|k: int, j: int|
        is_symbol(objs, k, j) && #[trigger] objs[k].symbols[j].name == n by {
        if exists|k: int, j: int| is_symbol(objs, k, j) && #[trigger] objs[k].symbols[j].name == n {
            let (k, j) = choose|k: int, j: int| is_symbol(objs, k, j) && #[trigger] objs[k].symbols[j].name == n;
            assert(before(k, j, objs.len() as int, 0));
        }
    }
    assert forall|k: int, j: int| is_symbol(objs, k, j) implies {
        let s = #[trigger] objs[k].symbols[j];
        let i = slot_of(output_names(objs), s.section);
        &&& objs[k].has_section(s.section)
        &&& 0 <= i < img.sections.len()
        &&& img.sections[i].name == s.section
        &&& img.symbols[s.name] == img.sections[i].address + contribution(objs, k, s.section) + s.offset
    } by {
        let s = objs[k].symbols[j];
        assert(before(k, j, objs.len() as int, 0));
        assert(any_has_section(objs, s.section));
        assert(output_names(objs).contains(s.section));
        let i = slot_of(output_names(objs), s.section);
        lemma_laid_out_address(objs, base, datas, i);
    }
}

/// **Entry point.** A successful link configured with an entry point has it in its symbol
/// table, and the image's entry is its address; without one, the image has no entry.
pub proof fn law_entry(objs: Seq<ObjectView>, base: u64, entry: Option<Seq<char>>)
    requires
        link_result(objs, base, entry) is Ok,
    ensures
        ({
            let img = link_result(objs, base, entry)->Ok_0;
            match entry {
                Some(n) => img.symbols.contains_key(n) && img.entry == Some(img.symbols[n]),
                None => img.entry is None,
            }
        }),
{
}

/// **Determinism.** Linking the same objects with the same configuration gives the same
/// outcome.
pub proof fn law_deterministic(a: Seq<ObjectView>, b: Seq<ObjectView>, base: u64, entry: Option<Seq<char>>)
    requires
        a == b,
    ensures
        link_result(a, base, entry) == link_result(b, base, entry),
{
}

/// The number little-endian bytes `s` encode.
pub open spec fn le_value(s: Seq<u8>) -> nat
    decreases s.len(),
{
    if s.len() == 0 {
        0
    } else {
        s[0] as nat + 256 * le_value(s.drop_first())
    }
}

/// `256` to the power `n`: one more than the largest value `n` bytes hold.
pub open spec fn byte_power(n: nat) -> nat
    decreases n,
{
    if n == 0 {
        1
    } else {
        256 * byte_power((n - 1) as nat)
    }
}

/// **Little-endian round trip.** Reading back the `n` little-endian bytes written for a
/// value that fits in `n` bytes gives the value.
pub proof fn law_le_round_trip(v: nat, n: nat)
    requires
        v < byte_power(n),
    ensures
        le_value(le_bytes(v, n)) == v,
    decreases n,
{
    if n > 0 {
        let p = byte_power((n - 1) as nat);
        assert(v / 256 < p) by (nonlinear_arith)
            requires
                v < 256 * p,
        ;
        law_le_round_trip(v / 256, (n - 1) as nat);
        let bytes = le_bytes(v, n);
        assert(bytes.drop_first() =~= le_bytes(v / 256, (n - 1) as nat));
        assert(v == 256 * (v / 256) + v % 256) by (nonlinear_arith);
        assert(((v % 256) as u8) as nat == v % 256);
    } else {
        assert(v == 0);
    }
}

/// A width's largest value is one less than the power of 256 of its size.
pub proof fn lemma_width_max(w: crate::object::Width)
    ensures
        w.max() + 1 == byte_power(w.size()),
{
    reveal_with_fuel(byte_power, 9);
}

/// **Patched slots read back.** In a successful link, reading the slot of a relocation
/// that no later relocation writes into, as a little-endian integer of its width, gives
/// its target's address plus its addend.
pub proof fn law_relocation_reads_back(objs: Seq<ObjectView>, base: u64, entry: Option<Seq<char>>, k: int, j: int)
    requires
        link_result(objs, base, entry) is Ok,
        is_relocation(objs, k, j),
        forall|k2: int, j2: int, p: int|
            is_relocation(objs, k2, j2) && before(k, j, k2, j2) && #[trigger] writes_at(objs, k2, j2, slot_of(output_names(objs), objs[k].relocations[j].section), p)
                ==> !writes_at(objs, k, j, slot_of(output_names(objs), objs[k].relocations[j].section), p),
    ensures
        ({
            let img = link_result(objs, base, entry)->Ok_0;
            let r = objs[k].relocations[j];
            let i = slot_of(output_names(objs), r.section);
            let start = relocation_start(objs, k, r);
            le_value(img.sections[i].data.subrange(start, start + r.width.size()))
                == img.symbols[r.target] + r.addend
        }),
{
    let img = link_result(objs, base, entry)->Ok_0;
    let r = objs[k].relocations[j];
    law_relocation_patched(objs, base, entry, k, j);
    lemma_width_max(r.width);
    law_le_round_trip((img.symbols[r.target] + r.addend) as nat, r.width.size());
}

/// The value of a lowercase hexadecimal or decimal digit: `0`-`9` are 0 to 9, `a`-`f`
/// are 10 to 15.
pub open spec fn digit_value(c: char) -> int {
    if '0' <= c <= '9' {
        (c as int) - ('0' as int)
    } else {
        (c as int) - ('a' as int) + 10
    }
}

/// `c` is a digit below `radix` as numerals are written here: `0`-`9`, then `a`-`f`.
pub open spec fn is_digit(c: char, radix: int) -> bool {
    ||| '0' <= c <= '9' && (c as int) - ('0' as int) < radix
    ||| 'a' <= c <= 'f' && (c as int) - ('a' as int) + 10 < radix
}

/// The number the digits `s` write in base `radix`, most significant first.
pub open spec fn numeral_value(s: Seq<char>, radix: int) -> int
    decreases s.len(),
{
    if s.len() == 0 {
        0
    } else {
        numeral_value(s.drop_last(), radix) * radix + digit_value(s.last())
    }
}

/// `16` to the power `k`.
pub open spec fn hex_power(k: nat) -> nat
    decreases k,
{
    if k == 0 {
        1
    } else {
        16 * hex_power((k - 1) as nat)
    }
}

proof fn lemma_digit_round_trip(d: nat)
    requires
        d < 16,
    ensures
        is_digit(digit_char(d), 16),
        digit_value(digit_char(d)) == d,
        d < 10 ==> is_digit(digit_char(d), 10),
{
    if d < 10 {
        assert((('0' as u32) + d) as char as int == 48 + d);
    } else {
        assert((('a' as u32) + (d - 10)) as char as int == 97 + d - 10);
    }
}

proof fn lemma_hex_digits_value(n: nat, k: nat)
    requires
        n < hex_power(k),
    ensures
        numeral_value(crate::text::digit_chars(n, k), 16) == n,
        crate::text::digit_chars(n, k).len() == k,
        forall|i: int| 0 <= i < k ==> is_digit(#[trigger] crate::text::digit_chars(n, k)[i], 16),
    decreases k,
{
    if k > 0 {
        let p = hex_power((k - 1) as nat);
        assert(n / 16 < p) by (nonlinear_arith)
            requires
                n < 16 * p,
        ;
        lemma_hex_digits_value(n / 16, (k - 1) as nat);
        lemma_digit_round_trip(n % 16);
        let s = crate::text::digit_chars(n, k);
        assert(s.drop_last() =~= crate::text::digit_chars(n / 16, (k - 1) as nat));
        assert(n == 16 * (n / 16) + n % 16) by (nonlinear_arith);
        assert forall|i: int| 0 <= i < k implies is_digit(#[trigger] s[i], 16) by {
            if i < k - 1 {
                assert(s[i] == s.drop_last()[i]);
            }
        }
    }
}

/// **Addresses in the link map.** An address is written as `0x` and sixteen lowercase
/// hexadecimal digits whose value is the whole 64-bit address.
pub proof fn law_address_text(n: u64)
    ensures
        crate::text::address_text(n).len() == 18,
        crate::text::address_text(n)[0] == '0',
        crate::text::address_text(n)[1] == 'x',
        forall|i: int| 2 <= i < 18 ==> is_digit(#[trigger] crate::text::address_text(n)[i], 16),
        numeral_value(crate::text::address_text(n).subrange(2, 18), 16) == n,
{
    reveal_with_fuel(hex_power, 17);
    assert(hex_power(16) == 0x1_0000_0000_0000_0000);
    lemma_hex_digits_value(n as nat, 16);
    let t = crate::text::address_text(n);
    assert(t.subrange(2, 18) =~= crate::text::digit_chars(n as nat, 16));
    assert forall|i: int| 2 <= i < 18 implies is_digit(#[trigger] t[i], 16) by {
        assert(t[i] == crate::text::digit_chars(n as nat, 16)[i - 2]);
    }
}

proof fn lemma_decimal_len(m: nat)
    ensures
        crate::text::decimal(m).len() >= 1,
        m >= 10 ==> crate::text::decimal(m).len() >= 2,
    decreases m,
{
    if m >= 10 {
        lemma_decimal_len(m / 10);
    }
}

/// **Numbers in messages.** A number is written in decimal with digits whose value is the
/// number, and without leading zeros.
pub proof fn law_decimal(n: nat)
    ensures
        crate::text::decimal(n).len() >= 1,
        forall|i: int| 0 <= i < crate::text::decimal(n).len() ==> is_digit(#[trigger] crate::text::decimal(n)[i], 10),
        numeral_value(crate::text::decimal(n), 10) == n,
        crate::text::decimal(n).len() > 1 ==> crate::text::decimal(n)[0] != '0',
    decreases n,
{
    let s = crate::text::decimal(n);
    if n < 10 {
        lemma_digit_round_trip(n);
        assert(s.drop_last() =~= Seq::<char>::empty());
        assert(s.last() == digit_char(n));
        assert(numeral_value(s, 10) == numeral_value(s.drop_last(), 10) * 10 + digit_value(s.last()));
        assert(numeral_value(s.drop_last(), 10) == 0);
    } else {
        law_decimal(n / 10);
        lemma_decimal_len(n / 10);
        assert(s.last() == digit_char(n % 10));
        lemma_digit_round_trip(n % 10);
        assert(s.drop_last() =~= crate::text::decimal(n / 10));
        assert(n == (n / 10) * 10 + n % 10) by (nonlinear_arith);
        assert(numeral_value(s, 10) == numeral_value(s.drop_last(), 10) * 10 + digit_value(s.last()));
        assert forall|i: int| 0 <= i < s.len() implies is_digit(#[trigger] s[i], 10) by {
            if i < s.len() - 1 {
                assert(s[i] == s.drop_last()[i]);
            }
        }
        assert(s[0] == crate::text::decimal(n / 10)[0]);
        if crate::text::decimal(n / 10).len() == 1 {
            assert(n / 10 >= 1);
            assert(crate::text::decimal(n / 10)[0] == digit_char(n / 10));
            assert(digit_value(digit_char(n / 10)) == n / 10);
        }
    }
}

/// The bytes the objects before `k` contribute to sections named `n`.
pub open spec fn bytes_before(objs: Seq<ObjectView>, k: int, n: Seq<char>) -> nat
    decreases k,
{
    if k <= 0 {
        0
    } else {
        bytes_before(objs, k - 1, n) + objs[k - 1].section_bytes(n).len()
    }
}

/// Where a relocation of object `k` at `offset` in `section` writes in the merged section:
/// past every earlier object's bytes of that section, then `offset` into the object's own.
pub open spec fn slot_begin(objs: Seq<ObjectView>, k: int, section: Seq<char>, offset: u64) -> int {
    bytes_before(objs, k, section) + offset
}

proof fn lemma_bytes_before(objs: Seq<ObjectView>, k: int, n: Seq<char>)
    requires
        0 <= k <= objs.len(),
    ensures
        contribution(objs, k, n) == bytes_before(objs, k, n),
    decreases k,
{
    if k > 0 {
        lemma_bytes_before(objs, k - 1, n);
        let t = objs.take(k);
        assert(t.drop_last() =~= objs.take(k - 1));
        assert(t.last() == objs[k - 1]);
    } else {
        assert(objs.take(k) =~= Seq::<ObjectView>::empty());
    }
}

/// **Where a relocation writes.** In a successful link, a relocation that no later
/// relocation of the same section overlaps holds, in the output section of its name,
/// starting past every earlier object's bytes of that section and then its offset into its
/// own object's bytes, its target's address plus its addend, read as a little-endian
/// integer of its width.
pub proof fn law_relocation_lands_in_its_contribution(objs: Seq<ObjectView>, base: u64, entry: Option<Seq<char>>, k: int, j: int)
    requires
        link_result(objs, base, entry) is Ok,
        is_relocation(objs, k, j),
        forall|k2: int, j2: int| #![trigger objs[k2].relocations[j2]]
            is_relocation(objs, k2, j2) && before(k, j, k2, j2)
                && objs[k2].relocations[j2].section == objs[k].relocations[j].section ==> {
                let r = objs[k].relocations[j];
                let r2 = objs[k2].relocations[j2];
                slot_begin(objs, k2, r2.section, r2.offset) + r2.width.size() <= slot_begin(objs, k, r.section, r.offset)
                    || slot_begin(objs, k, r.section, r.offset) + r.width.size() <= slot_begin(objs, k2, r2.section, r2.offset)
            },
    ensures
        ({
            let img = link_result(objs, base, entry)->Ok_0;
            let r = objs[k].relocations[j];
            let begin = slot_begin(objs, k, r.section, r.offset);
            &&& img.symbols.contains_key(r.target)
            &&& exists|i: int| 0 <= i < img.sections.len() && img.sections[i].name == r.section
            &&& forall|i: int| 0 <= i < img.sections.len() && #[trigger] img.sections[i].name == r.section ==> {
                &&& begin + r.width.size() <= img.sections[i].data.len()
                &&& le_value(img.sections[i].data.subrange(begin, begin + r.width.size()))
                    == img.symbols[r.target] + r.addend
            }
        }),
{
    let img = link_result(objs, base, entry)->Ok_0;
    let r = objs[k].relocations[j];
    let names = output_names(objs);
    let slot = slot_of(names, r.section);
    lemma_output_names(objs);
    assert forall|k2: int, j2: int, p: int|
        is_relocation(objs, k2, j2) && before(k, j, k2, j2) && #[trigger] writes_at(objs, k2, j2, slot, p)
            implies !writes_at(objs, k, j, slot, p) by {
        let r2 = objs[k2].relocations[j2];
        assert(objs[k2].has_section(r2.section));
        assert(any_has_section(objs, r2.section));
        assert(names.contains(r2.section));
        assert(names[slot_of(names, r2.section)] == r2.section);
        if writes_at(objs, k, j, slot, p) {
            assert(objs[k].has_section(r.section));
            assert(any_has_section(objs, r.section));
            assert(names.contains(r.section));
            assert(names[slot] == r.section);
            assert(r2.section == r.section);
            lemma_bytes_before(objs, k, r.section);
            lemma_bytes_before(objs, k2, r.section);
            assert(objs[k2].relocations[j2] == r2);
        }
    }
    law_relocation_reads_back(objs, base, entry, k, j);
    law_relocation_patched(objs, base, entry, k, j);
    law_layout(objs, base, entry);
    lemma_bytes_before(objs, k, r.section);
    assert(relocation_start(objs, k, r) == slot_begin(objs, k, r.section, r.offset));
    assert forall|i: int| 0 <= i < img.sections.len() && #[trigger] img.sections[i].name == r.section implies {
        let begin = slot_begin(objs, k, r.section, r.offset);
        &&& begin + r.width.size() <= img.sections[i].data.len()
        &&& le_value(img.sections[i].data.subrange(begin, begin + r.width.size()))
            == img.symbols[r.target] + r.addend
    } by {
        if i != slot {
            assert(img.sections[i].name != img.sections[slot].name);
        }
    }
}

/// Why resolution up to a point failed: a duplicate name is defined twice before that
/// point.
proof fn lemma_resolve_duplicate(objs: Seq<ObjectView>, base: u64, k: nat, j: nat, n: Seq<char>)
    requires
        symbol_point(objs, k, j),
        resolve_upto(objs, base, k, j) == Err::<Map<Seq<char>, u64>, LinkErrorView>(LinkErrorView::DuplicateSymbol { name: n }),
    ensures
        exists|k1: int, j1: int, k2: int, j2: int|
            is_symbol(objs, k1, j1) && is_symbol(objs, k2, j2) && (k1 != k2 || j1 != j2)
                && #[trigger] objs[k1].symbols[j1].name == n && #[trigger] objs[k2].symbols[j2].name == n,
    decreases k, j,
{
    if j == 0 {
        lemma_resolve_duplicate(objs, base, (k - 1) as nat, objs[k - 1].symbols.len(), n);
    } else {
        let pj = (j - 1) as nat;
        if resolve_upto(objs, base, k, pj) is Err {
            lemma_resolve_duplicate(objs, base, k, pj, n);
        } else {
            lemma_resolve_facts(objs, base, k, pj);
            let prev = resolve_upto(objs, base, k, pj)->Ok_0;
            let sym = objs[k as int].symbols[pj as int];
            assert(sym.name == n);
            assert(prev.contains_key(n));
            let (k1, j1) = choose|k1: int, j1: int| is_symbol(objs, k1, j1) && before(k1, j1, k as int, pj as int) && #[trigger] objs[k1].symbols[j1].name == n;
            assert(objs[k1].symbols[j1].name == n);
            assert(objs[k as int].symbols[pj as int].name == n);
            assert(is_symbol(objs, k as int, pj as int));
        }
    }
}

/// Patching only fails for a relocation's own reasons.
proof fn lemma_patch_error_kinds(objs: Seq<ObjectView>, table: Map<Seq<char>, u64>, k: nat, j: nat)
    requires
        patch_upto(objs, table, k, j) is Err,
    ensures
        ({
            let e = patch_upto(objs, table, k, j)->Err_0;
            e is InvalidSection || e is RelocationOutOfRange || e is UndefinedSymbol || e is RelocationOverflow
        }),
    decreases k, j,
{
    if j == 0 {
        if k > 0 {
            lemma_patch_error_kinds(objs, table, (k - 1) as nat, objs[k - 1].relocations.len());
        }
    } else if patch_upto(objs, table, k, (j - 1) as nat) is Err {
        lemma_patch_error_kinds(objs, table, k, (j - 1) as nat);
    }
}

/// Resolving symbols only fails for a symbol's own reasons.
proof fn lemma_resolve_error_kinds(objs: Seq<ObjectView>, base: u64, k: nat, j: nat)
    requires
        resolve_upto(objs, base, k, j) is Err,
    ensures
        ({
            let e = resolve_upto(objs, base, k, j)->Err_0;
            e is InvalidSection || e is LayoutOverflow || e is DuplicateSymbol
        }),
    decreases k, j,
{
    if j == 0 {
        if k > 0 {
            lemma_resolve_error_kinds(objs, base, (k - 1) as nat, objs[k - 1].symbols.len());
        }
    } else if resolve_upto(objs, base, k, (j - 1) as nat) is Err {
        lemma_resolve_error_kinds(objs, base, k, (j - 1) as nat);
    }
}

/// **A duplicate is a name defined twice.** A link fails with `DuplicateSymbol { name }`
/// only if two symbol definitions carry that very name.
pub proof fn law_duplicate_is_named_twice(objs: Seq<ObjectView>, base: u64, entry: Option<Seq<char>>, n: Seq<char>)
    requires
        link_result(objs, base, entry) == Err::<ImageView, LinkErrorView>(LinkErrorView::DuplicateSymbol { name: n }),
    ensures
        exists|k1: int, j1: int, k2: int, j2: int|
            is_symbol(objs, k1, j1) && is_symbol(objs, k2, j2) && (k1 != k2 || j1 != j2)
                && #[trigger] objs[k1].symbols[j1].name == n && #[trigger] objs[k2].symbols[j2].name == n,
{
    if resolve_all(objs, base) is Ok {
        let table = resolve_all(objs, base)->Ok_0;
        if patch_all(objs, table) is Err {
            lemma_patch_error_kinds(objs, table, objs.len(), 0);
        }
    }
    lemma_resolve_duplicate(objs, base, objs.len(), 0, n);
}

/// A name is in the table of a successful resolution exactly when some object defines it.
proof fn lemma_table_names(objs: Seq<ObjectView>, base: u64)
    requires
        resolve_all(objs, base) is Ok,
    ensures
        forall|n: Seq<char>| #[trigger] resolve_all(objs, base)->Ok_0.contains_key(n) <==> exists|k: int, j: int|
            is_symbol(objs, k, j) && #[trigger] objs[k].symbols[j].name == n,
{
    lemma_resolve_facts(objs, base, objs.len(), 0);
    let m = resolve_all(objs, base)->Ok_0;
    assert forall|n: Seq<char>| #[trigger] m.contains_key(n) <==> exists|k: int, j: int|
        is_symbol(objs, k, j) && #[trigger] objs[k].symbols[j].name == n by {
        if exists|k: int, j: int| is_symbol(objs, k, j) && #[trigger] objs[k].symbols[j].name == n {
            let (k, j) = choose|k: int, j: int| is_symbol(objs, k, j) && #[trigger] objs[k].symbols[j].name == n;
            assert(before(k, j, objs.len() as int, 0));
        }
    }
}

/// Why patching up to a point failed with `UndefinedSymbol`: a relocation before that
/// point, in an object of that name, targets a name the table lacks.
proof fn lemma_patch_undefined(objs: Seq<ObjectView>, table: Map<Seq<char>, u64>, k: nat, j: nat, n: Seq<char>, o: Seq<char>)
    requires
        relocation_point(objs, k, j),
        patch_upto(objs, table, k, j) == Err::<Seq<Seq<u8>>, LinkErrorView>(LinkErrorView::UndefinedSymbol { name: n, object: o }),
    ensures
        !table.contains_key(n),
        exists|kk: int, jj: int| is_relocation(objs, kk, jj) && #[trigger] objs[kk].relocations[jj].target == n && objs[kk].name == o,
    decreases k, j,
{
    if j == 0 {
        lemma_patch_undefined(objs, table, (k - 1) as nat, objs[k - 1].relocations.len(), n, o);
    } else {
        let pj = (j - 1) as nat;
        if patch_upto(objs, table, k, pj) is Err {
            lemma_patch_undefined(objs, table, k, pj, n, o);
        } else {
            assert(objs[k as int].relocations[pj as int].target == n);
            assert(is_relocation(objs, k as int, pj as int));
        }
    }
}

/// **An undefined symbol is one nobody defines.** A link fails with
/// `UndefinedSymbol { name, object }` only if no object defines `name`, and a relocation
/// of an object named `object` targets it.
pub proof fn law_undefined_symbol_is_undefined(objs: Seq<ObjectView>, base: u64, entry: Option<Seq<char>>, n: Seq<char>, o: Seq<char>)
    requires
        link_result(objs, base, entry) == Err::<ImageView, LinkErrorView>(LinkErrorView::UndefinedSymbol { name: n, object: o }),
    ensures
        forall|k: int, j: int| is_symbol(objs, k, j) ==> #[trigger] objs[k].symbols[j].name != n,
        exists|k: int, j: int| is_relocation(objs, k, j) && #[trigger] objs[k].relocations[j].target == n && objs[k].name == o,
{
    if resolve_all(objs, base) is Err {
        lemma_resolve_error_kinds(objs, base, objs.len(), 0);
    }
    let table = resolve_all(objs, base)->Ok_0;
    lemma_patch_undefined(objs, table, objs.len(), 0, n, o);
    lemma_table_names(objs, base);
    assert forall|k: int, j: int| is_symbol(objs, k, j) implies #[trigger] objs[k].symbols[j].name != n by {
        if objs[k].symbols[j].name == n {
            assert(table.contains_key(n));
        }
    }
}

/// **An undefined entry is one nobody defines.** A link fails with
/// `UndefinedEntry { name }` only if `name` is the configured entry and no object defines
/// it.
pub proof fn law_undefined_entry_is_undefined(objs: Seq<ObjectView>, base: u64, entry: Option<Seq<char>>, n: Seq<char>)
    requires
        link_result(objs, base, entry) == Err::<ImageView, LinkErrorView>(LinkErrorView::UndefinedEntry { name: n }),
    ensures
        entry == Some(n),
        forall|k: int, j: int| is_symbol(objs, k, j) ==> #[trigger] objs[k].symbols[j].name != n,
{
    if resolve_all(objs, base) is Err {
        lemma_resolve_error_kinds(objs, base, objs.len(), 0);
    }
    let table = resolve_all(objs, base)->Ok_0;
    if patch_all(objs, table) is Err {
        lemma_patch_error_kinds(objs, table, objs.len(), 0);
    }
    lemma_table_names(objs, base);
    assert forall|k: int, j: int| is_symbol(objs, k, j) implies #[trigger] objs[k].symbols[j].name != n by {
        if objs[k].symbols[j].name == n {
            assert(table.contains_key(n));
        }
    }
}

/// **Choosing an entry point.** Naming a defined symbol as the entry changes nothing else:
/// where the link without an entry succeeds, the link with entry `n`, for a name some
/// object defines, succeeds with the same sections and symbols and with `n`'s address as
/// its entry.
pub proof fn law_entry_of_a_defined_symbol(objs: Seq<ObjectView>, base: u64, n: Seq<char>, k: int, j: int)
    requires
        link_result(objs, base, None) is Ok,
        is_symbol(objs, k, j),
        objs[k].symbols[j].name == n,
    ensures
        link_result(objs, base, Some(n)) is Ok,
        link_result(objs, base, Some(n))->Ok_0.sections == link_result(objs, base, None)->Ok_0.sections,
        link_result(objs, base, Some(n))->Ok_0.symbols == link_result(objs, base, None)->Ok_0.symbols,
        link_result(objs, base, Some(n))->Ok_0.entry == Some(link_result(objs, base, None)->Ok_0.symbols[n]),
{
    lemma_table_names(objs, base);
    let table = resolve_all(objs, base)->Ok_0;
    assert(table.contains_key(n));
}

/// Why resolution failed with `InvalidSection`: a symbol of an object of that name names
/// that section, which the object lacks.
proof fn lemma_resolve_invalid_section(objs: Seq<ObjectView>, base: u64, k: nat, j: nat, o: Seq<char>, sec: Seq<char>)
    requires
        symbol_point(objs, k, j),
        resolve_upto(objs, base, k, j) == Err::<Map<Seq<char>, u64>, LinkErrorView>(LinkErrorView::InvalidSection { object: o, section: sec }),
    ensures
        exists|kk: int, jj: int| is_symbol(objs, kk, jj) && #[trigger] objs[kk].symbols[jj].section == sec
            && objs[kk].name == o && !objs[kk].has_section(sec),
    decreases k, j,
{
    if j == 0 {
        lemma_resolve_invalid_section(objs, base, (k - 1) as nat, objs[k - 1].symbols.len(), o, sec);
    } else if resolve_upto(objs, base, k, (j - 1) as nat) is Err {
        lemma_resolve_invalid_section(objs, base, k, (j - 1) as nat, o, sec);
    } else {
        assert(objs[k as int].symbols[j - 1].section == sec);
        assert(is_symbol(objs, k as int, j - 1));
    }
}

/// Why patching failed with one of a relocation's own errors.
proof fn lemma_patch_cause(objs: Seq<ObjectView>, table: Map<Seq<char>, u64>, k: nat, j: nat)
    requires
        relocation_point(objs, k, j),
        patch_upto(objs, table, k, j) is Err,
    ensures
        match patch_upto(objs, table, k, j)->Err_0 {
            LinkErrorView::InvalidSection { object, section } => exists|kk: int, jj: int|
                is_relocation(objs, kk, jj) && #[trigger] objs[kk].relocations[jj].section == section
                    && objs[kk].name == object && !objs[kk].has_section(section),
            LinkErrorView::RelocationOutOfRange { object, section, offset } => exists|kk: int, jj: int|
                is_relocation(objs, kk, jj) && #[trigger] objs[kk].relocations[jj].section == section
                    && objs[kk].name == object && objs[kk].relocations[jj].offset == offset
                    && objs[kk].has_section(section)
                    && offset + objs[kk].relocations[jj].width.size() > objs[kk].section_bytes(section).len(),
            LinkErrorView::RelocationOverflow { target, width } => exists|kk: int, jj: int|
                is_relocation(objs, kk, jj) && #[trigger] objs[kk].relocations[jj].target == target
                    && objs[kk].relocations[jj].width == width && table.contains_key(target)
                    && !(0 <= table[target] + objs[kk].relocations[jj].addend <= width.max()),
            _ => true,
        },
    decreases k, j,
{
    if j == 0 {
        lemma_patch_cause(objs, table, (k - 1) as nat, objs[k - 1].relocations.len());
    } else if patch_upto(objs, table, k, (j - 1) as nat) is Err {
        lemma_patch_cause(objs, table, k, (j - 1) as nat);
    } else {
        let r = objs[k as int].relocations[j - 1];
        assert(is_relocation(objs, k as int, j - 1));
        assert(objs[k as int].relocations[j - 1].section == r.section);
        assert(objs[k as int].relocations[j - 1].target == r.target);
    }
}

/// **Every failure names its cause.** A link that fails with `InvalidSection` has a
/// symbol or relocation of an object of that name naming that section, which the object
/// never created; one that fails with `RelocationOutOfRange` has a relocation of that
/// object, section and offset whose slot runs past the object's own bytes of that section;
/// one that fails with `RelocationOverflow` has a relocation to that defined target, of
/// that width, whose address plus addend is negative or too large for the width.
pub proof fn law_failure_causes(objs: Seq<ObjectView>, base: u64, entry: Option<Seq<char>>)
    requires
        link_result(objs, base, entry) is Err,
    ensures
        match link_result(objs, base, entry)->Err_0 {
            LinkErrorView::InvalidSection { object, section } => (exists|kk: int, jj: int|
                is_symbol(objs, kk, jj) && #[trigger] objs[kk].symbols[jj].section == section
                    && objs[kk].name == object && !objs[kk].has_section(section)) || (exists|kk: int, jj: int|
                is_relocation(objs, kk, jj) && #[trigger] objs[kk].relocations[jj].section == section
                    && objs[kk].name == object && !objs[kk].has_section(section)),
            LinkErrorView::RelocationOutOfRange { object, section, offset } => exists|kk: int, jj: int|
                is_relocation(objs, kk, jj) && #[trigger] objs[kk].relocations[jj].section == section
                    && objs[kk].name == object && objs[kk].relocations[jj].offset == offset
                    && objs[kk].has_section(section)
                    && offset + objs[kk].relocations[jj].width.size() > objs[kk].section_bytes(section).len(),
            LinkErrorView::RelocationOverflow { target, width } => (exists|kk: int, jj: int|
                is_symbol(objs, kk, jj) && #[trigger] objs[kk].symbols[jj].name == target) && exists|kk: int, jj: int|
                is_relocation(objs, kk, jj) && #[trigger] objs[kk].relocations[jj].target == target
                    && objs[kk].relocations[jj].width == width,
            _ => true,
        },
{
    if layout_fits(objs, base) {
        if resolve_all(objs, base) is Err {
            lemma_resolve_error_kinds(objs, base, objs.len(), 0);
            let e = resolve_all(objs, base)->Err_0;
            if let LinkErrorView::InvalidSection { object, section } = e {
                lemma_resolve_invalid_section(objs, base, objs.len(), 0, object, section);
            }
        } else {
            let table = resolve_all(objs, base)->Ok_0;
            if patch_all(objs, table) is Err {
                lemma_patch_cause(objs, table, objs.len(), 0);
                lemma_table_names(objs, base);
                let e = patch_all(objs, table)->Err_0;
                if let LinkErrorView::RelocationOverflow { target, width } = e {
                    assert(table.contains_key(target));
                }
            }
        }
    }
}

} // verus!
