//! Properties of a whole run, stated over the members of the archive.
use vstd::prelude::*;
use vstd::utf8::valid_utf8;
use crate::member::{EntryKind, is_kind, member_id};
use crate::passes::{
    extract_fold, extract_step, filter_fold, filter_step, resolve_fold, resolve_step, ExtractState,
    FilterState, ResolveState, lemma_extract_stops, lemma_filter_stops, lemma_resolve_stops,
};
use crate::run::{extracted, filtered, plan_of, resolved, unpack_plan};
use crate::table::all_paths_safe;
use crate::text::{declared_path, has_folder_line, is_safe_path};

verus! {

/// Member `m` is of kind `k` and belongs to asset `id`.
pub open spec fn is_member(m: (Seq<u8>, Seq<u8>), k: EntryKind, id: Seq<u8>) -> bool {
    is_kind(m.0, k) && member_id(m.0) == id
}

/// The files that a plan leaves behind: each path with the bytes of the last
/// write to it.
pub open spec fn tree_of(writes: Seq<(Seq<u8>, Seq<u8>, Seq<u8>)>) -> Map<Seq<u8>, Seq<u8>>
    decreases writes.len(),
{
    if writes.len() == 0 {
        Map::empty()
    } else {
        tree_of(writes.drop_last()).insert(writes.last().1, writes.last().2)
    }
}

proof fn lemma_split(ms: Seq<(Seq<u8>, Seq<u8>)>, k: int)
    requires
        0 <= k < ms.len(),
    ensures
        ms == ms.take(k + 1) + ms.skip(k + 1),
        ms.take(k + 1).drop_last() == ms.take(k),
        ms.take(k + 1).last() == ms[k],
{
    assert(ms =~= ms.take(k + 1) + ms.skip(k + 1));
    assert(ms.take(k + 1).drop_last() =~= ms.take(k));
}

proof fn lemma_resolve_append(a: Seq<(Seq<u8>, Seq<u8>)>, b: Seq<(Seq<u8>, Seq<u8>)>, s: ResolveState)
    ensures
        resolve_fold(a + b, s) == resolve_fold(b, resolve_fold(a, s)),
    decreases b.len(),
{
    if b.len() == 0 {
        assert(a + b =~= a);
    } else {
        assert((a + b).drop_last() =~= a + b.drop_last());
        lemma_resolve_append(a, b.drop_last(), s);
    }
}

proof fn lemma_filter_append(a: Seq<(Seq<u8>, Seq<u8>)>, b: Seq<(Seq<u8>, Seq<u8>)>, s: FilterState)
    ensures
        filter_fold(a + b, s) == filter_fold(b, filter_fold(a, s)),
    decreases b.len(),
{
    if b.len() == 0 {
        assert(a + b =~= a);
    } else {
        assert((a + b).drop_last() =~= a + b.drop_last());
        lemma_filter_append(a, b.drop_last(), s);
    }
}

proof fn lemma_extract_append(a: Seq<(Seq<u8>, Seq<u8>)>, b: Seq<(Seq<u8>, Seq<u8>)>, s: ExtractState)
    ensures
        extract_fold(a + b, s) == extract_fold(b, extract_fold(a, s)),
    decreases b.len(),
{
    if b.len() == 0 {
        assert(a + b =~= a);
    } else {
        assert((a + b).drop_last() =~= a + b.drop_last());
        lemma_extract_append(a, b.drop_last(), s);
    }
}

/// The resolver leaves `id` alone when no member is its `pathname`.
proof fn lemma_resolve_other(ms: Seq<(Seq<u8>, Seq<u8>)>, s: ResolveState, id: Seq<u8>)
    requires
        forall|i: int| 0 <= i < ms.len() ==> !is_member(#[trigger] ms[i], EntryKind::Pathname, id),
    ensures
        resolve_fold(ms, s).table.contains_key(id) == s.table.contains_key(id),
        s.table.contains_key(id) ==> resolve_fold(ms, s).table[id] == s.table[id],
    decreases ms.len(),
{
    if ms.len() > 0 {
        assert(!is_member(ms[ms.len() - 1], EntryKind::Pathname, id));
        lemma_resolve_other(ms.drop_last(), s, id);
    }
}

/// The resolver never maps `id` when each of its `pathname` members declares an
/// unsafe path.
proof fn lemma_resolve_absent(ms: Seq<(Seq<u8>, Seq<u8>)>, s: ResolveState, id: Seq<u8>)
    requires
        !s.table.contains_key(id),
        forall|i: int|
            0 <= i < ms.len() && is_member(#[trigger] ms[i], EntryKind::Pathname, id) && valid_utf8(ms[i].1)
                ==> !is_safe_path(declared_path(ms[i].1)),
    ensures
        !resolve_fold(ms, s).table.contains_key(id),
    decreases ms.len(),
{
    if ms.len() > 0 {
        let l = ms[ms.len() - 1];
        assert(is_member(l, EntryKind::Pathname, id) && valid_utf8(l.1) ==> !is_safe_path(declared_path(l.1)));
        lemma_resolve_absent(ms.drop_last(), s, id);
    }
}

proof fn lemma_resolve_safe(ms: Seq<(Seq<u8>, Seq<u8>)>, s: ResolveState)
    requires
        all_paths_safe(s.table),
    ensures
        all_paths_safe(resolve_fold(ms, s).table),
    decreases ms.len(),
{
    if ms.len() > 0 {
        lemma_resolve_safe(ms.drop_last(), s);
        let t = resolve_fold(ms.drop_last(), s);
        let r = resolve_step(t, ms.last());
        assert forall|k: Seq<u8>| r.table.contains_key(k) implies is_safe_path(#[trigger] r.table[k]) by {
            if t.table.contains_key(k) {
                assert(is_safe_path(t.table[k]));
            }
        }
    }
}

/// The filter leaves `id` alone when none of its `asset.meta` members holds the
/// folder line.
proof fn lemma_filter_other(ms: Seq<(Seq<u8>, Seq<u8>)>, s: FilterState, id: Seq<u8>)
    requires
        forall|i: int| 0 <= i < ms.len() && is_member(#[trigger] ms[i], EntryKind::AssetMeta, id) ==> !has_folder_line(ms[i].1),
    ensures
        filter_fold(ms, s).table.contains_key(id) == s.table.contains_key(id),
        s.table.contains_key(id) ==> filter_fold(ms, s).table[id] == s.table[id],
    decreases ms.len(),
{
    if ms.len() > 0 {
        let l = ms[ms.len() - 1];
        assert(is_member(l, EntryKind::AssetMeta, id) ==> !has_folder_line(l.1));
        lemma_filter_other(ms.drop_last(), s, id);
    }
}

/// The filter only removes.
proof fn lemma_filter_shrinks(ms: Seq<(Seq<u8>, Seq<u8>)>, s: FilterState)
    ensures
        forall|k: Seq<u8>| #[trigger] filter_fold(ms, s).table.contains_key(k) ==> s.table.contains_key(k)
            && filter_fold(ms, s).table[k] == s.table[k],
    decreases ms.len(),
{
    if ms.len() > 0 {
        lemma_filter_shrinks(ms.drop_last(), s);
    }
}

/// The extractor leaves `id` alone, and writes nothing for it, when no member
/// is its `asset`.
proof fn lemma_extract_other(ms: Seq<(Seq<u8>, Seq<u8>)>, s: ExtractState, id: Seq<u8>)
    requires
        forall|i: int| 0 <= i < ms.len() ==> !is_member(#[trigger] ms[i], EntryKind::Asset, id),
    ensures
        extract_fold(ms, s).table.contains_key(id) == s.table.contains_key(id),
        s.table.contains_key(id) ==> extract_fold(ms, s).table[id] == s.table[id],
        forall|w: int| s.writes.len() <= w < extract_fold(ms, s).writes.len() ==> (#[trigger] extract_fold(ms, s).writes[w]).0 != id,
    decreases ms.len(),
{
    if ms.len() > 0 {
        assert(!is_member(ms[ms.len() - 1], EntryKind::Asset, id));
        lemma_extract_other(ms.drop_last(), s, id);
    }
}

/// The extractor writes nothing for an ID that is not in the table.
proof fn lemma_extract_absent(ms: Seq<(Seq<u8>, Seq<u8>)>, s: ExtractState, id: Seq<u8>)
    requires
        !s.table.contains_key(id),
    ensures
        !extract_fold(ms, s).table.contains_key(id),
        forall|w: int| s.writes.len() <= w < extract_fold(ms, s).writes.len() ==> (#[trigger] extract_fold(ms, s).writes[w]).0 != id,
    decreases ms.len(),
{
    if ms.len() > 0 {
        lemma_extract_absent(ms.drop_last(), s, id);
    }
}

/// The extractor only appends writes; while the table's paths are safe, so
/// are the paths it writes to.
proof fn lemma_extract_grows(ms: Seq<(Seq<u8>, Seq<u8>)>, s: ExtractState)
    ensures
        s.writes.len() <= extract_fold(ms, s).writes.len(),
        forall|w: int| 0 <= w < s.writes.len() ==> #[trigger] extract_fold(ms, s).writes[w] == s.writes[w],
        all_paths_safe(s.table) ==> all_paths_safe(extract_fold(ms, s).table),
        all_paths_safe(s.table) ==> forall|w: int| s.writes.len() <= w < extract_fold(ms, s).writes.len()
            ==> is_safe_path((#[trigger] extract_fold(ms, s).writes[w]).1),
    decreases ms.len(),
{
    if ms.len() > 0 {
        lemma_extract_grows(ms.drop_last(), s);
        if all_paths_safe(s.table) {
            let t = extract_fold(ms.drop_last(), s);
            let r = extract_step(t, ms.last());
            assert forall|k: Seq<u8>| r.table.contains_key(k) implies is_safe_path(#[trigger] r.table[k]) by {
                assert(t.table.contains_key(k));
            }
            let id = member_id(ms.last().0);
            if t.table.contains_key(id) {
                assert(is_safe_path(t.table[id]));
            }
        }
    }
}

/// For an ID with one `pathname` member declaring a safe path, no `asset.meta`
/// member holding the folder line, and one `asset` member, a run that completes
/// writes that asset's bytes to the declared path, and writes nothing else for
/// that ID.
pub proof fn law_asset_written_to_declared_path(ms: Seq<(Seq<u8>, Seq<u8>)>, id: Seq<u8>, k: int, j: int)
    requires
        0 <= k < ms.len(),
        is_member(ms[k], EntryKind::Pathname, id),
        valid_utf8(ms[k].1),
        is_safe_path(declared_path(ms[k].1)),
        forall|i: int| 0 <= i < ms.len() && i != k ==> !is_member(#[trigger] ms[i], EntryKind::Pathname, id),
        forall|i: int| 0 <= i < ms.len() && is_member(#[trigger] ms[i], EntryKind::AssetMeta, id) ==> !has_folder_line(ms[i].1),
        0 <= j < ms.len(),
        is_member(ms[j], EntryKind::Asset, id),
        forall|i: int| 0 <= i < ms.len() && i != j ==> !is_member(#[trigger] ms[i], EntryKind::Asset, id),
        plan_of(ms).fault is None,
    ensures
        exists|w: int| 0 <= w < plan_of(ms).writes.len()
            && #[trigger] plan_of(ms).writes[w] == (id, declared_path(ms[k].1), ms[j].1),
        forall|w: int| 0 <= w < plan_of(ms).writes.len() && (#[trigger] plan_of(ms).writes[w]).0 == id
            ==> plan_of(ms).writes[w] == (id, declared_path(ms[k].1), ms[j].1),
{
    let p = declared_path(ms[k].1);
    // Path Resolver
    let s0 = ResolveState { table: Map::empty(), rejected: Seq::empty(), fault: None };
    lemma_split(ms, k);
    lemma_resolve_append(ms.take(k + 1), ms.skip(k + 1), s0);
    let ra = resolve_fold(ms.take(k), s0);
    let rb = resolve_fold(ms.take(k + 1), s0);
    assert(rb == resolve_step(ra, ms[k]));
    if rb.fault is Some {
        lemma_resolve_stops(ms, s0, k + 1);
    }
    assert(rb.table == ra.table.insert(id, p));
    assert forall|i: int| 0 <= i < ms.skip(k + 1).len() implies !is_member(
        #[trigger] ms.skip(k + 1)[i],
        EntryKind::Pathname,
        id,
    ) by {
        assert(ms.skip(k + 1)[i] == ms[k + 1 + i]);
    }
    lemma_resolve_other(ms.skip(k + 1), rb, id);
    assert(resolved(ms).table[id] == p);
    // Folder Filter
    let f0 = FilterState { table: resolved(ms).table, fault: None };
    lemma_filter_other(ms, f0, id);
    assert(filtered(ms).table[id] == p);
    // Asset Extractor
    let e0 = ExtractState { table: filtered(ms).table, writes: Seq::empty(), fault: None };
    lemma_split(ms, j);
    lemma_extract_append(ms.take(j + 1), ms.skip(j + 1), e0);
    assert forall|i: int| 0 <= i < ms.take(j).len() implies !is_member(#[trigger] ms.take(j)[i], EntryKind::Asset, id) by {
        assert(ms.take(j)[i] == ms[i]);
    }
    lemma_extract_other(ms.take(j), e0, id);
    let ea = extract_fold(ms.take(j), e0);
    let eb = extract_fold(ms.take(j + 1), e0);
    assert(eb == extract_step(ea, ms[j]));
    if eb.fault is Some {
        lemma_extract_stops(ms, e0, j + 1);
    }
    assert(ea.fault is None);
    assert(eb.writes == ea.writes.push((id, p, ms[j].1)));
    assert(!eb.table.contains_key(id));
    assert forall|i: int| 0 <= i < ms.skip(j + 1).len() implies !is_member(
        #[trigger] ms.skip(j + 1)[i],
        EntryKind::Asset,
        id,
    ) by {
        assert(ms.skip(j + 1)[i] == ms[j + 1 + i]);
    }
    lemma_extract_absent(ms.skip(j + 1), eb, id);
    lemma_extract_grows(ms.skip(j + 1), eb);
    let w = ea.writes.len() as int;
    assert(extracted(ms).writes[w] == (id, p, ms[j].1));
    assert(plan_of(ms).writes == extracted(ms).writes);
}

/// An ID with an `asset.meta` member holding the line `folderAsset: yes` never
/// gets a file written, whatever other members it has.
pub proof fn law_folder_never_written(ms: Seq<(Seq<u8>, Seq<u8>)>, id: Seq<u8>, k: int)
    requires
        0 <= k < ms.len(),
        is_member(ms[k], EntryKind::AssetMeta, id),
        valid_utf8(ms[k].1),
        has_folder_line(ms[k].1),
    ensures
        forall|w: int| 0 <= w < plan_of(ms).writes.len() ==> (#[trigger] plan_of(ms).writes[w]).0 != id,
        !plan_of(ms).orphans.contains_key(id),
{
    if resolved(ms).fault is None {
        let f0 = FilterState { table: resolved(ms).table, fault: None };
        lemma_split(ms, k);
        lemma_filter_append(ms.take(k + 1), ms.skip(k + 1), f0);
        let fa = filter_fold(ms.take(k), f0);
        let fb = filter_fold(ms.take(k + 1), f0);
        assert(fb == filter_step(fa, ms[k]));
        if fb.fault is Some {
            lemma_filter_stops(ms, f0, k + 1);
        } else {
            assert(!fb.table.contains_key(id));
            lemma_filter_shrinks(ms.skip(k + 1), fb);
            assert(!filtered(ms).table.contains_key(id));
            let e0 = ExtractState { table: filtered(ms).table, writes: Seq::empty(), fault: None };
            lemma_extract_absent(ms, e0, id);
        }
    }
}

/// An ID whose `pathname` members all declare an absolute path or one with a
/// `..` component is never entered in the table: nothing is written for it and
/// it is not reported as an orphan.
pub proof fn law_unsafe_path_never_used(ms: Seq<(Seq<u8>, Seq<u8>)>, id: Seq<u8>)
    requires
        forall|i: int|
            0 <= i < ms.len() && is_member(#[trigger] ms[i], EntryKind::Pathname, id) && valid_utf8(ms[i].1)
                ==> !is_safe_path(declared_path(ms[i].1)),
    ensures
        !resolved(ms).table.contains_key(id),
        forall|w: int| 0 <= w < plan_of(ms).writes.len() ==> (#[trigger] plan_of(ms).writes[w]).0 != id,
        !plan_of(ms).orphans.contains_key(id),
{
    let s0 = ResolveState { table: Map::empty(), rejected: Seq::empty(), fault: None };
    lemma_resolve_absent(ms, s0, id);
    let f0 = FilterState { table: resolved(ms).table, fault: None };
    lemma_filter_shrinks(ms, f0);
    let e0 = ExtractState { table: filtered(ms).table, writes: Seq::empty(), fault: None };
    lemma_extract_absent(ms, e0, id);
}

/// Every write goes to a safe path, and every orphan has one: relative, and
/// without a `..` component.
pub proof fn law_paths_stay_inside(ms: Seq<(Seq<u8>, Seq<u8>)>)
    ensures
        forall|w: int| 0 <= w < plan_of(ms).writes.len() ==> is_safe_path((#[trigger] plan_of(ms).writes[w]).1),
        all_paths_safe(plan_of(ms).orphans),
{
    let s0 = ResolveState { table: Map::empty(), rejected: Seq::empty(), fault: None };
    lemma_resolve_safe(ms, s0);
    let f0 = FilterState { table: resolved(ms).table, fault: None };
    lemma_filter_shrinks(ms, f0);
    assert forall|k: Seq<u8>| filtered(ms).table.contains_key(k) implies is_safe_path(#[trigger] filtered(ms).table[k]) by {
        assert(resolved(ms).table.contains_key(k));
    }
    let e0 = ExtractState { table: filtered(ms).table, writes: Seq::empty(), fault: None };
    lemma_extract_grows(ms, e0);
}

/// Orphans never change the outcome: a run that reports one has no fault.
pub proof fn law_orphans_are_diagnostic(ms: Seq<(Seq<u8>, Seq<u8>)>)
    ensures
        plan_of(ms).orphans.len() > 0 ==> plan_of(ms).fault is None,
{
    assert(Map::<Seq<u8>, Seq<u8>>::empty().len() == 0);
}

/// Two runs over the same archive bytes leave the same files.
pub proof fn law_same_archive_same_tree(a: Seq<u8>, b: Seq<u8>)
    requires
        a == b,
    ensures
        tree_of(unpack_plan(a).writes) == tree_of(unpack_plan(b).writes),
        unpack_plan(a) == unpack_plan(b),
{
}

proof fn lemma_tree_holds(writes: Seq<(Seq<u8>, Seq<u8>, Seq<u8>)>, p: Seq<u8>, x: Seq<u8>, w: int)
    requires
        0 <= w < writes.len(),
        writes[w].1 == p,
        forall|v: int| 0 <= v < writes.len() && (#[trigger] writes[v]).1 == p ==> writes[v].2 == x,
    ensures
        tree_of(writes).contains_key(p),
        tree_of(writes)[p] == x,
    decreases writes.len(),
{
    let l = writes.len() - 1;
    if writes[l].1 != p {
        assert forall|v: int| 0 <= v < writes.drop_last().len() && (#[trigger] writes.drop_last()[v]).1 == p implies writes.drop_last()[v].2 == x by {
            assert(writes.drop_last()[v] == writes[v]);
        }
        assert(writes.drop_last()[w] == writes[w]);
        lemma_tree_holds(writes.drop_last(), p, x, w);
    }
}

/// For an ID as in [`law_asset_written_to_declared_path`], when no other ID is
/// written to the same path, the file left at the declared path holds exactly
/// the bytes of the asset.
pub proof fn law_file_holds_asset_bytes(ms: Seq<(Seq<u8>, Seq<u8>)>, id: Seq<u8>, k: int, j: int)
    requires
        0 <= k < ms.len(),
        is_member(ms[k], EntryKind::Pathname, id),
        valid_utf8(ms[k].1),
        is_safe_path(declared_path(ms[k].1)),
        forall|i: int| 0 <= i < ms.len() && i != k ==> !is_member(#[trigger] ms[i], EntryKind::Pathname, id),
        forall|i: int| 0 <= i < ms.len() && is_member(#[trigger] ms[i], EntryKind::AssetMeta, id) ==> !has_folder_line(ms[i].1),
        0 <= j < ms.len(),
        is_member(ms[j], EntryKind::Asset, id),
        forall|i: int| 0 <= i < ms.len() && i != j ==> !is_member(#[trigger] ms[i], EntryKind::Asset, id),
        plan_of(ms).fault is None,
        forall|w: int| 0 <= w < plan_of(ms).writes.len() && (#[trigger] plan_of(ms).writes[w]).1
            == declared_path(ms[k].1) ==> plan_of(ms).writes[w].0 == id,
    ensures
        tree_of(plan_of(ms).writes).contains_key(declared_path(ms[k].1)),
        tree_of(plan_of(ms).writes)[declared_path(ms[k].1)] == ms[j].1,
{
    law_asset_written_to_declared_path(ms, id, k, j);
    let ws = plan_of(ms).writes;
    let w = choose|w: int| 0 <= w < ws.len() && #[trigger] ws[w] == (id, declared_path(ms[k].1), ms[j].1);
    lemma_tree_holds(ws, declared_path(ms[k].1), ms[j].1, w);
}

/// Some member is the `pathname` of `id` and declares a safe path.
pub open spec fn has_safe_pathname(ms: Seq<(Seq<u8>, Seq<u8>)>, id: Seq<u8>) -> bool {
    exists|i: int| 0 <= i < ms.len() && is_member(#[trigger] ms[i], EntryKind::Pathname, id) && is_safe_path(declared_path(ms[i].1))
}

/// Some member is an `asset.meta` of `id` holding the folder line.
pub open spec fn has_folder_marker(ms: Seq<(Seq<u8>, Seq<u8>)>, id: Seq<u8>) -> bool {
    exists|i: int| 0 <= i < ms.len() && is_member(#[trigger] ms[i], EntryKind::AssetMeta, id) && has_folder_line(ms[i].1)
}

/// Some member is the `asset` of `id`.
pub open spec fn has_asset(ms: Seq<(Seq<u8>, Seq<u8>)>, id: Seq<u8>) -> bool {
    exists|i: int| 0 <= i < ms.len() && is_member(#[trigger] ms[i], EntryKind::Asset, id)
}

proof fn lemma_resolve_dom(ms: Seq<(Seq<u8>, Seq<u8>)>, s: ResolveState, id: Seq<u8>)
    requires
        resolve_fold(ms, s).fault is None,
    ensures
        resolve_fold(ms, s).table.contains_key(id) <==> (s.table.contains_key(id) || has_safe_pathname(ms, id)),
    decreases ms.len(),
{
    if ms.len() > 0 {
        let d = ms.drop_last();
        let l = ms[ms.len() - 1];
        lemma_resolve_dom(d, s, id);
        if has_safe_pathname(d, id) {
            let i = choose|i: int| 0 <= i < d.len() && is_member(#[trigger] d[i], EntryKind::Pathname, id) && is_safe_path(declared_path(d[i].1));
            assert(ms[i] == d[i]);
        }
        if has_safe_pathname(ms, id) && !(is_member(l, EntryKind::Pathname, id) && is_safe_path(declared_path(l.1))) {
            let i = choose|i: int| 0 <= i < ms.len() && is_member(#[trigger] ms[i], EntryKind::Pathname, id) && is_safe_path(declared_path(ms[i].1));
            assert(i != ms.len() - 1);
            assert(d[i] == ms[i]);
        }
    }
}

proof fn lemma_filter_dom(ms: Seq<(Seq<u8>, Seq<u8>)>, s: FilterState, id: Seq<u8>)
    requires
        filter_fold(ms, s).fault is None,
    ensures
        filter_fold(ms, s).table.contains_key(id) <==> (s.table.contains_key(id) && !has_folder_marker(ms, id)),
    decreases ms.len(),
{
    if ms.len() > 0 {
        let d = ms.drop_last();
        let l = ms[ms.len() - 1];
        lemma_filter_dom(d, s, id);
        if has_folder_marker(d, id) {
            let i = choose|i: int| 0 <= i < d.len() && is_member(#[trigger] d[i], EntryKind::AssetMeta, id) && has_folder_line(d[i].1);
            assert(ms[i] == d[i]);
        }
        if has_folder_marker(ms, id) && !(is_member(l, EntryKind::AssetMeta, id) && has_folder_line(l.1)) {
            let i = choose|i: int| 0 <= i < ms.len() && is_member(#[trigger] ms[i], EntryKind::AssetMeta, id) && has_folder_line(ms[i].1);
            assert(i != ms.len() - 1);
            assert(d[i] == ms[i]);
        }
    }
}

proof fn lemma_extract_dom(ms: Seq<(Seq<u8>, Seq<u8>)>, s: ExtractState, id: Seq<u8>)
    requires
        extract_fold(ms, s).fault is None,
    ensures
        extract_fold(ms, s).table.contains_key(id) <==> (s.table.contains_key(id) && !has_asset(ms, id)),
    decreases ms.len(),
{
    if ms.len() > 0 {
        let d = ms.drop_last();
        let l = ms[ms.len() - 1];
        lemma_extract_dom(d, s, id);
        if has_asset(d, id) {
            let i = choose|i: int| 0 <= i < d.len() && is_member(#[trigger] d[i], EntryKind::Asset, id);
            assert(ms[i] == d[i]);
        }
        if has_asset(ms, id) && !is_member(l, EntryKind::Asset, id) {
            let i = choose|i: int| 0 <= i < ms.len() && is_member(#[trigger] ms[i], EntryKind::Asset, id);
            assert(i != ms.len() - 1);
            assert(d[i] == ms[i]);
        }
    }
}

/// After a run that completes, an ID is reported as an orphan exactly when
/// some `pathname` member of it declares a safe path, no `asset.meta` member of
/// it holds the folder line, and it has no `asset` member.
pub proof fn law_orphans_are_unextracted_ids(ms: Seq<(Seq<u8>, Seq<u8>)>, id: Seq<u8>)
    requires
        plan_of(ms).fault is None,
    ensures
        plan_of(ms).orphans.contains_key(id) <==> (has_safe_pathname(ms, id) && !has_folder_marker(ms, id)
            && !has_asset(ms, id)),
{
    let s0 = ResolveState { table: Map::empty(), rejected: Seq::empty(), fault: None };
    lemma_resolve_dom(ms, s0, id);
    let f0 = FilterState { table: resolved(ms).table, fault: None };
    lemma_filter_dom(ms, f0, id);
    let e0 = ExtractState { table: filtered(ms).table, writes: Seq::empty(), fault: None };
    lemma_extract_dom(ms, e0, id);
}

} // verus!
