//! The three reconciliation passes over the archive members, the orphan report,
//! and the whole run. Each pass is specified as a fold over the members in
//! archive order; a fatal condition stops the fold where it occurs.
use vstd::prelude::*;
use vstd::utf8::valid_utf8;
use crate::member::{Member, EntryKind, is_kind, member_id, id_if_kind, copy_range};
use crate::outside::utf8_ok;
use crate::table::{PathTable, copy_bytes};
use crate::text::{declared_path, declared_path_len, has_folder_line, is_folder_meta, is_safe, is_safe_path};

verus! {

/// What stops a run.
pub enum UnpackError {
    /// The archive could not be decompressed, or its member list not read.
    Archive,
    /// The `pathname` member of this ID is not UTF-8 text.
    PathnameNotText { id: Vec<u8> },
    /// The `asset.meta` member of this ID is not UTF-8 text.
    MetaNotText { id: Vec<u8> },
    /// An `asset` member whose ID has no destination in the table.
    NoDestination { id: Vec<u8> },
}

/// The model of an [`UnpackError`].
pub enum Fault {
    Archive,
    PathnameNotText(Seq<u8>),
    MetaNotText(Seq<u8>),
    NoDestination(Seq<u8>),
}

impl View for UnpackError {
    type V = Fault;

    open spec fn view(&self) -> Fault {
        match self {
            UnpackError::Archive => Fault::Archive,
            UnpackError::PathnameNotText { id } => Fault::PathnameNotText(id@),
            UnpackError::MetaNotText { id } => Fault::MetaNotText(id@),
            UnpackError::NoDestination { id } => Fault::NoDestination(id@),
        }
    }
}

pub open spec fn fault_of(e: Option<UnpackError>) -> Option<Fault> {
    match e {
        Some(e) => Some(e@),
        None => None,
    }
}

/// A `pathname` member whose declared path was refused: its ID and content.
pub struct Rejected {
    pub id: Vec<u8>,
    pub content: Vec<u8>,
}

/// A file to write: the asset's ID, its path relative to the destination
/// directory, and its bytes.
pub struct FileWrite {
    pub id: Vec<u8>,
    pub path: Vec<u8>,
    pub data: Vec<u8>,
}

/// An ID left in the table after extraction, with its path.
pub struct Orphan {
    pub id: Vec<u8>,
    pub path: Vec<u8>,
}

/// The members as (path, content) pairs, in archive order.
pub open spec fn members_view(ms: Seq<Member>) -> Seq<(Seq<u8>, Seq<u8>)> {
    Seq::new(ms.len(), |i: int| (ms[i].path@, ms[i].data@))
}

pub open spec fn rejected_view(v: Seq<Rejected>) -> Seq<(Seq<u8>, Seq<u8>)> {
    Seq::new(v.len(), |i: int| (v[i].id@, v[i].content@))
}

pub open spec fn writes_view(v: Seq<FileWrite>) -> Seq<(Seq<u8>, Seq<u8>, Seq<u8>)> {
    Seq::new(v.len(), |i: int| (v[i].id@, v[i].path@, v[i].data@))
}

/// `os` names each ID of `m` exactly once, with its path.
pub open spec fn lists_exactly(os: Seq<Orphan>, m: Map<Seq<u8>, Seq<u8>>) -> bool {
    &&& os.len() == m.len()
    &&& forall|i: int| 0 <= i < os.len() ==> m.contains_key(#[trigger] os[i].id@) && m[os[i].id@] == os[i].path@
    &&& forall|k: Seq<u8>| m.contains_key(k) ==> exists|i: int| 0 <= i < os.len() && (#[trigger] os[i].id@) == k
    &&& forall|i: int, j: int| 0 <= i < os.len() && 0 <= j < os.len() && i != j ==> os[i].id@ != os[j].id@
}

/// State of the Path Resolver pass.
pub struct ResolveState {
    pub table: Map<Seq<u8>, Seq<u8>>,
    pub rejected: Seq<(Seq<u8>, Seq<u8>)>,
    pub fault: Option<Fault>,
}

pub open spec fn resolve_step(s: ResolveState, m: (Seq<u8>, Seq<u8>)) -> ResolveState {
    let id = member_id(m.0);
    let p = declared_path(m.1);
    if s.fault is Some || !is_kind(m.0, EntryKind::Pathname) {
        s
    } else if !valid_utf8(m.1) {
        ResolveState { table: s.table, rejected: s.rejected, fault: Some(Fault::PathnameNotText(id)) }
    } else if is_safe_path(p) {
        ResolveState { table: s.table.insert(id, p), rejected: s.rejected, fault: None }
    } else {
        ResolveState { table: s.table, rejected: s.rejected.push((id, m.1)), fault: None }
    }
}

pub open spec fn resolve_fold(ms: Seq<(Seq<u8>, Seq<u8>)>, s: ResolveState) -> ResolveState
    decreases ms.len(),
{
    if ms.len() == 0 {
        s
    } else {
        resolve_step(resolve_fold(ms.drop_last(), s), ms.last())
    }
}

/// State of the Folder Filter pass.
pub struct FilterState {
    pub table: Map<Seq<u8>, Seq<u8>>,
    pub fault: Option<Fault>,
}

pub open spec fn filter_step(s: FilterState, m: (Seq<u8>, Seq<u8>)) -> FilterState {
    let id = member_id(m.0);
    if s.fault is Some || !is_kind(m.0, EntryKind::AssetMeta) {
        s
    } else if !valid_utf8(m.1) {
        FilterState { table: s.table, fault: Some(Fault::MetaNotText(id)) }
    } else if has_folder_line(m.1) {
        FilterState { table: s.table.remove(id), fault: None }
    } else {
        s
    }
}

pub open spec fn filter_fold(ms: Seq<(Seq<u8>, Seq<u8>)>, s: FilterState) -> FilterState
    decreases ms.len(),
{
    if ms.len() == 0 {
        s
    } else {
        filter_step(filter_fold(ms.drop_last(), s), ms.last())
    }
}

/// State of the Asset Extractor pass: the table, the writes so far as
/// (ID, path, bytes), and the fault that stopped it.
pub struct ExtractState {
    pub table: Map<Seq<u8>, Seq<u8>>,
    pub writes: Seq<(Seq<u8>, Seq<u8>, Seq<u8>)>,
    pub fault: Option<Fault>,
}

pub open spec fn extract_step(s: ExtractState, m: (Seq<u8>, Seq<u8>)) -> ExtractState {
    let id = member_id(m.0);
    if s.fault is Some || !is_kind(m.0, EntryKind::Asset) {
        s
    } else if s.table.contains_key(id) {
        ExtractState { table: s.table.remove(id), writes: s.writes.push((id, s.table[id], m.1)), fault: None }
    } else {
        ExtractState { table: s.table, writes: s.writes, fault: Some(Fault::NoDestination(id)) }
    }
}

pub open spec fn extract_fold(ms: Seq<(Seq<u8>, Seq<u8>)>, s: ExtractState) -> ExtractState
    decreases ms.len(),
{
    if ms.len() == 0 {
        s
    } else {
        extract_step(extract_fold(ms.drop_last(), s), ms.last())
    }
}

pub(crate) proof fn lemma_resolve_stops(ms: Seq<(Seq<u8>, Seq<u8>)>, s: ResolveState, i: int)
    requires
        0 <= i <= ms.len(),
        resolve_fold(ms.take(i), s).fault is Some,
    ensures
        resolve_fold(ms, s) == resolve_fold(ms.take(i), s),
    decreases ms.len(),
{
    if ms.len() > i {
        assert(ms.drop_last().take(i) =~= ms.take(i));
        lemma_resolve_stops(ms.drop_last(), s, i);
    } else {
        assert(ms.take(i) =~= ms);
    }
}

pub(crate) proof fn lemma_filter_stops(ms: Seq<(Seq<u8>, Seq<u8>)>, s: FilterState, i: int)
    requires
        0 <= i <= ms.len(),
        filter_fold(ms.take(i), s).fault is Some,
    ensures
        filter_fold(ms, s) == filter_fold(ms.take(i), s),
    decreases ms.len(),
{
    if ms.len() > i {
        assert(ms.drop_last().take(i) =~= ms.take(i));
        lemma_filter_stops(ms.drop_last(), s, i);
    } else {
        assert(ms.take(i) =~= ms);
    }
}

pub(crate) proof fn lemma_extract_stops(ms: Seq<(Seq<u8>, Seq<u8>)>, s: ExtractState, i: int)
    requires
        0 <= i <= ms.len(),
        extract_fold(ms.take(i), s).fault is Some,
    ensures
        extract_fold(ms, s) == extract_fold(ms.take(i), s),
    decreases ms.len(),
{
    if ms.len() > i {
        assert(ms.drop_last().take(i) =~= ms.take(i));
        lemma_extract_stops(ms.drop_last(), s, i);
    } else {
        assert(ms.take(i) =~= ms);
    }
}

/// Path Resolver pass: records the declared path of every `pathname` member
/// whose path is safe, and lists the members whose path is not.
pub fn resolve_paths(members: &Vec<Member>, table: &mut PathTable, rejected: &mut Vec<Rejected>) -> (r: Result<(), UnpackError>)
    requires
        old(table).wf(),
    ensures
        final(table).wf(),
        ({
            let s = resolve_fold(
                members_view(members@),
                ResolveState { table: old(table)@, rejected: rejected_view(old(rejected)@), fault: None },
            );
            &&& final(table)@ == s.table
            &&& rejected_view(final(rejected)@) == s.rejected
            &&& match r {
                Ok(()) => s.fault is None,
                Err(e) => s.fault == Some(e@),
            }
        }),
{
    let ghost init = ResolveState { table: table@, rejected: rejected_view(rejected@), fault: None };
    let mut i: usize = 0;
    while i < members.len()
        invariant
            table.wf(),
            i <= members_view(members@).len(),
            init == (ResolveState { table: old(table)@, rejected: rejected_view(old(rejected)@), fault: None }),
            resolve_fold(members_view(members@).take(i as int), init) == (ResolveState {
                table: table@,
                rejected: rejected_view(rejected@),
                fault: None,
            }),
        decreases members_view(members@).len() - i,
    {
        let m = &members[i];
        proof {
            assert(members_view(members@).take(i + 1).drop_last() =~= members_view(members@).take(i as int));
        }
        match id_if_kind(m.path.as_slice(), EntryKind::Pathname) {
            None => {},
            Some(id) => {
                if !utf8_ok(m.data.as_slice()) {
                    proof {
                        let t = members_view(members@).take(i + 1);
                        assert(t.last() == members_view(members@)[i as int]);
                        assert(resolve_fold(t, init) == resolve_step(resolve_fold(members_view(members@).take(i as int), init), members_view(members@)[i as int]));
                        lemma_resolve_stops(members_view(members@), init, i + 1);
                    }
                    return Err(UnpackError::PathnameNotText { id });
                }
                let n = declared_path_len(m.data.as_slice());
                let path = copy_range(m.data.as_slice(), 0, n);
                assert(path@ =~= declared_path(m.data@));
                if is_safe(path.as_slice()) {
                    table.insert(id, path);
                } else {
                    let ghost before = rejected@;
                    let content = copy_bytes(m.data.as_slice());
                    rejected.push(Rejected { id, content });
                    assert(rejected_view(rejected@) =~= rejected_view(before).push(
                        (member_id(m.path@), m.data@),
                    ));
                }
            },
        }
        i = i + 1;
    }
    proof {
        assert(members_view(members@).take(members_view(members@).len() as int) =~= members_view(members@));
    }
    Ok(())
}

/// Folder Filter pass: removes from the table every ID whose `asset.meta`
/// member holds the line `folderAsset: yes`.
pub fn filter_folders(members: &Vec<Member>, table: &mut PathTable) -> (r: Result<(), UnpackError>)
    requires
        old(table).wf(),
    ensures
        final(table).wf(),
        ({
            let s = filter_fold(members_view(members@), FilterState { table: old(table)@, fault: None });
            &&& final(table)@ == s.table
            &&& match r {
                Ok(()) => s.fault is None,
                Err(e) => s.fault == Some(e@),
            }
        }),
{
    let ghost init = FilterState { table: table@, fault: None };
    let mut i: usize = 0;
    while i < members.len()
        invariant
            table.wf(),
            i <= members_view(members@).len(),
            init == (FilterState { table: old(table)@, fault: None }),
            filter_fold(members_view(members@).take(i as int), init) == (FilterState { table: table@, fault: None }),
        decreases members_view(members@).len() - i,
    {
        let m = &members[i];
        proof {
            assert(members_view(members@).take(i + 1).drop_last() =~= members_view(members@).take(i as int));
        }
        match id_if_kind(m.path.as_slice(), EntryKind::AssetMeta) {
            None => {},
            Some(id) => {
                if !utf8_ok(m.data.as_slice()) {
                    proof {
                        let t = members_view(members@).take(i + 1);
                        assert(t.last() == members_view(members@)[i as int]);
                        assert(filter_fold(t, init) == filter_step(filter_fold(members_view(members@).take(i as int), init), members_view(members@)[i as int]));
                        lemma_filter_stops(members_view(members@), init, i + 1);
                    }
                    return Err(UnpackError::MetaNotText { id });
                }
                if is_folder_meta(m.data.as_slice()) {
                    let _ = table.remove(id.as_slice());
                }
            },
        }
        i = i + 1;
    }
    proof {
        assert(members_view(members@).take(members_view(members@).len() as int) =~= members_view(members@));
    }
    Ok(())
}

/// Asset Extractor pass: for each `asset` member, takes its ID out of the
/// table and plans a write of its bytes to the ID's path. An asset whose ID is
/// not in the table stops the pass.
pub fn extract_assets(members: &Vec<Member>, table: &mut PathTable, writes: &mut Vec<FileWrite>) -> (r: Result<(), UnpackError>)
    requires
        old(table).wf(),
    ensures
        final(table).wf(),
        ({
            let s = extract_fold(
                members_view(members@),
                ExtractState { table: old(table)@, writes: writes_view(old(writes)@), fault: None },
            );
            &&& final(table)@ == s.table
            &&& writes_view(final(writes)@) == s.writes
            &&& match r {
                Ok(()) => s.fault is None,
                Err(e) => s.fault == Some(e@),
            }
        }),
{
    let ghost init = ExtractState { table: table@, writes: writes_view(writes@), fault: None };
    let mut i: usize = 0;
    while i < members.len()
        invariant
            table.wf(),
            i <= members_view(members@).len(),
            init == (ExtractState { table: old(table)@, writes: writes_view(old(writes)@), fault: None }),
            extract_fold(members_view(members@).take(i as int), init) == (ExtractState {
                table: table@,
                writes: writes_view(writes@),
                fault: None,
            }),
        decreases members_view(members@).len() - i,
    {
        let m = &members[i];
        proof {
            assert(members_view(members@).take(i + 1).drop_last() =~= members_view(members@).take(i as int));
        }
        match id_if_kind(m.path.as_slice(), EntryKind::Asset) {
            None => {},
            Some(id) => {
                match table.remove(id.as_slice()) {
                    None => {
                        proof {
                            let t = members_view(members@).take(i + 1);
                        assert(t.last() == members_view(members@)[i as int]);
                        assert(extract_fold(t, init) == extract_step(extract_fold(members_view(members@).take(i as int), init), members_view(members@)[i as int]));
                        lemma_extract_stops(members_view(members@), init, i + 1);
                        }
                        return Err(UnpackError::NoDestination { id });
                    },
                    Some(path) => {
                        let ghost before = writes@;
                        let data = copy_bytes(m.data.as_slice());
                        writes.push(FileWrite { id, path, data });
                        assert(writes_view(writes@) =~= writes_view(before).push(
                            (writes@.last().id@, writes@.last().path@, m.data@),
                        ));
                    },
                }
            },
        }
        i = i + 1;
    }
    proof {
        assert(members_view(members@).take(members_view(members@).len() as int) =~= members_view(members@));
    }
    Ok(())
}

/// Orphan Reporter: every ID left in the table, each once, with its path.
pub fn orphans(table: &PathTable) -> (r: Vec<Orphan>)
    requires
        table.wf(),
    ensures
        lists_exactly(r@, table@),
        forall|i: int| 0 <= i < r@.len() ==> is_safe_path(#[trigger] r@[i].path@),
{
    proof {
        table.lemma_safe();
    }
    let rows = table.rows();
    let mut r: Vec<Orphan> = Vec::new();
    let mut i: usize = 0;
    while i < rows.len()
        invariant
            i <= rows@.len(),
            r@.len() == i,
            forall|j: int| 0 <= j < i ==> (#[trigger] r@[j]).id@ == rows@[j].0@ && r@[j].path@ == rows@[j].1@,
        decreases rows@.len() - i,
    {
        let id = copy_bytes(rows[i].0.as_slice());
        let path = copy_bytes(rows[i].1.as_slice());
        r.push(Orphan { id, path });
        i = i + 1;
    }
    proof {
        assert forall|k: Seq<u8>| table@.contains_key(k) implies exists|j: int| 0 <= j < r@.len() && (#[trigger] r@[j].id@) == k by {
            let j = choose|j: int| 0 <= j < rows@.len() && (#[trigger] rows@[j].0@) == k;
            assert(r@[j].id@ == k);
        }
    }
    r
}

} // verus!
