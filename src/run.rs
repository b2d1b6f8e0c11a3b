//! A whole run: the three passes in order, then the orphan report.
use vstd::prelude::*;
use crate::member::Member;
use crate::outside::{gunzip, gunzip_of, tar_members_of, untar};
use crate::passes::{
    extract_assets, filter_folders, orphans, resolve_paths, extract_fold, filter_fold, resolve_fold,
    fault_of, lists_exactly, members_view, rejected_view, writes_view, ExtractState, Fault, FileWrite,
    FilterState, Orphan, Rejected, ResolveState, UnpackError,
};
use crate::table::PathTable;

verus! {

/// What a run decides: the refused `pathname` members, the writes in order as
/// (ID, path, bytes), the IDs never extracted with their paths, and the fault
/// that stopped the run, if one did.
pub struct PlanModel {
    pub rejected: Seq<(Seq<u8>, Seq<u8>)>,
    pub writes: Seq<(Seq<u8>, Seq<u8>, Seq<u8>)>,
    pub orphans: Map<Seq<u8>, Seq<u8>>,
    pub fault: Option<Fault>,
}

pub open spec fn resolved(ms: Seq<(Seq<u8>, Seq<u8>)>) -> ResolveState {
    resolve_fold(ms, ResolveState { table: Map::empty(), rejected: Seq::empty(), fault: None })
}

pub open spec fn filtered(ms: Seq<(Seq<u8>, Seq<u8>)>) -> FilterState {
    filter_fold(ms, FilterState { table: resolved(ms).table, fault: None })
}

pub open spec fn extracted(ms: Seq<(Seq<u8>, Seq<u8>)>) -> ExtractState {
    extract_fold(ms, ExtractState { table: filtered(ms).table, writes: Seq::empty(), fault: None })
}

/// The outcome of a run over the members `ms`. A fault ends the run where it
/// occurs: writes planned before it stand, and no orphan is reported.
pub open spec fn plan_of(ms: Seq<(Seq<u8>, Seq<u8>)>) -> PlanModel {
    let a = resolved(ms);
    let b = filtered(ms);
    let c = extracted(ms);
    if a.fault is Some {
        PlanModel { rejected: a.rejected, writes: Seq::empty(), orphans: Map::empty(), fault: a.fault }
    } else if b.fault is Some {
        PlanModel { rejected: a.rejected, writes: Seq::empty(), orphans: Map::empty(), fault: b.fault }
    } else if c.fault is Some {
        PlanModel { rejected: a.rejected, writes: c.writes, orphans: Map::empty(), fault: c.fault }
    } else {
        PlanModel { rejected: a.rejected, writes: c.writes, orphans: c.table, fault: None }
    }
}

/// The outcome of a run over a gzip-compressed tar archive.
pub open spec fn unpack_plan(archive: Seq<u8>) -> PlanModel {
    match gunzip_of(archive) {
        Some(t) => match tar_members_of(t) {
            Some(ms) => plan_of(ms),
            None => archive_fault(),
        },
        None => archive_fault(),
    }
}

pub open spec fn archive_fault() -> PlanModel {
    PlanModel { rejected: Seq::empty(), writes: Seq::empty(), orphans: Map::empty(), fault: Some(Fault::Archive) }
}

/// What a run decided, for the caller to carry out: print the refused
/// members, write the files in order, then print the fault or the orphans.
pub struct Plan {
    pub rejected: Vec<Rejected>,
    pub writes: Vec<FileWrite>,
    pub orphans: Vec<Orphan>,
    pub fault: Option<UnpackError>,
}

impl Plan {
    pub open spec fn matches(&self, m: PlanModel) -> bool {
        &&& rejected_view(self.rejected@) == m.rejected
        &&& writes_view(self.writes@) == m.writes
        &&& lists_exactly(self.orphans@, m.orphans)
        &&& fault_of(self.fault) == m.fault
    }
}

/// Runs the Path Resolver, Folder Filter and Asset Extractor passes in that
/// order over `members`, then reports the IDs left in the table.
pub fn reconcile(members: &Vec<Member>) -> (r: Plan)
    ensures
        r.matches(plan_of(members_view(members@))),
{
    let ghost ms = members_view(members@);
    let mut table = PathTable::new();
    let mut rejected: Vec<Rejected> = Vec::new();
    let mut writes: Vec<FileWrite> = Vec::new();
    assert(rejected_view(rejected@) =~= Seq::empty());
    assert(writes_view(writes@) =~= Seq::empty());
    let res = resolve_paths(members, &mut table, &mut rejected);
    if let Err(e) = res {
        assert(writes_view(writes@) =~= Seq::empty());
        return Plan { rejected, writes, orphans: Vec::new(), fault: Some(e) };
    }
    let filt = filter_folders(members, &mut table);
    if let Err(e) = filt {
        return Plan { rejected, writes, orphans: Vec::new(), fault: Some(e) };
    }
    let ext = extract_assets(members, &mut table, &mut writes);
    if let Err(e) = ext {
        return Plan { rejected, writes, orphans: Vec::new(), fault: Some(e) };
    }
    let orphans = orphans(&table);
    Plan { rejected, writes, orphans, fault: None }
}

/// Unpacks the gzip-compressed tar archive `archive`: decompresses it, reads
/// its members, and runs [`reconcile`] over them. An archive that cannot be
/// decompressed or read gives a plan with nothing to do and the fault
/// `Archive`.
pub fn unpack(archive: &[u8]) -> (r: Plan)
    ensures
        r.matches(unpack_plan(archive@)),
{
    let none = Plan { rejected: Vec::new(), writes: Vec::new(), orphans: Vec::new(), fault: Some(UnpackError::Archive) };
    assert(none.matches(archive_fault())) by {
        assert(rejected_view(none.rejected@) =~= Seq::empty());
        assert(writes_view(none.writes@) =~= Seq::empty());
    }
    match gunzip(archive) {
        None => none,
        Some(tar) => match untar(tar.as_slice()) {
            None => none,
            Some(members) => reconcile(&members),
        },
    }
}

} // verus!
