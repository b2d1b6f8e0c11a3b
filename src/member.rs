//! Archive members and how their paths name an asset ID and an entry kind.
use vstd::prelude::*;
use crate::text::{first_stop, slash_stops, find_slash};

verus! {

/// One member of the archive: its path and its content.
pub struct Member {
    pub path: Vec<u8>,
    pub data: Vec<u8>,
}

/// The entry kinds that the passes read. Any other second component is ignored.
#[derive(Clone, Copy, Debug, PartialEq, Eq, Structural)]
pub enum EntryKind {
    Pathname,
    AssetMeta,
    Asset,
}

/// The second path component that selects each kind.
pub open spec fn kind_name(k: EntryKind) -> Seq<u8> {
    match k {
        EntryKind::Pathname => seq![0x70u8, 0x61u8, 0x74u8, 0x68u8, 0x6eu8, 0x61u8, 0x6du8, 0x65u8],
        EntryKind::AssetMeta => seq![
            0x61u8, 0x73u8, 0x73u8, 0x65u8, 0x74u8, 0x2eu8, 0x6du8, 0x65u8, 0x74u8, 0x61u8,
        ],
        EntryKind::Asset => seq![0x61u8, 0x73u8, 0x73u8, 0x65u8, 0x74u8],
    }
}

/// End of the `/`-separated segment of `p` that starts at byte `i`.
pub open spec fn seg_end(p: Seq<u8>, i: int) -> int {
    i + first_stop(p.skip(i), slash_stops())
}

/// A segment that counts as a component: neither empty nor `.`.
pub open spec fn is_named(p: Seq<u8>, i: int, e: int) -> bool {
    e > i && !(e == i + 1 && p[i] == 0x2eu8)
}

/// The first component of `p` at or after the segment that starts at byte `i`,
/// as a byte range. Empty segments and `.` segments are not components.
pub open spec fn comp_from(p: Seq<u8>, i: int) -> Option<(int, int)>
    decreases p.len() - i,
{
    if i < 0 || i >= p.len() {
        None
    } else {
        let e = seg_end(p, i);
        if is_named(p, i, e) {
            Some((i, e))
        } else if e >= p.len() {
            None
        } else {
            comp_from(p, e + 1)
        }
    }
}

/// The first component of a member path, as a byte range: the root `/`, a
/// leading `.`, or else the first named segment.
pub open spec fn first_comp(p: Seq<u8>) -> Option<(int, int)> {
    if p.len() > 0 && p[0] == 0x2fu8 {
        Some((0, 1))
    } else if p.len() > 0 && p[0] == 0x2eu8 && (p.len() == 1 || p[1] == 0x2fu8) {
        Some((0, 1))
    } else {
        comp_from(p, 0)
    }
}

/// The second component of a member path, as a byte range.
pub open spec fn second_comp(p: Seq<u8>) -> Option<(int, int)> {
    match first_comp(p) {
        Some((a, b)) => if p[0] == 0x2fu8 {
            comp_from(p, 1)
        } else {
            comp_from(p, b + 1)
        },
        None => None,
    }
}

/// The asset ID of a member: the first component of its path.
pub open spec fn member_id(p: Seq<u8>) -> Seq<u8> {
    match first_comp(p) {
        Some((a, b)) => p.subrange(a, b),
        None => Seq::empty(),
    }
}

/// The entry kind of a member: the second component of its path.
pub open spec fn member_kind(p: Seq<u8>) -> Seq<u8> {
    match second_comp(p) {
        Some((a, b)) => p.subrange(a, b),
        None => Seq::empty(),
    }
}

/// A member whose path selects kind `k`.
pub open spec fn is_kind(p: Seq<u8>, k: EntryKind) -> bool {
    second_comp(p) is Some && member_kind(p) == kind_name(k)
}

impl EntryKind {
    /// The second path component that selects this kind.
    pub fn name(self) -> (r: Vec<u8>)
        ensures
            r@ == kind_name(self),
    {
        let r: Vec<u8> = match self {
            EntryKind::Pathname => vec![0x70u8, 0x61u8, 0x74u8, 0x68u8, 0x6eu8, 0x61u8, 0x6du8, 0x65u8],
            EntryKind::AssetMeta => vec![
                0x61u8, 0x73u8, 0x73u8, 0x65u8, 0x74u8, 0x2eu8, 0x6du8, 0x65u8, 0x74u8, 0x61u8,
            ],
            EntryKind::Asset => vec![0x61u8, 0x73u8, 0x73u8, 0x65u8, 0x74u8],
        };
        assert(r@ =~= kind_name(self));
        r
    }
}

/// Copy of `s[lo..hi]`.
pub fn copy_range(s: &[u8], lo: usize, hi: usize) -> (r: Vec<u8>)
    requires
        lo <= hi <= s@.len(),
    ensures
        r@ == s@.subrange(lo as int, hi as int),
{
    let mut r: Vec<u8> = Vec::new();
    let mut i: usize = lo;
    while i < hi
        invariant
            lo <= i <= hi,
            hi <= s@.len(),
            r@ == s@.subrange(lo as int, i as int),
        decreases hi - i,
    {
        r.push(s[i]);
        assert(r@ =~= s@.subrange(lo as int, i + 1));
        i = i + 1;
    }
    r
}

/// Whether `s[lo..hi]` equals `t`.
pub fn range_eq(s: &[u8], lo: usize, hi: usize, t: &[u8]) -> (r: bool)
    requires
        lo <= hi <= s@.len(),
    ensures
        r == (s@.subrange(lo as int, hi as int) == t@),
{
    if hi - lo != t.len() {
        assert(s@.subrange(lo as int, hi as int).len() != t@.len());
        return false;
    }
    let mut k: usize = 0;
    while k < t.len()
        invariant
            hi - lo == t@.len(),
            lo <= hi <= s@.len(),
            k <= t@.len(),
            forall|j: int| 0 <= j < k ==> s@[lo + j] == t@[j],
        decreases t@.len() - k,
    {
        if s[lo + k] != t[k] {
            assert(s@.subrange(lo as int, hi as int)[k as int] != t@[k as int]);
            return false;
        }
        k = k + 1;
    }
    assert(s@.subrange(lo as int, hi as int) =~= t@);
    true
}

/// The first component of `p` at or after the segment that starts at `start`.
pub fn next_comp(p: &[u8], start: usize) -> (r: Option<(usize, usize)>)
    requires
        start <= p@.len(),
    ensures
        match r {
            Some((a, b)) => comp_from(p@, start as int) == Some((a as int, b as int)) && a < b <= p@.len(),
            None => comp_from(p@, start as int) is None,
        },
{
    let mut i: usize = start;
    loop
        invariant
            start <= i <= p@.len(),
            comp_from(p@, i as int) == comp_from(p@, start as int),
        decreases p@.len() - i,
    {
        if i >= p.len() {
            return None;
        }
        let e = find_slash(p, i);
        if e > i && !(e == i + 1 && p[i] == 0x2eu8) {
            return Some((i, e));
        }
        if e >= p.len() {
            return None;
        }
        i = e + 1;
    }
}

/// The asset ID of a member whose path selects `kind`, and `None` for any other
/// member (one of another kind, or one without a second path component).
pub fn id_if_kind(path: &[u8], kind: EntryKind) -> (r: Option<Vec<u8>>)
    ensures
        r is Some <==> is_kind(path@, kind),
        r is Some ==> r->0@ == member_id(path@),
{
    let n = path.len();
    let first = if n > 0 && (path[0] == 0x2fu8 || (path[0] == 0x2eu8 && (n == 1 || path[1] == 0x2fu8))) {
        Some((0usize, 1usize))
    } else {
        next_comp(path, 0)
    };
    let (a, b) = match first {
        Some(c) => c,
        None => return None,
    };
    let rest: usize = if path[0] == 0x2fu8 {
        1
    } else if b >= n {
        return None;
    } else {
        b + 1
    };
    let (c, d) = match next_comp(path, rest) {
        Some(c) => c,
        None => return None,
    };
    let name = kind.name();
    if range_eq(path, c, d, name.as_slice()) {
        Some(copy_range(path, a, b))
    } else {
        None
    }
}

} // verus!
