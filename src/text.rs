//! Byte-level rules of the archive format: where a member path splits, where a
//! declared path ends, which paths are safe, and the folder marker line.
use vstd::prelude::*;

verus! {

/// Index of the first byte of `s` that satisfies `stop`, or `s.len()` if none does.
pub open spec fn first_stop(s: Seq<u8>, stop: spec_fn(u8) -> bool) -> nat
    decreases s.len(),
{
    if s.len() == 0 {
        0
    } else if stop(s[0]) {
        0
    } else {
        1 + first_stop(s.drop_first(), stop)
    }
}

/// `/`, the separator of path components.
pub open spec fn slash_stops() -> spec_fn(u8) -> bool {
    |b: u8| b == 0x2fu8
}

/// NUL, carriage return and line feed: the bytes that end a declared path.
pub open spec fn line_stops() -> spec_fn(u8) -> bool {
    |b: u8| b == 0u8 || b == 0x0du8 || b == 0x0au8
}

/// The declared path of a `pathname` member: its content up to the first NUL,
/// carriage return or line feed.
pub open spec fn declared_path(content: Seq<u8>) -> Seq<u8> {
    content.take(first_stop(content, line_stops()) as int)
}

pub open spec fn is_absolute(p: Seq<u8>) -> bool {
    p.len() > 0 && p[0] == 0x2fu8
}

/// A `..` component of `p` starts at byte `i`.
pub open spec fn parent_at(p: Seq<u8>, i: int) -> bool {
    &&& 0 <= i
    &&& i + 2 <= p.len()
    &&& p[i] == 0x2eu8
    &&& p[i + 1] == 0x2eu8
    &&& (i == 0 || p[i - 1] == 0x2fu8)
    &&& (i + 2 == p.len() || p[i + 2] == 0x2fu8)
}

pub open spec fn has_parent_component(p: Seq<u8>) -> bool {
    exists|i: int| parent_at(p, i)
}

/// A path that may be joined to the destination directory: relative, and
/// without a parent-directory component.
pub open spec fn is_safe_path(p: Seq<u8>) -> bool {
    !is_absolute(p) && !has_parent_component(p)
}

/// The bytes of `folderAsset: yes`.
pub open spec fn folder_marker() -> Seq<u8> {
    seq![
        0x66u8, 0x6fu8, 0x6cu8, 0x64u8, 0x65u8, 0x72u8, 0x41u8, 0x73u8,
        0x73u8, 0x65u8, 0x74u8, 0x3au8, 0x20u8, 0x79u8, 0x65u8, 0x73u8,
    ]
}

/// A line of `m` starting at byte `i` is exactly `folderAsset: yes`. Lines end
/// at a line feed, or at a carriage return and line feed, or at the end.
pub open spec fn folder_line_at(m: Seq<u8>, i: int) -> bool {
    let n = folder_marker().len() as int;
    &&& 0 <= i
    &&& i + n <= m.len()
    &&& (i == 0 || m[i - 1] == 0x0au8)
    &&& m.subrange(i, i + n) == folder_marker()
    &&& (i + n == m.len() || m[i + n] == 0x0au8 || (m[i + n] == 0x0du8 && i + n + 1 < m.len()
        && m[i + n + 1] == 0x0au8))
}

/// Metadata that marks its asset as a folder.
pub open spec fn has_folder_line(m: Seq<u8>) -> bool {
    exists|i: int| folder_line_at(m, i)
}

pub proof fn lemma_first_stop(s: Seq<u8>, stop: spec_fn(u8) -> bool, i: int)
    requires
        0 <= i <= s.len(),
        forall|j: int| 0 <= j < i ==> !stop(s[j]),
        i == s.len() || stop(s[i]),
    ensures
        first_stop(s, stop) == i,
    decreases i,
{
    if i > 0 {
        assert forall|j: int| 0 <= j < i - 1 implies !stop(s.drop_first()[j]) by {
            assert(!stop(s[j + 1]));
        }
        lemma_first_stop(s.drop_first(), stop, i - 1);
    }
}

/// Position of the first `/` at or after `start`, or `s.len()`.
pub fn find_slash(s: &[u8], start: usize) -> (n: usize)
    requires
        start <= s@.len(),
    ensures
        start <= n <= s@.len(),
        n == start + first_stop(s@.skip(start as int), slash_stops()),
{
    let mut i: usize = start;
    while i < s.len() && s[i] != 0x2fu8
        invariant
            start <= i <= s@.len(),
            forall|j: int| start <= j < i ==> !(slash_stops())(s@[j]),
        decreases s@.len() - i,
    {
        i = i + 1;
    }
    proof {
        let t = s@.skip(start as int);
        assert forall|j: int| 0 <= j < i - start implies !(slash_stops())(t[j]) by {
            assert(t[j] == s@[start + j]);
        }
        lemma_first_stop(t, slash_stops(), i - start);
    }
    i
}

/// Length of the declared path in the content of a `pathname` member.
pub fn declared_path_len(content: &[u8]) -> (n: usize)
    ensures
        n <= content@.len(),
        n == first_stop(content@, line_stops()),
        content@.take(n as int) == declared_path(content@),
{
    let mut i: usize = 0;
    while i < content.len() && content[i] != 0u8 && content[i] != 0x0du8 && content[i] != 0x0au8
        invariant
            i <= content@.len(),
            forall|j: int| 0 <= j < i ==> !(line_stops())(content@[j]),
        decreases content@.len() - i,
    {
        i = i + 1;
    }
    proof {
        lemma_first_stop(content@, line_stops(), i as int);
    }
    i
}

/// Whether `p` is relative and free of `..` components.
pub fn is_safe(p: &[u8]) -> (r: bool)
    ensures
        r == is_safe_path(p@),
{
    if p.len() > 0 && p[0] == 0x2fu8 {
        return false;
    }
    let mut i: usize = 0;
    while p.len() >= 2 && i <= p.len() - 2
        invariant
            forall|j: int| 0 <= j < i ==> !parent_at(p@, j),
        decreases p@.len() - i,
    {
        if p[i] == 0x2eu8 && p[i + 1] == 0x2eu8 && (i == 0 || p[i - 1] == 0x2fu8) && (i + 2
            == p.len() || p[i + 2] == 0x2fu8) {
            assert(parent_at(p@, i as int));
            return false;
        }
        i = i + 1;
    }
    true
}

/// The bytes of `folderAsset: yes`.
fn folder_marker_bytes() -> (r: Vec<u8>)
    ensures
        r@ == folder_marker(),
{
    let r: Vec<u8> = vec![
        0x66u8, 0x6fu8, 0x6cu8, 0x64u8, 0x65u8, 0x72u8, 0x41u8, 0x73u8,
        0x73u8, 0x65u8, 0x74u8, 0x3au8, 0x20u8, 0x79u8, 0x65u8, 0x73u8,
    ];
    assert(r@ =~= folder_marker());
    r
}

/// Whether `pat` occurs in `m` at byte `i`.
fn occurs_at(m: &[u8], i: usize, pat: &[u8]) -> (r: bool)
    ensures
        r == (i + pat@.len() <= m@.len() && m@.subrange(i as int, i + pat@.len()) == pat@),
{
    if i > m.len() || pat.len() > m.len() - i {
        return false;
    }
    let end: usize = i + pat.len();
    let mut k: usize = 0;
    while k < pat.len()
        invariant
            end == i + pat@.len(),
            end <= m@.len(),
            k <= pat@.len(),
            forall|j: int| 0 <= j < k ==> m@[i + j] == pat@[j],
        decreases pat@.len() - k,
    {
        if m[i + k] != pat[k] {
            assert(m@.subrange(i as int, i + pat@.len())[k as int] != pat@[k as int]);
            return false;
        }
        k = k + 1;
    }
    assert(m@.subrange(i as int, i + pat@.len()) =~= pat@);
    true
}

/// Whether some line of the metadata `m` is exactly `folderAsset: yes`.
pub fn is_folder_meta(m: &[u8]) -> (r: bool)
    ensures
        r == has_folder_line(m@),
{
    let marker = folder_marker_bytes();
    let n = marker.len();
    let mut i: usize = 0;
    while i < m.len()
        invariant
            n == folder_marker().len(),
            marker@ == folder_marker(),
            forall|j: int| 0 <= j < i ==> !folder_line_at(m@, j),
        decreases m@.len() - i,
    {
        if (i == 0 || m[i - 1] == 0x0au8) && occurs_at(m, i, marker.as_slice()) {
            let e = i + n;
            if e == m.len() || m[e] == 0x0au8 || (m[e] == 0x0du8 && e + 1 < m.len() && m[e + 1]
                == 0x0au8) {
                assert(folder_line_at(m@, i as int));
                return true;
            }
        }
        i = i + 1;
    }
    assert forall|j: int| !folder_line_at(m@, j) by {
        if 0 <= j < i {
        }
    }
    false
}

} // verus!
