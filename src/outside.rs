//! Calls whose behaviour this library takes from std and from outside crates.
use vstd::prelude::*;
use vstd::utf8::valid_utf8;
use crate::member::Member;
use crate::passes::members_view;

verus! {

/// Relies on std::str::from_utf8: it succeeds exactly on well-formed UTF-8.
#[verifier::external_body]
pub(crate) fn utf8_ok(b: &[u8]) -> (r: bool)
    ensures
        r == valid_utf8(b@),
{
    std::str::from_utf8(b).is_ok()
}

} // verus!

verus! {

/// What decompressing the gzip stream `data` gives: `None` where it is not a
/// well-formed stream. The result depends on the bytes alone.
pub uninterp spec fn gunzip_of(data: Seq<u8>) -> Option<Seq<u8>>;

/// What reading the tar stream `data` gives: its members in archive order, as
/// (path, content), or `None` where a header or a member cannot be read. The
/// result depends on the bytes alone.
pub uninterp spec fn tar_members_of(data: Seq<u8>) -> Option<Seq<(Seq<u8>, Seq<u8>)>>;

/// Relies on flate2::read::GzDecoder, read to its end over an in-memory stream.
#[verifier::external_body]
pub(crate) fn gunzip(data: &[u8]) -> (r: Option<Vec<u8>>)
    ensures
        match r {
            Some(v) => gunzip_of(data@) == Some(v@),
            None => gunzip_of(data@) is None,
        },
{
    let mut out = Vec::new();
    match std::io::Read::read_to_end(&mut flate2::read::GzDecoder::new(data), &mut out) {
        Ok(_) => Some(out),
        Err(_) => None,
    }
}

/// Relies on tar::Archive::entries over an in-memory stream, with
/// tar::Entry::path_bytes and the content read from each entry.
#[verifier::external_body]
pub(crate) fn untar(data: &[u8]) -> (r: Option<Vec<Member>>)
    ensures
        match r {
            Some(v) => tar_members_of(data@) == Some(members_view(v@)),
            None => tar_members_of(data@) is None,
        },
{
    let mut archive = tar::Archive::new(data);
    let mut out = Vec::new();
    for entry in archive.entries().ok()? {
        let mut entry = entry.ok()?;
        let path = entry.path_bytes().into_owned();
        let mut content = Vec::new();
        std::io::Read::read_to_end(&mut entry, &mut content).ok()?;
        out.push(Member { path, data: content });
    }
    Some(out)
}

} // verus!
