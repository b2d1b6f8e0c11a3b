use std::io::Write;

use unitypackage_unpack::member::Member;
use unitypackage_unpack::passes::UnpackError;
use unitypackage_unpack::run::{reconcile, unpack, Plan};

fn member(path: &str, data: &[u8]) -> Member {
    Member { path: path.as_bytes().to_vec(), data: data.to_vec() }
}

fn archive(members: &[(&str, &[u8])]) -> Vec<u8> {
    let mut builder = tar::Builder::new(Vec::new());
    for (path, data) in members {
        let mut header = tar::Header::new_gnu();
        header.set_size(data.len() as u64);
        header.set_mode(0o644);
        builder.append_data(&mut header, path, *data).unwrap();
    }
    let tar_bytes = builder.into_inner().unwrap();
    let mut enc = flate2::write::GzEncoder::new(Vec::new(), flate2::Compression::default());
    enc.write_all(&tar_bytes).unwrap();
    enc.finish().unwrap()
}

fn writes(plan: &Plan) -> Vec<(String, String, Vec<u8>)> {
    plan.writes
        .iter()
        .map(|w| {
            (
                String::from_utf8(w.id.clone()).unwrap(),
                String::from_utf8(w.path.clone()).unwrap(),
                w.data.clone(),
            )
        })
        .collect()
}

fn orphan_ids(plan: &Plan) -> Vec<String> {
    let mut ids: Vec<String> =
        plan.orphans.iter().map(|o| String::from_utf8(o.id.clone()).unwrap()).collect();
    ids.sort();
    ids
}

fn fault_id(plan: &Plan) -> Option<String> {
    match &plan.fault {
        Some(UnpackError::NoDestination { id })
        | Some(UnpackError::PathnameNotText { id })
        | Some(UnpackError::MetaNotText { id }) => Some(String::from_utf8(id.clone()).unwrap()),
        _ => None,
    }
}

#[test]
fn asset_with_trailing_newline_path_is_written() {
    let bytes = archive(&[
        ("abc123/pathname", b"Assets/Foo.txt\n"),
        ("abc123/asset", b"hello"),
    ]);
    let plan = unpack(&bytes);
    assert!(plan.fault.is_none());
    assert_eq!(
        writes(&plan),
        vec![("abc123".to_string(), "Assets/Foo.txt".to_string(), b"hello".to_vec())]
    );
    assert!(plan.orphans.is_empty());
    assert!(plan.rejected.is_empty());
}

#[test]
fn folder_asset_is_neither_written_nor_orphaned() {
    let bytes = archive(&[
        ("def456/pathname", b"Assets/Bar"),
        ("def456/asset.meta", b"fileFormatVersion: 2\nfolderAsset: yes\nguid: def456\n"),
    ]);
    let plan = unpack(&bytes);
    assert!(plan.fault.is_none());
    assert!(plan.writes.is_empty());
    assert!(plan.orphans.is_empty());
}

#[test]
fn missing_asset_is_reported_as_orphan() {
    let bytes = archive(&[("ghi789/pathname", b"Assets/Baz.png")]);
    let plan = unpack(&bytes);
    assert!(plan.fault.is_none());
    assert!(plan.writes.is_empty());
    assert_eq!(orphan_ids(&plan), vec!["ghi789".to_string()]);
    assert_eq!(plan.orphans[0].path, b"Assets/Baz.png".to_vec());
}

#[test]
fn folder_marker_and_asset_never_write() {
    let plan = reconcile(&vec![
        member("aaa/pathname", b"Assets/Dir"),
        member("aaa/asset.meta", b"folderAsset: yes"),
        member("aaa/asset", b"payload"),
    ]);
    assert!(plan.writes.is_empty());
    assert_eq!(fault_id(&plan), Some("aaa".to_string()));
    assert!(matches!(plan.fault, Some(UnpackError::NoDestination { .. })));
}

#[test]
fn absolute_path_is_rejected() {
    let plan = reconcile(&vec![member("bad1/pathname", b"/etc/passwd\n")]);
    assert_eq!(plan.rejected.len(), 1);
    assert_eq!(plan.rejected[0].id, b"bad1".to_vec());
    assert_eq!(plan.rejected[0].content, b"/etc/passwd\n".to_vec());
    assert!(plan.writes.is_empty());
    assert!(plan.orphans.is_empty());
    assert!(plan.fault.is_none());
}

#[test]
fn parent_path_with_asset_stops_before_writing() {
    let plan = reconcile(&vec![
        member("bad2/pathname", b"../../escape.txt"),
        member("bad2/asset", b"x"),
    ]);
    assert_eq!(plan.rejected.len(), 1);
    assert!(plan.writes.is_empty());
    assert!(matches!(plan.fault, Some(UnpackError::NoDestination { .. })));
    assert_eq!(fault_id(&plan), Some("bad2".to_string()));
}

#[test]
fn dotted_names_are_not_parent_components() {
    let plan = reconcile(&vec![
        member("d1/pathname", b"Assets/a..b/..c/d.."),
        member("d1/asset", b"ok"),
    ]);
    assert!(plan.rejected.is_empty());
    assert_eq!(writes(&plan)[0].1, "Assets/a..b/..c/d..".to_string());
}

#[test]
fn every_orphan_is_reported_once() {
    let plan = reconcile(&vec![
        member("o1/pathname", b"A/one"),
        member("o2/pathname", b"A/two"),
        member("o3/pathname", b"A/three"),
        member("o2/pathname", b"A/two-again"),
        member("o3/asset", b"3"),
    ]);
    assert!(plan.fault.is_none());
    assert_eq!(orphan_ids(&plan), vec!["o1".to_string(), "o2".to_string()]);
    let o2 = plan.orphans.iter().find(|o| o.id == b"o2".to_vec()).unwrap();
    assert_eq!(o2.path, b"A/two-again".to_vec());
}

#[test]
fn two_runs_give_identical_plans() {
    let bytes = archive(&[
        ("x1/pathname", b"Assets/X.txt"),
        ("x1/asset", b"one"),
        ("x2/pathname", b"Assets/Sub/Y.bin\r\nmore"),
        ("x2/asset", &[0u8, 1, 2, 255]),
        ("x3/pathname", b"Assets/Z"),
    ]);
    let a = unpack(&bytes);
    let b = unpack(&bytes);
    assert_eq!(writes(&a), writes(&b));
    assert_eq!(orphan_ids(&a), orphan_ids(&b));
    assert_eq!(writes(&a)[1].1, "Assets/Sub/Y.bin".to_string());
    assert_eq!(writes(&a)[1].2, vec![0u8, 1, 2, 255]);
}

#[test]
fn corrupt_archive_is_fatal() {
    let plan = unpack(b"this is not gzip");
    assert!(matches!(plan.fault, Some(UnpackError::Archive)));
    assert!(plan.writes.is_empty());
}

#[test]
fn gzip_of_non_tar_is_fatal() {
    let mut enc = flate2::write::GzEncoder::new(Vec::new(), flate2::Compression::default());
    enc.write_all(&[7u8; 700]).unwrap();
    let plan = unpack(&enc.finish().unwrap());
    assert!(matches!(plan.fault, Some(UnpackError::Archive)));
}

#[test]
fn empty_archive_does_nothing() {
    let plan = unpack(&archive(&[]));
    assert!(plan.fault.is_none());
    assert!(plan.writes.is_empty() && plan.orphans.is_empty() && plan.rejected.is_empty());
}

#[test]
fn pathname_that_is_not_text_is_fatal() {
    let plan = reconcile(&vec![member("n1/pathname", &[0xffu8, 0xfe, b'a'])]);
    assert!(matches!(plan.fault, Some(UnpackError::PathnameNotText { .. })));
    assert_eq!(fault_id(&plan), Some("n1".to_string()));
}

#[test]
fn meta_that_is_not_text_is_fatal() {
    let plan = reconcile(&vec![
        member("n2/pathname", b"A/n2"),
        member("n2/asset.meta", &[0xc3u8, 0x28]),
    ]);
    assert!(matches!(plan.fault, Some(UnpackError::MetaNotText { .. })));
    assert_eq!(fault_id(&plan), Some("n2".to_string()));
}

#[test]
fn asset_without_pathname_is_fatal_after_earlier_writes() {
    let plan = reconcile(&vec![
        member("w1/pathname", b"A/w1"),
        member("w1/asset", b"first"),
        member("w2/asset", b"second"),
        member("w3/pathname", b"A/w3"),
        member("w3/asset", b"third"),
    ]);
    assert_eq!(writes(&plan), vec![("w1".to_string(), "A/w1".to_string(), b"first".to_vec())]);
    assert_eq!(fault_id(&plan), Some("w2".to_string()));
    assert!(plan.orphans.is_empty());
}

#[test]
fn folder_line_with_crlf_counts_and_bare_cr_at_end_does_not() {
    let plan = reconcile(&vec![
        member("c1/pathname", b"A/c1"),
        member("c1/asset.meta", b"guid: c1\r\nfolderAsset: yes\r\nx: 1\r\n"),
        member("c2/pathname", b"A/c2"),
        member("c2/asset.meta", b"guid: c2\nfolderAsset: yes\r"),
        member("c3/pathname", b"A/c3"),
        member("c3/asset.meta", b"folderAsset: yes please\n folderAsset: yes\n"),
    ]);
    assert!(plan.fault.is_none());
    assert_eq!(orphan_ids(&plan), vec!["c2".to_string(), "c3".to_string()]);
}

#[test]
fn other_kinds_and_directory_members_are_ignored() {
    let plan = reconcile(&vec![
        member("e1/", b""),
        member("e1", b"x"),
        member("e1/preview.png", b"img"),
        member("e1/pathname/extra", b"A/e1"),
        member("e1/assets", b"zzz"),
    ]);
    assert!(plan.fault.is_none());
    assert_eq!(orphan_ids(&plan), vec!["e1".to_string()]);
    assert!(plan.writes.is_empty());
}

#[test]
fn nul_ends_the_declared_path() {
    let plan = reconcile(&vec![member("z1/pathname", b"A/z1\0junk"), member("z1/asset", b"")]);
    assert_eq!(writes(&plan), vec![("z1".to_string(), "A/z1".to_string(), Vec::new())]);
}

#[test]
fn meta_arriving_before_pathname_still_filters() {
    let plan = reconcile(&vec![
        member("m1/asset.meta", b"folderAsset: yes\n"),
        member("m1/pathname", b"A/m1"),
    ]);
    assert!(plan.fault.is_none());
    assert!(plan.orphans.is_empty());
}

#[test]
fn doubled_slash_and_dot_components_are_read_as_written() {
    let plan = reconcile(&vec![
        member("abc/./pathname", b"Assets/Foo.txt\n"),
        member("abc//asset", b"hello"),
    ]);
    assert!(plan.fault.is_none());
    assert_eq!(
        writes(&plan),
        vec![("abc".to_string(), "Assets/Foo.txt".to_string(), b"hello".to_vec())]
    );
}
