use unitypackage_unpack::member::{id_if_kind, EntryKind};
use unitypackage_unpack::table::PathTable;
use unitypackage_unpack::text::{declared_path_len, is_folder_meta, is_safe};

#[test]
fn safe_paths() {
    assert!(is_safe(b"Assets/Foo.txt"));
    assert!(is_safe(b"a..b"));
    assert!(is_safe(b""));
    assert!(!is_safe(b"/etc/passwd"));
    assert!(!is_safe(b".."));
    assert!(!is_safe(b"../../escape.txt"));
    assert!(!is_safe(b"Assets/../x"));
    assert!(!is_safe(b"Assets/.."));
}

#[test]
fn declared_path_stops_at_line_end() {
    assert_eq!(declared_path_len(b"Assets/Foo.txt\n"), 14);
    assert_eq!(declared_path_len(b"A\r\nB"), 1);
    assert_eq!(declared_path_len(b"AB\0"), 2);
    assert_eq!(declared_path_len(b"plain"), 5);
    assert_eq!(declared_path_len(b""), 0);
}

#[test]
fn folder_meta_lines() {
    assert!(is_folder_meta(b"folderAsset: yes"));
    assert!(is_folder_meta(b"a: 1\nfolderAsset: yes\nb: 2"));
    assert!(!is_folder_meta(b"folderAsset: no\n"));
    assert!(!is_folder_meta(b"xfolderAsset: yes\n"));
    assert!(!is_folder_meta(b""));
}

#[test]
fn member_ids_by_kind() {
    assert_eq!(id_if_kind(b"abc/pathname", EntryKind::Pathname), Some(b"abc".to_vec()));
    assert_eq!(id_if_kind(b"abc/asset.meta", EntryKind::AssetMeta), Some(b"abc".to_vec()));
    assert_eq!(id_if_kind(b"abc/asset", EntryKind::Asset), Some(b"abc".to_vec()));
    assert_eq!(id_if_kind(b"abc/asset.meta", EntryKind::Asset), None);
    assert_eq!(id_if_kind(b"abc/asset/x", EntryKind::Asset), Some(b"abc".to_vec()));
    assert_eq!(id_if_kind(b"abc", EntryKind::Asset), None);
}

#[test]
fn table_last_write_wins_and_remove() {
    let mut t = PathTable::new();
    t.insert(b"a".to_vec(), b"one".to_vec());
    t.insert(b"b".to_vec(), b"two".to_vec());
    t.insert(b"a".to_vec(), b"three".to_vec());
    assert_eq!(t.len(), 2);
    assert_eq!(t.remove(b"a"), Some(b"three".to_vec()));
    assert_eq!(t.remove(b"a"), None);
    assert_eq!(t.len(), 1);
}

#[test]
fn empty_and_dot_components_are_skipped() {
    assert_eq!(id_if_kind(b"abc//asset", EntryKind::Asset), Some(b"abc".to_vec()));
    assert_eq!(id_if_kind(b"abc/./pathname", EntryKind::Pathname), Some(b"abc".to_vec()));
    assert_eq!(id_if_kind(b"abc/.//./asset.meta", EntryKind::AssetMeta), Some(b"abc".to_vec()));
    assert_eq!(id_if_kind(b"abc/.", EntryKind::Asset), None);
    assert_eq!(id_if_kind(b"abc//", EntryKind::Asset), None);
    assert_eq!(id_if_kind(b"", EntryKind::Asset), None);
}

#[test]
fn leading_root_and_dot_are_components() {
    assert_eq!(id_if_kind(b"./abc/asset", EntryKind::Asset), None);
    assert_eq!(id_if_kind(b"./asset", EntryKind::Asset), Some(b".".to_vec()));
    assert_eq!(id_if_kind(b"/asset", EntryKind::Asset), Some(b"/".to_vec()));
    assert_eq!(id_if_kind(b"/abc/asset", EntryKind::Asset), None);
    assert_eq!(id_if_kind(b"x/../asset", EntryKind::Asset), None);
}
