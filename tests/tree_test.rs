use flux_core::codec::{hash_blob, ObjectType};
use flux_core::error::FluxError;
use flux_core::textmap::TextMap;
use flux_core::tree::{build_tree_content, hash_tree, ls_tree, parse_tree, parse_tree_content, render_entries, TreeEntry};

fn entry(mode: &str, hash: &str, name: &str) -> TreeEntry {
    let entry_type = if mode.starts_with("040") { "tree" } else { "blob" };
    TreeEntry { mode: mode.to_string(), entry_type: entry_type.to_string(), hash: hash.to_string(), name: name.to_string() }
}

const MAIN_RS: &str = r#"pub fn main() { println!("{}", add(1, 2)) }"#;
const LIB_RS: &str = "pub fn add(a: i32, b: i32) -> i64 { a + b }";

#[test]
fn directory_tree_hash_matches_reference() {
    let main = hash_blob(MAIN_RS.as_bytes().to_vec()).object_hash;
    let lib = hash_blob(LIB_RS.as_bytes().to_vec()).object_hash;
    let content = build_tree_content(vec![entry("100644", &main, "main.rs"), entry("100644", &lib, "lib.rs")]);
    assert_eq!(hash_tree(content).object_hash, "ac715a76cc52acc719def812525f6ae57b4770a9");
}

#[test]
fn tree_content_independent_of_order() {
    let a = hash_blob(b"a".to_vec()).object_hash;
    let b = hash_blob(b"b".to_vec()).object_hash;
    let c = hash_blob(b"c".to_vec()).object_hash;
    let one = build_tree_content(vec![entry("100644", &a, "x"), entry("040000", &b, "dir"), entry("100755", &c, "dir.txt")]);
    let two = build_tree_content(vec![entry("100755", &c, "dir.txt"), entry("100644", &a, "x"), entry("040000", &b, "dir")]);
    assert_eq!(one, two);
}

#[test]
fn directories_sort_with_trailing_slash() {
    let a = hash_blob(b"a".to_vec()).object_hash;
    let b = hash_blob(b"b".to_vec()).object_hash;
    let content = build_tree_content(vec![entry("040000", &a, "foo"), entry("100644", &b, "foo.txt")]);
    let parsed = parse_tree_content(&content).unwrap();
    assert_eq!(parsed[0].name, "foo.txt");
    assert_eq!(parsed[1].name, "foo");
    assert_eq!(parsed[1].entry_type, "tree");
}

#[test]
fn tree_serialization_uses_raw_hash_bytes() {
    let h = "0123456789abcdef0123456789abcdef01234567";
    let content = build_tree_content(vec![entry("100644", h, "f")]);
    let mut expected = b"100644 f\0".to_vec();
    expected.extend_from_slice(&[0x01, 0x23, 0x45, 0x67, 0x89, 0xab, 0xcd, 0xef, 0x01, 0x23, 0x45, 0x67, 0x89, 0xab, 0xcd, 0xef, 0x01, 0x23, 0x45, 0x67]);
    assert_eq!(content, expected);
}

#[test]
fn parse_tree_round_trip() {
    let a = hash_blob(b"a".to_vec()).object_hash;
    let b = hash_blob(b"b".to_vec()).object_hash;
    let content = build_tree_content(vec![entry("100644", &a, "z file"), entry("040000", &b, "sub")]);
    let parsed = parse_tree_content(&content).unwrap();
    assert_eq!(parsed.len(), 2);
    assert_eq!((parsed[0].mode.as_str(), parsed[0].name.as_str(), parsed[0].hash.as_str()), ("040000", "sub", b.as_str()));
    assert_eq!((parsed[1].mode.as_str(), parsed[1].name.as_str(), parsed[1].hash.as_str()), ("100644", "z file", a.as_str()));
}

#[test]
fn parse_tree_malformed() {
    assert_eq!(parse_tree_content(b"100644").err(), Some(FluxError::MalformedTree));
    assert_eq!(parse_tree_content(b"100644 name").err(), Some(FluxError::MalformedTree));
    assert_eq!(parse_tree_content(b"100644 name\0short").err(), Some(FluxError::MalformedTree));
    assert_eq!(parse_tree_content(b"").unwrap().len(), 0);
}

#[test]
fn ls_tree_lists_entries() {
    let a = hash_blob(b"a".to_vec()).object_hash;
    let b = hash_blob(b"b".to_vec()).object_hash;
    let content = build_tree_content(vec![entry("100644", &a, "a.txt"), entry("040000", &b, "src")]);
    let tree = hash_tree(content);
    let mut store: TextMap<Vec<u8>> = TextMap::new();
    let h = tree.object_hash.clone();
    flux_core::store::store_object(&mut store, tree);
    let text = ls_tree(&store, &h).unwrap();
    assert_eq!(text, format!("100644 blob {} a.txt\n040000 tree {} src\n", a, b));
    let entries = parse_tree(&store, &h).unwrap();
    assert_eq!(render_entries(&entries), text);
}

#[test]
fn parse_tree_rejects_other_kinds() {
    let blob = hash_blob(b"x".to_vec());
    let h = blob.object_hash.clone();
    let mut store: TextMap<Vec<u8>> = TextMap::new();
    flux_core::store::store_object(&mut store, blob);
    assert_eq!(parse_tree(&store, &h).err(), Some(FluxError::WrongObjectType));
    assert_eq!(parse_tree(&store, "0000000000000000000000000000000000000000").err(), Some(FluxError::ObjectNotFound));
    let o = flux_core::store::read_object(&store, &h).unwrap();
    assert_eq!(o.object_type, ObjectType::Blob);
}
