use flux_core::error::FluxError;
use flux_core::index::Index;
use flux_core::repository::{file_mode, Repository};

#[test]
fn index_add_remove_clear() {
    let mut index = Index::empty();
    assert!(index.is_empty());
    index.add("a.txt".to_string(), "1".repeat(40));
    index.add("a.txt".to_string(), "2".repeat(40));
    assert_eq!(index.map.len(), 1);
    assert_eq!(index.map.get("a.txt"), Some(&"2".repeat(40)));
    index.add("b.txt".to_string(), "3".repeat(40));
    index.remove("a.txt".to_string());
    assert_eq!(index.map.get("a.txt"), None);
    assert!(!index.is_empty());
    index.clear();
    assert!(index.is_empty());
}

#[test]
fn index_json_round_trip() {
    let mut index = Index::empty();
    index.add("./README.md".to_string(), "ab".repeat(20));
    index.add("src/lib.rs".to_string(), "cd".repeat(20));
    let text = index.to_json();
    assert_eq!(text, format!("{{\"./README.md\":\"{}\",\"src/lib.rs\":\"{}\"}}", "ab".repeat(20), "cd".repeat(20)));
    let back = Index::from_json(&text).unwrap();
    assert_eq!(back.map.get("src/lib.rs"), Some(&"cd".repeat(20)));
    assert_eq!(back.map.len(), 2);
}

#[test]
fn index_json_edge_cases() {
    assert_eq!(Index::empty().to_json(), "{}");
    assert!(Index::from_json("{}").unwrap().is_empty());
    assert!(Index::from_json("[1, 2]").unwrap().is_empty());
    let mixed = Index::from_json(r#"{"a": "h1", "b": 3, "a": "h2"}"#).unwrap();
    assert_eq!(mixed.map.get("a"), Some(&"h2".to_string()));
    assert_eq!(mixed.map.get("b"), None);
    assert_eq!(Index::from_json("{not json").err(), Some(FluxError::MalformedIndex));
}

#[test]
fn file_modes() {
    assert_eq!(file_mode(0o644), "100644");
    assert_eq!(file_mode(0o755), "100755");
    assert_eq!(file_mode(0o700), "100755");
    assert_eq!(file_mode(0o601), "100755");
}

#[test]
fn tree_entries_for_files_and_dirs() {
    let mut repo = Repository::init(String::new(), String::new(), false, false).unwrap();
    let e = repo.file_entry("run.sh".to_string(), b"echo".to_vec(), 0o755);
    assert_eq!(e.mode, "100755");
    assert_eq!(e.entry_type, "blob");
    assert!(repo.objects.contains(&e.hash));
    let d = Repository::dir_entry("src".to_string(), e.hash.clone());
    assert_eq!(d.mode, "040000");
    assert_eq!(d.entry_type, "tree");
    assert!(repo.has_uncommitted_changes() == false);
}
