use flux_core::commit::{get_parent_hash, get_tree_hash, header_field};
use flux_core::error::FluxError;
use flux_core::repository::Repository;
use flux_core::store::read_object;
use flux_core::tree::parse_tree;

const README: &str = "Read this file before running the project";
const MAIN_RS: &str = r#"pub fn main() { println!("{}", add(1, 2)) }"#;
const LIB_RS: &str = "pub fn add(a: i32, b: i32) -> i64 { a + b }";

fn new_repo() -> Repository {
    let mut repo = Repository::init(String::from("."), String::from("./.flux"), false, false).unwrap();
    repo.set("user_name".to_string(), "Test User".to_string());
    repo.set("user_email".to_string(), "test@example.com".to_string());
    repo
}

fn body_of(repo: &Repository, hash: &str) -> String {
    let o = read_object(&repo.objects, hash).unwrap();
    String::from_utf8(o.decompressed_content).unwrap()
}

#[test]
fn init_test() {
    let repo = Repository::init(String::from("."), String::from("./.flux"), false, false).unwrap();
    assert_eq!(repo.head, "refs/heads/main");
    assert!(repo.index.is_empty());
    assert_eq!(repo.list_branches(), vec!["(*) main".to_string()]);
    assert_eq!(repo.show_branches(), "(*) main\n");
    assert!(repo.head_commit().is_none());
    assert_eq!(Repository::init(String::new(), String::new(), true, false).err(), Some(FluxError::AlreadyInitialized));
    assert!(Repository::init(String::new(), String::new(), true, true).is_ok());
}

#[test]
fn set_test() {
    let mut repo = Repository::init(String::new(), String::new(), false, false).unwrap();
    repo.set("user_name".to_string(), "user".to_string());
    repo.set("user_email".to_string(), "user@gmail.com".to_string());
    repo.set("other".to_string(), "x".to_string());
    assert_eq!(repo.config.user_name.as_deref(), Some("user"));
    assert_eq!(repo.config.user_email.as_deref(), Some("user@gmail.com"));
}

#[test]
fn hash_object_test() {
    let mut repo = new_repo();
    let h = repo.hash_object(README.as_bytes().to_vec(), false);
    assert_eq!(h, "b9f48847101813276d90377eda657a2daf0d78cd");
    assert!(!repo.objects.contains(&h));
    repo.hash_object(README.as_bytes().to_vec(), true);
    assert!(repo.objects.contains(&h));
}

#[test]
fn commit_test() {
    let mut repo = new_repo();
    let readme = repo.add_file("README.md".to_string(), README.as_bytes().to_vec());
    assert_eq!(repo.index.map.get("README.md"), Some(&readme));
    repo.add(vec![("src/main.rs".to_string(), MAIN_RS.as_bytes().to_vec()), ("src/lib.rs".to_string(), LIB_RS.as_bytes().to_vec())]);
    assert!(repo.index.map.contains("src/lib.rs"));

    let first = repo.commit_at("Initial commit".to_string(), 1700000000, "+0100").unwrap();
    assert_eq!(first.len(), 40);
    assert!(repo.index.is_empty());
    assert_eq!(repo.refs.get("main"), Some(&Some(first.clone())));
    let body = body_of(&repo, &first);
    assert!(body.starts_with("tree "));
    assert!(body.contains("author Test User <test@example.com> 1700000000 +0100\n"));
    assert!(body.contains("committer Test User <test@example.com>"));
    assert!(body.ends_with("\n\nInitial commit"));
    assert!(!body.contains("parent "));

    repo.add_file("README.md".to_string(), b"Updated content for second commit".to_vec());
    let second = repo.commit_at("Second commit".to_string(), 1700000100, "+0100").unwrap();
    assert_ne!(first, second);
    assert_eq!(repo.head_commit(), Some(second.clone()));
    let body2 = body_of(&repo, &second);
    assert!(body2.contains(&format!("parent {}\n", first)));
    assert_eq!(get_parent_hash(&repo.objects, &second).unwrap(), Some(first.clone()));
    assert_eq!(get_parent_hash(&repo.objects, &first).unwrap(), None);
}

#[test]
fn commit_on_empty_index_fails() {
    let mut repo = new_repo();
    assert_eq!(repo.commit_at("m".to_string(), 0, "+0000").err(), Some(FluxError::NothingToCommit));
    let mut bare = Repository::init(String::new(), String::new(), false, false).unwrap();
    bare.add_file("a".to_string(), b"a".to_vec());
    assert_eq!(bare.commit_at("m".to_string(), 0, "+0000").err(), Some(FluxError::ConfigIncomplete));
    assert!(!bare.index.is_empty());
}

#[test]
fn commit_with_current_time() {
    let mut repo = new_repo();
    repo.add_file("a".to_string(), b"a".to_vec());
    let h = repo.commit("now".to_string()).unwrap();
    assert!(body_of(&repo, &h).contains("author Test User <test@example.com> "));
}

#[test]
fn tree_from_index_lists_staged_files() {
    let mut repo = new_repo();
    let a = repo.add_file("docs/a.txt".to_string(), b"alpha".to_vec());
    let b = repo.add_file("b.txt".to_string(), b"beta".to_vec());
    let tree = repo.tree_from_index().unwrap();
    let listing = repo.ls_tree(&tree).unwrap();
    assert_eq!(listing, format!("100644 blob {} a.txt\n100644 blob {} b.txt\n", a, b));
    let entries = parse_tree(&repo.objects, &tree).unwrap();
    assert_eq!(entries.len(), 2);
}

#[test]
fn delete_unstages() {
    let mut repo = new_repo();
    repo.add_file("a".to_string(), b"a".to_vec());
    repo.delete("a");
    assert!(repo.index.is_empty());
    repo.delete("missing");
    assert!(repo.index.is_empty());
}

#[test]
fn log_round_trip() {
    let mut repo = new_repo();
    repo.add_file("README.md".to_string(), b"A".to_vec());
    let m1 = repo.commit_at("m1".to_string(), 10, "+0000").unwrap();
    repo.add_file("README.md".to_string(), b"B".to_vec());
    let m2 = repo.commit_at("m2".to_string(), 20, "+0000").unwrap();
    let log = repo.log().unwrap();
    assert_eq!(log.len(), 2);
    assert!(log[0].ends_with("\n\nm2"));
    assert!(log[1].ends_with("\n\nm1"));
    assert!(log[0].contains(&format!("parent {}", m1)));
    assert_eq!(log[0], repo.cat_file(&m2).unwrap());
}

#[test]
fn new_branch_copies_tip() {
    let mut repo = new_repo();
    repo.add_file("a".to_string(), b"a".to_vec());
    let c = repo.commit_at("m".to_string(), 1, "+0000").unwrap();
    repo.new_branch("feature").unwrap();
    assert_eq!(repo.head, "refs/heads/feature");
    assert_eq!(repo.head_commit(), Some(c.clone()));
    assert_eq!(repo.refs.get("main"), Some(&Some(c)));
    assert_eq!(repo.new_branch("main").err(), Some(FluxError::BranchExists));
    let lines = repo.list_branches();
    assert!(lines.contains(&"(*) feature".to_string()));
    assert!(lines.contains(&"    main".to_string()));
}

#[test]
fn switch_branch_guards_staged_changes() {
    let mut repo = new_repo();
    repo.add_file("a.txt".to_string(), b"one".to_vec());
    let c1 = repo.commit_at("m1".to_string(), 1, "+0000").unwrap();
    repo.new_branch("other").unwrap();
    repo.add_file("a.txt".to_string(), b"two".to_vec());
    let c2 = repo.commit_at("m2".to_string(), 2, "+0000").unwrap();
    repo.add_file("b.txt".to_string(), b"staged".to_vec());

    assert_eq!(repo.switch_branch("main", false).err(), Some(FluxError::UncommittedChanges));
    assert_eq!(repo.head, "refs/heads/other");
    assert_eq!(repo.switch_branch("nope", true).err(), Some(FluxError::BranchNotFound));

    let target = repo.switch_branch("main", true).unwrap();
    assert_eq!(target, Some(c1.clone()));
    assert_eq!(repo.head, "refs/heads/main");
    let files = repo.checkout_files(&c1).unwrap();
    assert_eq!(files, vec![("a.txt".to_string(), b"one".to_vec())]);
    let files2 = repo.checkout_files(&c2).unwrap();
    assert_eq!(files2, vec![("a.txt".to_string(), b"two".to_vec())]);
}

#[test]
fn checkout_nested_tree() {
    let mut repo = new_repo();
    let a = repo.hash_object(b"inner".to_vec(), true);
    let sub = repo.write_tree(vec![flux_core::tree::TreeEntry { mode: "100644".into(), entry_type: "blob".into(), hash: a, name: "in.txt".into() }]);
    let b = repo.hash_object(b"top".to_vec(), true);
    let top = repo.write_tree(vec![
        flux_core::tree::TreeEntry { mode: "040000".into(), entry_type: "tree".into(), hash: sub, name: "dir".into() },
        flux_core::tree::TreeEntry { mode: "100755".into(), entry_type: "blob".into(), hash: b, name: "run.sh".into() },
    ]);
    let c = repo.commit_tree_at(top.clone(), "nested".to_string(), None, 5, "+0000").unwrap();
    let files = repo.checkout_files(&c).unwrap();
    assert_eq!(files, vec![("dir/in.txt".to_string(), b"inner".to_vec()), ("run.sh".to_string(), b"top".to_vec())]);
    let obj = read_object(&repo.objects, &c).unwrap();
    assert_eq!(get_tree_hash(obj).unwrap(), Some(top));
}

#[test]
fn commit_tree_checks_kind() {
    let mut repo = new_repo();
    let blob = repo.hash_object(b"x".to_vec(), true);
    assert_eq!(repo.commit_tree_at(blob, "m".to_string(), None, 0, "+0000").err(), Some(FluxError::WrongObjectType));
    assert_eq!(repo.commit_tree_at("f".repeat(40), "m".to_string(), None, 0, "+0000").err(), Some(FluxError::ObjectNotFound));
    let tree = repo.write_tree(Vec::new());
    let mut unset = Repository::init(String::new(), String::new(), false, false).unwrap();
    assert_eq!(unset.commit_tree(tree, "m".to_string(), None).err(), Some(FluxError::ConfigIncomplete));
}

#[test]
fn open_reads_head() {
    let repo = new_repo();
    let r = Repository::open(String::new(), String::new(), true, repo.config, repo.index, "ref: refs/heads/main\n", repo.refs, repo.objects).unwrap();
    assert_eq!(r.head, "refs/heads/main");
    assert_eq!(r.branch_name(), Some("main".to_string()));
    let fresh = || Repository::init(String::new(), String::new(), false, false).unwrap();
    let f = fresh();
    assert_eq!(Repository::open(String::new(), String::new(), false, f.config, f.index, "ref: refs/heads/main\n", f.refs, f.objects).err(), Some(FluxError::NotARepository));
    let g = fresh();
    assert_eq!(Repository::open(String::new(), String::new(), true, g.config, g.index, "0123abcd\n", g.refs, g.objects).err(), Some(FluxError::DetachedHeadUnsupported));
}

#[test]
fn header_field_scans_headers_only() {
    assert_eq!(header_field("tree abc\nparent def \n\nparent no", "parent "), Some("def".to_string()));
    assert_eq!(header_field("tree abc\n\nparent no", "parent "), None);
    assert_eq!(header_field("tree  abc\r\n", "tree "), Some("abc".to_string()));
}

#[test]
fn error_messages() {
    assert_eq!(FluxError::NothingToCommit.message(), "Nothing to commit");
    assert_eq!(FluxError::DetachedHeadUnsupported.message(), "Detached HEAD not supported");
}

#[test]
fn commit_tree_checks_parent() {
    let mut repo = new_repo();
    let tree = repo.write_tree(Vec::new());
    let blob = repo.hash_object(b"x".to_vec(), true);
    assert_eq!(repo.commit_tree_at(tree.clone(), "m".to_string(), Some(blob), 0, "+0000").err(), Some(FluxError::WrongObjectType));
    assert_eq!(repo.commit_tree_at(tree.clone(), "m".to_string(), Some("e".repeat(40)), 0, "+0000").err(), Some(FluxError::ObjectNotFound));
    let first = repo.commit_tree_at(tree.clone(), "m1".to_string(), None, 0, "+0000").unwrap();
    let second = repo.commit_tree_at(tree.clone(), "m2".to_string(), Some(first.clone()), 1, "+0000").unwrap();
    assert_eq!(get_parent_hash(&repo.objects, &second).unwrap(), Some(first));
    let body = body_of(&repo, &second);
    assert_eq!(flux_core::codec::hash(&[format!("commit {}\0", body.len()).into_bytes(), body.into_bytes()].concat()).unwrap(), second);
}

#[test]
fn open_refuses_head_outside_branches() {
    let r = Repository::init(String::new(), String::new(), false, false).unwrap();
    assert_eq!(
        Repository::open(String::new(), String::new(), true, r.config, r.index, "ref: refs/tags/v1\n", r.refs, r.objects).err(),
        Some(FluxError::DetachedHeadUnsupported)
    );
}

#[test]
fn ref_file_contents() {
    assert_eq!(flux_core::repository::ref_tip(""), None);
    assert_eq!(flux_core::repository::ref_tip("  \n"), None);
    assert_eq!(flux_core::repository::ref_tip("abc\n"), Some("abc".to_string()));
}

#[test]
fn add_stores_blobs_and_commit_keeps_head() {
    let mut repo = new_repo();
    repo.add(vec![("a.txt".to_string(), b"one".to_vec()), ("b.txt".to_string(), b"two".to_vec())]);
    let h = repo.index.map.get("a.txt").unwrap().clone();
    let o = read_object(&repo.objects, &h).unwrap();
    assert_eq!(o.decompressed_content, b"one".to_vec());
    let before = repo.objects.len();
    repo.add(vec![("a.txt".to_string(), b"one".to_vec())]);
    assert_eq!(repo.objects.len(), before);
    let c = repo.commit("m".to_string()).unwrap();
    assert_eq!(repo.head, "refs/heads/main");
    assert!(repo.objects.contains(&h));
    let tree = get_tree_hash(read_object(&repo.objects, &c).unwrap()).unwrap().unwrap();
    assert!(repo.ls_tree(&tree).unwrap().contains("a.txt"));
}

#[test]
fn tree_from_index_rejects_commits_and_missing() {
    let mut repo = new_repo();
    repo.add_file("a".to_string(), b"a".to_vec());
    let c = repo.commit_at("m".to_string(), 0, "+0000").unwrap();
    repo.index.add("c".to_string(), c);
    assert_eq!(repo.tree_from_index().err(), Some(FluxError::WrongObjectType));
    repo.index.clear();
    repo.index.add("m".to_string(), "0".repeat(40));
    assert_eq!(repo.tree_from_index().err(), Some(FluxError::ObjectNotFound));
}
