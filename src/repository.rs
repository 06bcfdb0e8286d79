//! The repository: configuration, staging index, HEAD, branch tips and the
//! object store, with the operations that tie them together.
use crate::branch::{head_branch, heads_prefix, Branch};
use crate::codec::{zlib_of, envelope, hash_blob, hash_object_bytes, hash_text, ObjectType};
use crate::commit::{lemma_commit_headers, commit_body, commit_text, get_parent_hash, get_tree_hash, header_value, parent_key, tree_key, trim};
use crate::config::Config;
use crate::error::FluxError;
use crate::index::Index;
use crate::store::{holds, read_object, read_result, store_object, ObjectStore};
use crate::tree::{build_tree_content, entries_parsed, tree_malformed, entry_from_fields, entry_well_formed, fields_are_text, fields_of, hash_tree, is_tree_content_of, key_sorted, lemma_tree_round_trip, ls_tree, parse_entries, parse_tree, type_word, TreeEntry};
use crate::text::{ascii_text, copy_text, has_prefix, hex_of, is_object_hash, join_text, strip_prefix, text_eq, utf8_text};
use crate::textmap::TextMap;
use vstd::prelude::*;
use vstd::string::{StrSliceExecFns, StringExecFns};

verus! {

/// A repository's state. The working tree and the files under the metadata
/// directory are read and written by the caller; this value is what they hold.
pub struct Repository {
    pub work_tree: String,
    pub store_dir: String,
    pub config: Config,
    pub index: Index,
    /// `refs/heads/<branch>`.
    pub head: String,
    pub branches: Vec<Branch>,
    /// Branch name to tip commit; `None` for a branch without commits.
    pub refs: TextMap<Option<String>>,
    pub objects: ObjectStore,
}

/// `b` lists the ref `p` for the given HEAD.
pub open spec fn branch_matches(b: Branch, p: (String, Option<String>), head: Seq<char>) -> bool {
    &&& b.name@ == p.0@
    &&& b.last_commit_hash == p.1
    &&& b.is_current == (head_branch(head) == Some(p.0@))
    &&& b.ref_path@ == heads_prefix() + p.0@
}

/// `ref: `.
pub open spec fn ref_marker() -> Seq<char> {
    seq!['r', 'e', 'f', ':', ' ']
}

/// A HEAD file of the form `ref: refs/heads/<branch>`, surrounding whitespace aside.
pub open spec fn head_names_branch(head_file: Seq<char>) -> bool {
    &&& has_prefix(head_file, ref_marker())
    &&& has_prefix(trim(head_file), ref_marker())
    &&& head_branch(trim(head_file).subrange(5, trim(head_file).len() as int)) is Some
}

/// What a branch's ref file gives: its trimmed content, `None` when that is empty.
pub open spec fn ref_tip_of(content: Seq<char>) -> Option<Seq<char>> {
    if trim(content).len() == 0 {
        None
    } else {
        Some(trim(content))
    }
}

/// The tip that a branch's ref file holds: its trimmed content, or `None` for
/// an empty file (a branch without commits).
pub fn ref_tip(content: &str) -> (r: Option<String>)
    ensures
        opt_view(r) == ref_tip_of(content@),
{
    let t = crate::commit::trimmed(content, 0, content.unicode_len());
    proof {
        assert(content@.subrange(0, content@.len() as int) =~= content@);
    }
    if t.unicode_len() == 0 {
        None
    } else {
        Some(t)
    }
}

/// The listing line of a branch.
pub open spec fn branch_line(b: Branch) -> Seq<char> {
    if b.is_current {
        seq!['(', '*', ')', ' '] + b.name@
    } else {
        seq![' ', ' ', ' ', ' '] + b.name@
    }
}

/// The branch overview: `(*) <name>` for the current branch, `  <name>` for the others.
pub open spec fn branches_text(s: Seq<Branch>) -> Seq<char>
    decreases s.len(),
{
    if s.len() == 0 {
        Seq::empty()
    } else {
        branches_text(s.drop_last()) + if s.last().is_current {
            seq!['(', '*', ')', ' ']
        } else {
            seq![' ', ' ']
        } + s.last().name@ + seq!['\n']
    }
}

fn lit(v: Vec<u8>) -> (r: String)
    requires
        forall|i: int| 0 <= i < v@.len() ==> v@[i] < 128,
    ensures
        r@ == crate::text::ascii_chars(v@),
{
    ascii_text(v)
}

fn heads_text() -> (r: String)
    ensures
        r@ == heads_prefix(),
{
    let r = lit(vec![114u8, 101, 102, 115, 47, 104, 101, 97, 100, 115, 47]);
    proof {
        assert(r@ =~= heads_prefix());
    }
    r
}

proof fn lemma_head_of(name: Seq<char>)
    ensures
        head_branch(heads_prefix() + name) == Some(name),
{
    let h = heads_prefix() + name;
    assert(h.subrange(0, 11) =~= heads_prefix());
    assert(h.subrange(11, h.len() as int) =~= name);
}

/// Position of the last `/`, or -1.
pub open spec fn last_slash(p: Seq<char>) -> int
    decreases p.len(),
{
    if p.len() == 0 {
        -1
    } else if p.last() == '/' {
        p.len() - 1
    } else {
        last_slash(p.drop_last())
    }
}

/// The final component of a `/`-separated path.
pub open spec fn last_component(p: Seq<char>) -> Seq<char> {
    p.subrange(last_slash(p) + 1, p.len() as int)
}

/// The mode recorded for a staged object of a kind.
pub open spec fn mode_of_kind(k: ObjectType) -> Seq<char> {
    if k == ObjectType::Tree {
        seq!['0', '4', '0', '0', '0', '0']
    } else {
        seq!['1', '0', '0', '6', '4', '4']
    }
}

/// `entries` are the tree entries that the staged pairs stand for, one each:
/// named by the final path component, with the staged hash, and the mode of
/// the kind of the stored object.
pub open spec fn entries_of_index(
    entries: Seq<TreeEntry>,
    staged: Seq<(String, String)>,
    objects: Map<Seq<char>, Vec<u8>>,
) -> bool {
    &&& entries.len() == staged.len()
    &&& forall|i: int| 0 <= i < entries.len() ==> {
        &&& (#[trigger] entries[i]).hash@ == staged[i].1@
        &&& is_object_hash(entries[i].hash@)
        &&& entries[i].name@ == last_component(staged[i].0@)
        &&& (entries[i].mode@ == mode_of_kind(ObjectType::Blob) || entries[i].mode@ == mode_of_kind(ObjectType::Tree))
        &&& forall|k: ObjectType, p: Seq<u8>| #[trigger] holds(objects, staged[i].1@, k, p) ==> entries[i].mode@ == mode_of_kind(k)
        &&& forall|p: Seq<u8>| !holds(objects, staged[i].1@, ObjectType::Commit, p)
    }
}

/// The store holds a blob under `h`.
pub open spec fn blob_at(objects: Map<Seq<char>, Vec<u8>>, h: Seq<char>) -> bool {
    exists|p: Seq<u8>| holds(objects, h, ObjectType::Blob, p)
}

/// The store holds a blob or a tree under `h`.
pub open spec fn readable_at(objects: Map<Seq<char>, Vec<u8>>, h: Seq<char>) -> bool {
    exists|k: ObjectType, p: Seq<u8>| k != ObjectType::Commit && holds(objects, h, k, p)
}

/// Every staged hash is an object hash naming a stored blob or tree.
pub open spec fn staged_readable(index: Map<Seq<char>, String>, objects: Map<Seq<char>, Vec<u8>>) -> bool {
    forall|k: Seq<char>| #[trigger] index.contains_key(k) ==> is_object_hash(index[k]@) && readable_at(objects, index[k]@)
}

/// Writing a blob or a tree keeps every stored blob or tree readable.
proof fn lemma_write_keeps(objects: Map<Seq<char>, Vec<u8>>, objects2: Map<Seq<char>, Vec<u8>>, h: Seq<char>, k0: ObjectType, c: Seq<u8>)
    requires
        k0 != ObjectType::Commit,
        holds(objects2, h, k0, c),
        objects2 == objects.insert(h, objects2[h]),
    ensures
        readable_at(objects2, h),
        forall|x: Seq<char>| readable_at(objects, x) ==> readable_at(objects2, x),
        k0 == ObjectType::Blob ==> forall|x: Seq<char>| blob_at(objects, x) ==> blob_at(objects2, x),
        forall|x: Seq<char>| objects.contains_key(x) ==> objects2.contains_key(x),
{
    assert forall|x: Seq<char>| readable_at(objects, x) implies readable_at(objects2, x) by {
        if x == h {
            assert(holds(objects2, h, k0, c));
        } else {
            let (k, p) = choose|k: ObjectType, p: Seq<u8>| k != ObjectType::Commit && holds(objects, x, k, p);
            assert(holds(objects2, x, k, p));
        }
    }
    assert forall|x: Seq<char>| k0 == ObjectType::Blob && blob_at(objects, x) implies blob_at(objects2, x) by {
        if x == h {
            assert(holds(objects2, h, k0, c));
        } else {
            let p = choose|p: Seq<u8>| holds(objects, x, ObjectType::Blob, p);
            assert(holds(objects2, x, ObjectType::Blob, p));
        }
    }
}

/// `+hhmm` or `-hhmm`.
pub open spec fn is_utc_offset(o: Seq<char>) -> bool {
    o.len() == 5 && (o[0] == '+' || o[0] == '-') && forall|i: int| 1 <= i < 5 ==> '0' <= #[trigger] o[i] && o[i] <= '9'
}

/// The bytes of a commit body, as hashed and stored.
pub open spec fn commit_bytes(
    tree: Seq<char>,
    parent: Option<Seq<char>>,
    name: Seq<char>,
    email: Seq<char>,
    seconds: int,
    offset: Seq<char>,
    message: Seq<char>,
) -> Seq<u8> {
    vstd::utf8::encode_utf8(commit_body(tree, parent, name, email, seconds, offset, message))
}

/// Relies on `chrono::Local::now`: the current time as Unix seconds, and the
/// local offset from UTC formatted by `%z`, a sign and four digits.
#[verifier::external_body]
fn local_now() -> (r: (i64, String))
    ensures
        is_utc_offset(r.1@),
{
    let now = chrono::Local::now();
    (now.timestamp(), now.format("%z").to_string())
}

/// Whether a text is forty lowercase hexadecimal digits.
pub fn is_hash_text(s: &str) -> (r: bool)
    ensures
        r == is_object_hash(s@),
{
    let n = s.unicode_len();
    if n != 40 {
        return false;
    }
    let mut i: usize = 0;
    while i < n
        invariant
            n == s@.len(),
            i <= n,
            forall|j: int| 0 <= j < i ==> ('0' <= #[trigger] s@[j] && s@[j] <= '9') || ('a' <= s@[j] && s@[j] <= 'f'),
        decreases n - i,
    {
        let c = s.get_char(i);
        if !(('0' <= c && c <= '9') || ('a' <= c && c <= 'f')) {
            return false;
        }
        i = i + 1;
    }
    true
}

/// The final component of a `/`-separated path.
pub fn file_name(p: &str) -> (r: String)
    ensures
        r@ == last_component(p@),
{
    let n = p.unicode_len();
    let mut i = n;
    proof {
        assert(p@.subrange(0, n as int) =~= p@);
    }
    while i > 0 && p.get_char(i - 1) != '/'
        invariant
            n == p@.len(),
            i <= n,
            last_slash(p@) == last_slash(p@.subrange(0, i as int)),
        decreases i,
    {
        proof {
            assert(p@.subrange(0, i as int).drop_last() =~= p@.subrange(0, i - 1));
        }
        i = i - 1;
    }
    proof {
        if i > 0 {
            assert(p@.subrange(0, i as int).last() == p@[i - 1]);
        }
    }
    String::from_str(p.substring_char(i, n))
}

/// The kind and payload of the object that the store holds under `h`, when it
/// holds the compressed envelope of one.
pub open spec fn stored(objects: Map<Seq<char>, Vec<u8>>, h: Seq<char>) -> Option<(ObjectType, Seq<u8>)> {
    if exists|kp: (ObjectType, Seq<u8>)| holds(objects, h, kp.0, kp.1) {
        Some(choose|kp: (ObjectType, Seq<u8>)| holds(objects, h, kp.0, kp.1))
    } else {
        None
    }
}

/// The files that the entries stand for, in order: a blob entry is one file
/// `<prefix><name>`; a tree entry is the files of that tree under
/// `<prefix><name>/`, at most `fuel` levels deep.
pub open spec fn files_of_fields(
    objects: Map<Seq<char>, Vec<u8>>,
    fields: Seq<(Seq<u8>, Seq<u8>, Seq<u8>)>,
    prefix: Seq<char>,
    fuel: nat,
) -> Option<Seq<(Seq<char>, Seq<u8>)>>
    decreases fuel, 0int, fields.len(),
{
    if fields.len() == 0 {
        Some(Seq::empty())
    } else {
        match files_of_fields(objects, fields.drop_last(), prefix, fuel) {
            None => None,
            Some(before) => {
                let f = fields.last();
                let path = prefix + vstd::utf8::decode_utf8(f.1);
                if type_word(f.0) == seq!['t', 'r', 'e', 'e'] {
                    if fuel == 0 {
                        None
                    } else {
                        match files_of_tree(objects, hex_of(f.2), path + seq!['/'], (fuel - 1) as nat) {
                            None => None,
                            Some(sub) => Some(before + sub),
                        }
                    }
                } else {
                    match stored(objects, hex_of(f.2)) {
                        Some((ObjectType::Blob, c)) => Some(before.push((path, c))),
                        _ => None,
                    }
                }
            }
        }
    }
}

/// The files of the tree stored under `tree`, by path under `prefix`.
pub open spec fn files_of_tree(
    objects: Map<Seq<char>, Vec<u8>>,
    tree: Seq<char>,
    prefix: Seq<char>,
    fuel: nat,
) -> Option<Seq<(Seq<char>, Seq<u8>)>>
    decreases fuel, 1int, 0int,
{
    match stored(objects, tree) {
        Some((ObjectType::Tree, p)) => match parse_entries(p) {
            Some(fields) => if forall|i: int| 0 <= i < fields.len() ==> fields_are_text(#[trigger] fields[i]) {
                files_of_fields(objects, fields, prefix, fuel)
            } else {
                None
            },
            None => None,
        },
        _ => None,
    }
}

/// The bodies of the commits from `cur` back along the `parent` headers, at
/// most `fuel` of them.
pub open spec fn history(objects: Map<Seq<char>, Vec<u8>>, cur: Option<Seq<char>>, fuel: nat) -> Option<Seq<Seq<char>>>
    decreases fuel,
{
    match cur {
        None => Some(Seq::empty()),
        Some(h) => if fuel == 0 {
            Some(Seq::empty())
        } else {
            match stored(objects, h) {
                Some((ObjectType::Commit, b)) => if vstd::utf8::valid_utf8(b) {
                    let t = vstd::utf8::decode_utf8(b);
                    match history(objects, header_value(t, parent_key()), (fuel - 1) as nat) {
                        Some(rest) => Some(seq![t] + rest),
                        None => None,
                    }
                } else {
                    None
                },
                _ => None,
            }
        },
    }
}

/// Texts as sequences of characters.
pub open spec fn texts_view(v: Seq<String>) -> Seq<Seq<char>> {
    v.map_values(|t: String| t@)
}

/// Paths and contents as text and bytes.
pub open spec fn files_view(v: Seq<(String, Vec<u8>)>) -> Seq<(Seq<char>, Seq<u8>)> {
    v.map_values(|p: (String, Vec<u8>)| (p.0@, p.1@))
}

proof fn lemma_stored(objects: Map<Seq<char>, Vec<u8>>, h: Seq<char>)
    ensures
        stored(objects, h) matches Some(kp) ==> holds(objects, h, kp.0, kp.1),
{
}

proof fn lemma_files_of_tree_unfold(objects: Map<Seq<char>, Vec<u8>>, tree: Seq<char>, prefix: Seq<char>, fuel: nat)
    requires
        files_of_tree(objects, tree, prefix, fuel) is Some,
    ensures
        stored(objects, tree) is Some,
        (stored(objects, tree)->0).0 == ObjectType::Tree,
        holds(objects, tree, ObjectType::Tree, (stored(objects, tree)->0).1),
        parse_entries((stored(objects, tree)->0).1) is Some,
        forall|i: int| 0 <= i < parse_entries((stored(objects, tree)->0).1)->0.len() ==> fields_are_text(#[trigger] parse_entries((stored(objects, tree)->0).1)->0[i]),
        files_of_fields(objects, parse_entries((stored(objects, tree)->0).1)->0, prefix, fuel) == files_of_tree(objects, tree, prefix, fuel),
{
    lemma_stored(objects, tree);
}

proof fn lemma_files_prefix(
    objects: Map<Seq<char>, Vec<u8>>,
    fields: Seq<(Seq<u8>, Seq<u8>, Seq<u8>)>,
    prefix: Seq<char>,
    fuel: nat,
    i: int,
)
    requires
        0 <= i <= fields.len(),
        files_of_fields(objects, fields, prefix, fuel) is Some,
    ensures
        files_of_fields(objects, fields.subrange(0, i), prefix, fuel) is Some,
    decreases fields.len() - i,
{
    if i == fields.len() {
        assert(fields.subrange(0, i) =~= fields);
    } else {
        lemma_files_prefix(objects, fields, prefix, fuel, i + 1);
        assert(fields.subrange(0, i + 1).drop_last() =~= fields.subrange(0, i));
    }
}

/// `new` is `old` after a commit `h` of the staged changes at the given time:
/// a tree built from the index and the commit are stored, the branch points at
/// the commit, the index is empty, and HEAD and the configuration are kept.
pub open spec fn commit_recorded(old: Repository, new: Repository, h: String, seconds: int, offset: Seq<char>, message: Seq<char>) -> bool {
    &&& new.index@ == Map::<Seq<char>, String>::empty()
    &&& head_branch(old.head@) is Some
    &&& new.refs@ == old.refs@.insert(head_branch(old.head@)->0, Some(h))
    &&& new.tip() == Some(h)
    &&& is_object_hash(h@)
    &&& new.head == old.head
    &&& new.config == old.config
    &&& new.work_tree == old.work_tree
    &&& new.store_dir == old.store_dir
    &&& new.listed()
    &&& old.config.user_name is Some && old.config.user_email is Some
    &&& exists|tree: Seq<char>, entries: Seq<TreeEntry>, c: Seq<u8>|
        #![trigger entries_of_index(entries, old.index.map.pairs(), old.objects@), is_tree_content_of(c, entries), is_object_hash(tree)]
    {
        let bytes = commit_bytes(
            tree,
            opt_view(old.tip()),
            old.config.user_name->0@,
            old.config.user_email->0@,
            seconds,
            offset,
            message,
        );
        &&& entries_of_index(entries, old.index.map.pairs(), old.objects@)
        &&& is_tree_content_of(c, entries)
        &&& tree == hash_text(envelope(ObjectType::Tree, c))
        &&& is_object_hash(tree)
        &&& (h@ != tree ==> holds(new.objects@, tree, ObjectType::Tree, c))
        &&& h@ == hash_text(envelope(ObjectType::Commit, bytes))
        &&& holds(new.objects@, h@, ObjectType::Commit, bytes)
        &&& new.objects@.dom() == old.objects@.dom().insert(tree).insert(h@)
        &&& forall|x: Seq<char>| x != tree && x != h@ && #[trigger] old.objects@.contains_key(x) ==> new.objects@[x] == old.objects@[x]
    }
}

/// A commit made on top of a tip records that tip in its `parent` header, and
/// its `tree` header names the tree built from the index.
pub proof fn lemma_commit_names_parent(old: Repository, new: Repository, h: String, seconds: int, offset: Seq<char>, message: Seq<char>)
    requires
        commit_recorded(old, new, h, seconds, offset, message),
        old.tip() matches Some(p) ==> is_object_hash(p@),
        forall|j: int| 0 <= j < old.config.user_name->0@.len() ==> old.config.user_name->0@[j] != '\n',
        forall|j: int| 0 <= j < old.config.user_email->0@.len() ==> old.config.user_email->0@[j] != '\n',
        forall|j: int| 0 <= j < offset.len() ==> offset[j] != '\n',
    ensures
        exists|t: Seq<char>, tree: Seq<char>|
            #![trigger header_value(t, tree_key()), is_object_hash(tree)]
            holds(new.objects@, h@, ObjectType::Commit, vstd::utf8::encode_utf8(t))
                && header_value(t, parent_key()) == opt_view(old.tip())
                && header_value(t, tree_key()) == Some(tree) && is_object_hash(tree),
{
    let (tree, entries, c) = choose|tree: Seq<char>, entries: Seq<TreeEntry>, c: Seq<u8>|
        #![trigger entries_of_index(entries, old.index.map.pairs(), old.objects@), is_tree_content_of(c, entries), is_object_hash(tree)]
    {
        let bytes = commit_bytes(
            tree,
            opt_view(old.tip()),
            old.config.user_name->0@,
            old.config.user_email->0@,
            seconds,
            offset,
            message,
        );
        &&& entries_of_index(entries, old.index.map.pairs(), old.objects@)
        &&& is_tree_content_of(c, entries)
        &&& tree == hash_text(envelope(ObjectType::Tree, c))
        &&& is_object_hash(tree)
        &&& (h@ != tree ==> holds(new.objects@, tree, ObjectType::Tree, c))
        &&& h@ == hash_text(envelope(ObjectType::Commit, bytes))
        &&& holds(new.objects@, h@, ObjectType::Commit, bytes)
        &&& new.objects@.dom() == old.objects@.dom().insert(tree).insert(h@)
        &&& forall|x: Seq<char>| x != tree && x != h@ && #[trigger] old.objects@.contains_key(x) ==> new.objects@[x] == old.objects@[x]
    };
    let t = commit_body(tree, opt_view(old.tip()), old.config.user_name->0@, old.config.user_email->0@, seconds, offset, message);
    lemma_commit_headers(tree, opt_view(old.tip()), old.config.user_name->0@, old.config.user_email->0@, seconds, offset, message);
    assert(header_value(t, tree_key()) == Some(tree));
}

/// The text of an optional text.
pub open spec fn opt_view(o: Option<String>) -> Option<Seq<char>> {
    match o {
        Some(s) => Some(s@),
        None => None,
    }
}

/// The tree built from the index reads back as the staged entries: for each
/// staged path, its mode, final name and hash, in canonical order.
pub proof fn lemma_index_tree_round_trip(
    entries: Seq<TreeEntry>,
    staged: Seq<(String, String)>,
    objects: Map<Seq<char>, Vec<u8>>,
    c: Seq<u8>,
)
    requires
        entries_of_index(entries, staged, objects),
        is_tree_content_of(c, entries),
        forall|i: int| 0 <= i < staged.len() ==> !vstd::utf8::encode_utf8(last_component(#[trigger] staged[i].0@)).contains(0u8),
    ensures
        exists|s: Seq<TreeEntry>|
            s.to_multiset() == entries.to_multiset() && key_sorted(s) && parse_entries(c) == Some(
                s.map_values(|e: TreeEntry| fields_of(e)),
            ),
{
    assert forall|i: int| 0 <= i < entries.len() implies entry_well_formed(#[trigger] entries[i]) by {
        let m = vstd::utf8::encode_utf8(entries[i].mode@);
        vstd::utf8::is_ascii_chars_encode_utf8(entries[i].mode@);
        assert(!m.contains(32u8)) by {
            if m.contains(32u8) {
                let j = choose|j: int| 0 <= j < m.len() && m[j] == 32u8;
                assert(entries[i].mode@[j] as u8 == m[j]);
            }
        }
        assert(staged[i].0@ == staged[i].0@);
    }
    lemma_tree_round_trip(entries, c);
}

/// The mode of a regular file: `100755` when any execute bit is set, else `100644`.
pub open spec fn file_mode_text(permissions: u32) -> Seq<char> {
    if permissions & 0o111u32 != 0 {
        seq!['1', '0', '0', '7', '5', '5']
    } else {
        seq!['1', '0', '0', '6', '4', '4']
    }
}

/// The mode recorded for a regular file with the given permission bits.
pub fn file_mode(permissions: u32) -> (r: String)
    ensures
        r@ == file_mode_text(permissions),
{
    let r = if permissions & 0o111u32 != 0 {
        lit(vec![49u8, 48, 48, 55, 53, 53])
    } else {
        lit(vec![49u8, 48, 48, 54, 52, 52])
    };
    proof {
        assert(r@ =~= file_mode_text(permissions));
    }
    r
}

fn clone_tip(t: &Option<String>) -> (r: Option<String>)
    ensures
        r == *t,
{
    match t {
        Some(h) => Some(h.clone()),
        None => None,
    }
}

impl Repository {
    /// The maps are well formed.
    pub open spec fn wf(&self) -> bool {
        self.index.wf() && self.refs.wf() && self.objects.wf()
    }

    /// `branches` lists `refs`, in order, for the current HEAD.
    pub open spec fn listed(&self) -> bool {
        &&& self.branches@.len() == self.refs.pairs().len()
        &&& forall|i: int|
            0 <= i < self.branches@.len() ==> branch_matches(#[trigger] self.branches@[i], self.refs.pairs()[i], self.head@)
    }

    /// The tip commit of the current branch, if it has one.
    pub open spec fn tip(&self) -> Option<String> {
        match head_branch(self.head@) {
            Some(b) => if self.refs@.contains_key(b) {
                self.refs@[b]
            } else {
                None
            },
            None => None,
        }
    }

    /// The current branch's name.
    pub fn branch_name(&self) -> (r: Option<String>)
        ensures
            match r {
                Some(n) => head_branch(self.head@) == Some(n@),
                None => head_branch(self.head@) is None,
            },
    {
        let p = heads_text();
        strip_prefix(self.head.as_str(), p.as_str())
    }

    /// The tip commit of the current branch.
    pub fn head_commit(&self) -> (r: Option<String>)
        requires
            self.wf(),
        ensures
            r == self.tip(),
    {
        match self.branch_name() {
            Some(b) => match self.refs.get(b.as_str()) {
                Some(t) => clone_tip(t),
                None => None,
            },
            None => None,
        }
    }

    /// Whether changes are staged.
    pub fn has_uncommitted_changes(&self) -> (r: bool)
        requires
            self.wf(),
        ensures
            r == (self.index@ != Map::<Seq<char>, String>::empty()),
    {
        !self.index.is_empty()
    }

    /// Rebuilds the branch list from the refs and HEAD.
    pub fn load_branches(&mut self)
        requires
            old(self).wf(),
        ensures
            final(self).wf(),
            final(self).listed(),
            final(self).refs == old(self).refs,
            final(self).head == old(self).head,
            final(self).index == old(self).index,
            final(self).objects == old(self).objects,
            final(self).config == old(self).config,
            final(self).work_tree == old(self).work_tree,
            final(self).store_dir == old(self).store_dir,
    {
        let current = self.branch_name();
        let prefix = heads_text();
        let mut branches: Vec<Branch> = Vec::new();
        let n = self.refs.len();
        let mut i: usize = 0;
        while i < n
            invariant
                n == self.refs.pairs().len(),
                i <= n,
                branches@.len() == i,
                prefix@ == heads_prefix(),
                match current {
                    Some(c) => head_branch(self.head@) == Some(c@),
                    None => head_branch(self.head@) is None,
                },
                forall|j: int| 0 <= j < i ==> branch_matches(#[trigger] branches@[j], self.refs.pairs()[j], self.head@),
            decreases n - i,
        {
            let name = self.refs.key_at(i);
            let is_current = match &current {
                Some(c) => text_eq(name.as_str(), c.as_str()),
                None => false,
            };
            let b = Branch {
                name: copy_text(name.as_str()),
                is_current,
                last_commit_hash: clone_tip(self.refs.value_at(i)),
                ref_path: join_text(prefix.as_str(), name.as_str()),
            };
            branches.push(b);
            i = i + 1;
        }
        self.branches = branches;
    }

    /// A new repository: an empty `main` branch checked out, nothing staged,
    /// no identity configured, no objects. Refused when one exists already,
    /// unless `force` is given.
    pub fn init(work_tree: String, store_dir: String, already_initialized: bool, force: bool) -> (r: Result<Repository, FluxError>)
        ensures
            already_initialized && !force ==> r == Err::<Repository, FluxError>(FluxError::AlreadyInitialized),
            !(already_initialized && !force) ==> match r {
                Ok(repo) => {
                    &&& repo.wf()
                    &&& repo.listed()
                    &&& repo.work_tree == work_tree
                    &&& repo.store_dir == store_dir
                    &&& repo.head@ == heads_prefix() + seq!['m', 'a', 'i', 'n']
                    &&& repo.refs@ == Map::<Seq<char>, Option<String>>::empty().insert(seq!['m', 'a', 'i', 'n'], None)
                    &&& repo.index@ == Map::<Seq<char>, String>::empty()
                    &&& repo.objects@ == Map::<Seq<char>, Vec<u8>>::empty()
                    &&& repo.config.user_name is None && repo.config.user_email is None
                },
                Err(_) => false,
            },
    {
        if already_initialized && !force {
            return Err(FluxError::AlreadyInitialized);
        }
        let main = lit(vec![109u8, 97, 105, 110]);
        proof {
            assert(main@ =~= seq!['m', 'a', 'i', 'n']);
        }
        let head = join_text(heads_text().as_str(), main.as_str());
        let mut refs: TextMap<Option<String>> = TextMap::new();
        refs.insert(main, None);
        let mut repo = Repository {
            work_tree,
            store_dir,
            config: Config::new(),
            index: Index::empty(),
            head,
            branches: Vec::new(),
            refs,
            objects: TextMap::new(),
        };
        repo.load_branches();
        Ok(repo)
    }

    /// A repository from the parts read from its metadata directory. Refused
    /// when there is none, or when HEAD does not name a branch (`ref: <ref>`).
    pub fn open(
        work_tree: String,
        store_dir: String,
        is_repository: bool,
        config: Config,
        index: Index,
        head_file: &str,
        refs: TextMap<Option<String>>,
        objects: ObjectStore,
    ) -> (r: Result<Repository, FluxError>)
        requires
            index.wf(),
            refs.wf(),
            objects.wf(),
        ensures
            !is_repository ==> r == Err::<Repository, FluxError>(FluxError::NotARepository),
            is_repository && !head_names_branch(head_file@) ==> r == Err::<Repository, FluxError>(FluxError::DetachedHeadUnsupported),
            is_repository && head_names_branch(head_file@) ==> match r {
                Ok(repo) => {
                    &&& repo.wf()
                    &&& head_branch(repo.head@) is Some
                    &&& repo.listed()
                    &&& repo.head@ == trim(head_file@).subrange(5, trim(head_file@).len() as int)
                    &&& repo.refs == refs
                    &&& repo.index == index
                    &&& repo.objects == objects
                    &&& repo.config == config
                    &&& repo.work_tree == work_tree
                    &&& repo.store_dir == store_dir
                },
                Err(_) => false,
            },
    {
        if !is_repository {
            return Err(FluxError::NotARepository);
        }
        let marker = lit(vec![114u8, 101, 102, 58, 32]);
        proof {
            assert(marker@ =~= ref_marker());
        }
        if strip_prefix(head_file, marker.as_str()).is_none() {
            return Err(FluxError::DetachedHeadUnsupported);
        }
        let t = crate::commit::trimmed(head_file, 0, head_file.unicode_len());
        proof {
            assert(head_file@.subrange(0, head_file@.len() as int) =~= head_file@);
        }
        let head = match strip_prefix(t.as_str(), marker.as_str()) {
            Some(h) => h,
            None => return Err(FluxError::DetachedHeadUnsupported),
        };
        if strip_prefix(head.as_str(), heads_text().as_str()).is_none() {
            return Err(FluxError::DetachedHeadUnsupported);
        }
        let mut repo = Repository { work_tree, store_dir, config, index, head, branches: Vec::new(), refs, objects };
        repo.load_branches();
        Ok(repo)
    }

    /// Sets a configuration value (`user_name` or `user_email`).
    pub fn set(&mut self, key: String, value: String)
        ensures
            key@ == crate::config::user_name_key() ==> final(self).config.user_name == Some(value) && final(self).config.user_email == old(self).config.user_email,
            key@ == crate::config::user_email_key() ==> final(self).config.user_email == Some(value) && final(self).config.user_name == old(self).config.user_name,
            key@ != crate::config::user_name_key() && key@ != crate::config::user_email_key() ==> final(self).config == old(self).config,
            final(self).index == old(self).index,
            final(self).refs == old(self).refs,
            final(self).head == old(self).head,
            final(self).objects == old(self).objects,
            final(self).branches == old(self).branches,
    {
        self.config.set(key.as_str(), value);
    }

    /// Creates a branch at the current tip and checks it out. Refused when a
    /// branch of that name exists.
    pub fn new_branch(&mut self, branch_name: &str) -> (r: Result<(), FluxError>)
        requires
            old(self).wf(),
        ensures
            final(self).wf(),
            old(self).refs@.contains_key(branch_name@) ==> r == Err::<(), FluxError>(FluxError::BranchExists) && *final(self) == *old(self),
            !old(self).refs@.contains_key(branch_name@) ==> {
                &&& r is Ok
                &&& final(self).refs@ == old(self).refs@.insert(branch_name@, old(self).tip())
                &&& final(self).head@ == heads_prefix() + branch_name@
                &&& final(self).tip() == old(self).tip()
                &&& final(self).listed()
                &&& final(self).index == old(self).index
                &&& final(self).objects == old(self).objects
                &&& final(self).config == old(self).config
            },
    {
        if self.refs.contains(branch_name) {
            return Err(FluxError::BranchExists);
        }
        let tip = self.head_commit();
        self.refs.insert(copy_text(branch_name), tip);
        self.head = join_text(heads_text().as_str(), branch_name);
        proof {
            lemma_head_of(branch_name@);
        }
        self.load_branches();
        Ok(())
    }

    /// Checks out another branch: HEAD then names it, and the result is the
    /// commit whose tree the working tree is to hold (`None`: an empty tree).
    /// Refused for an unknown branch, and while changes are staged unless `force`.
    pub fn switch_branch(&mut self, branch_name: &str, force: bool) -> (r: Result<Option<String>, FluxError>)
        requires
            old(self).wf(),
        ensures
            final(self).wf(),
            !old(self).refs@.contains_key(branch_name@) ==> r == Err::<Option<String>, FluxError>(FluxError::BranchNotFound) && *final(self) == *old(self),
            old(self).refs@.contains_key(branch_name@) && old(self).index@ != Map::<Seq<char>, String>::empty() && !force
                ==> r == Err::<Option<String>, FluxError>(FluxError::UncommittedChanges) && *final(self) == *old(self),
            old(self).refs@.contains_key(branch_name@) && (old(self).index@ == Map::<Seq<char>, String>::empty() || force) ==> {
                &&& r == Ok::<Option<String>, FluxError>(old(self).refs@[branch_name@])
                &&& final(self).head@ == heads_prefix() + branch_name@
                &&& final(self).tip() == old(self).refs@[branch_name@]
                &&& final(self).listed()
                &&& final(self).refs == old(self).refs
                &&& final(self).index == old(self).index
                &&& final(self).objects == old(self).objects
                &&& final(self).config == old(self).config
            },
    {
        if !self.refs.contains(branch_name) {
            return Err(FluxError::BranchNotFound);
        }
        if self.has_uncommitted_changes() && !force {
            return Err(FluxError::UncommittedChanges);
        }
        self.head = join_text(heads_text().as_str(), branch_name);
        proof {
            lemma_head_of(branch_name@);
        }
        self.load_branches();
        Ok(self.head_commit())
    }

    /// One line per branch, `(*) ` before the current one and four spaces before the others.
    pub fn list_branches(&self) -> (r: Vec<String>)
        ensures
            r@.len() == self.branches@.len(),
            forall|i: int| 0 <= i < r@.len() ==> (#[trigger] r@[i])@ == branch_line(self.branches@[i]),
    {
        let cur = lit(vec![40u8, 42, 41, 32]);
        let other = lit(vec![32u8, 32, 32, 32]);
        proof {
            assert(cur@ =~= seq!['(', '*', ')', ' ']);
            assert(other@ =~= seq![' ', ' ', ' ', ' ']);
        }
        let mut out: Vec<String> = Vec::new();
        let mut i: usize = 0;
        while i < self.branches.len()
            invariant
                i <= self.branches@.len(),
                out@.len() == i,
                cur@ == seq!['(', '*', ')', ' '],
                other@ == seq![' ', ' ', ' ', ' '],
                forall|j: int| 0 <= j < i ==> (#[trigger] out@[j])@ == branch_line(self.branches@[j]),
            decreases self.branches@.len() - i,
        {
            let b = &self.branches[i];
            let line = if b.is_current {
                join_text(cur.as_str(), b.name.as_str())
            } else {
                join_text(other.as_str(), b.name.as_str())
            };
            out.push(line);
            i = i + 1;
        }
        out
    }

    /// The branch overview, one line per branch, `(*) ` marking the current one.
    pub fn show_branches(&self) -> (r: String)
        ensures
            r@ == branches_text(self.branches@),
    {
        let cur = lit(vec![40u8, 42, 41, 32]);
        let other = lit(vec![32u8, 32]);
        let nl = lit(vec![10u8]);
        let mut out = lit(Vec::new());
        proof {
            assert(cur@ =~= seq!['(', '*', ')', ' ']);
            assert(other@ =~= seq![' ', ' ']);
            assert(nl@ =~= seq!['\n']);
            assert(out@ =~= Seq::<char>::empty());
            assert(self.branches@.subrange(0, 0) =~= Seq::<Branch>::empty());
        }
        let mut i: usize = 0;
        while i < self.branches.len()
            invariant
                i <= self.branches@.len(),
                cur@ == seq!['(', '*', ')', ' '],
                other@ == seq![' ', ' '],
                nl@ == seq!['\n'],
                out@ == branches_text(self.branches@.subrange(0, i as int)),
            decreases self.branches@.len() - i,
        {
            let b = &self.branches[i];
            if b.is_current {
                out.append(cur.as_str());
            } else {
                out.append(other.as_str());
            }
            out.append(b.name.as_str());
            out.append(nl.as_str());
            proof {
                let s1 = self.branches@.subrange(0, i + 1);
                assert(s1.drop_last() =~= self.branches@.subrange(0, i as int));
                assert(out@ =~= branches_text(s1));
            }
            i = i + 1;
        }
        proof {
            assert(self.branches@.subrange(0, self.branches@.len() as int) =~= self.branches@);
        }
        out
    }

    /// Encodes file content as a blob and stores it when `write` is set.
    pub fn hash_object(&mut self, content: Vec<u8>, write: bool) -> (r: String)
        requires
            old(self).wf(),
        ensures
            final(self).wf(),
            r@ == hash_text(envelope(ObjectType::Blob, content@)),
            write ==> holds(final(self).objects@, r@, ObjectType::Blob, content@) && final(self).objects@ == old(self).objects@.insert(r@, final(self).objects@[r@]),
            !write ==> final(self).objects == old(self).objects,
            final(self).index == old(self).index,
            final(self).refs == old(self).refs,
            final(self).head == old(self).head,
    {
        let res = hash_blob(content);
        if write {
            store_object(&mut self.objects, res)
        } else {
            res.object_hash
        }
    }

    /// Stores a file of a directory being written as a tree, and gives its entry.
    pub fn file_entry(&mut self, name: String, content: Vec<u8>, permissions: u32) -> (r: TreeEntry)
        requires
            old(self).wf(),
        ensures
            final(self).wf(),
            r.name == name,
            r.mode@ == file_mode_text(permissions),
            r.entry_type@ == seq!['b', 'l', 'o', 'b'],
            r.hash@ == hash_text(envelope(ObjectType::Blob, content@)),
            is_object_hash(r.hash@),
            holds(final(self).objects@, r.hash@, ObjectType::Blob, content@),
            final(self).objects@ == old(self).objects@.insert(r.hash@, final(self).objects@[r.hash@]),
            final(self).index == old(self).index,
            final(self).refs == old(self).refs,
            final(self).head == old(self).head,
    {
        let res = hash_blob(content);
        let hash = store_object(&mut self.objects, res);
        let entry_type = lit(vec![98u8, 108, 111, 98]);
        proof {
            assert(entry_type@ =~= seq!['b', 'l', 'o', 'b']);
        }
        TreeEntry { mode: file_mode(permissions), entry_type, hash, name }
    }

    /// The entry of a subdirectory already stored as the tree `hash`.
    pub fn dir_entry(name: String, hash: String) -> (r: TreeEntry)
        ensures
            r.name == name,
            r.hash == hash,
            r.mode@ == mode_of_kind(ObjectType::Tree),
            r.entry_type@ == seq!['t', 'r', 'e', 'e'],
    {
        let mode = lit(vec![48u8, 52, 48, 48, 48, 48]);
        let entry_type = lit(vec![116u8, 114, 101, 101]);
        proof {
            assert(mode@ =~= mode_of_kind(ObjectType::Tree));
            assert(entry_type@ =~= seq!['t', 'r', 'e', 'e']);
        }
        TreeEntry { mode, entry_type, hash, name }
    }

    /// Stages one file: stores its content as a blob and records it under `path`.
    pub fn add_file(&mut self, path: String, content: Vec<u8>) -> (r: String)
        requires
            old(self).wf(),
        ensures
            final(self).wf(),
            r@ == hash_text(envelope(ObjectType::Blob, content@)),
            is_object_hash(r@),
            holds(final(self).objects@, r@, ObjectType::Blob, content@),
            final(self).objects@ == old(self).objects@.insert(r@, final(self).objects@[r@]),
            final(self).index@.dom() == old(self).index@.dom().insert(path@),
            final(self).index@[path@]@ == r@,
            forall|k: Seq<char>| k != path@ ==> #[trigger] final(self).index@.contains_key(k) ==> final(self).index@[k] == old(self).index@[k],
            staged_readable(old(self).index@, old(self).objects@) ==> staged_readable(final(self).index@, final(self).objects@),
            forall|x: Seq<char>| readable_at(old(self).objects@, x) ==> readable_at(final(self).objects@, x),
            forall|x: Seq<char>| blob_at(old(self).objects@, x) ==> blob_at(final(self).objects@, x),
            forall|x: Seq<char>| old(self).objects@.contains_key(x) ==> final(self).objects@.contains_key(x),
            final(self).refs == old(self).refs,
            final(self).head == old(self).head,
            final(self).config == old(self).config,
            final(self).branches == old(self).branches,
            final(self).work_tree == old(self).work_tree,
            final(self).store_dir == old(self).store_dir,
    {
        let ghost old_objects = self.objects@;
        let ghost old_index = self.index@;
        let ghost cv = content@;
        let res = hash_blob(content);
        let h = store_object(&mut self.objects, res);
        let r = copy_text(h.as_str());
        self.index.add(path, h);
        proof {
            lemma_write_keeps(old_objects, self.objects@, r@, ObjectType::Blob, cv);
            if staged_readable(old_index, old_objects) {
                assert forall|k: Seq<char>| #[trigger] self.index@.contains_key(k) implies is_object_hash(self.index@[k]@) && readable_at(self.objects@, self.index@[k]@) by {
                    if k != path@ {
                        assert(old_index.contains_key(k));
                    }
                }
            }
        }
        r
    }

    /// Stages files, each under its repository-relative path; a path given
    /// twice keeps the later content.
    pub fn add(&mut self, files: Vec<(String, Vec<u8>)>)
        requires
            old(self).wf(),
        ensures
            final(self).wf(),
            forall|k: Seq<char>| #[trigger] final(self).index@.contains_key(k) <==> (old(self).index@.contains_key(k) || exists|i: int| 0 <= i < files@.len() && files@[i].0@ == k),
            forall|i: int| 0 <= i < files@.len() && (forall|j: int| i < j < files@.len() ==> files@[j].0@ != files@[i].0@) ==>
                final(self).index@[(#[trigger] files@[i]).0@]@ == hash_text(envelope(ObjectType::Blob, files@[i].1@)),
            forall|k: Seq<char>| (forall|i: int| 0 <= i < files@.len() ==> files@[i].0@ != k) ==> #[trigger] final(self).index@.contains_key(k) ==> final(self).index@[k] == old(self).index@[k],
            forall|i: int| 0 <= i < files@.len() ==> blob_at(final(self).objects@, hash_text(envelope(ObjectType::Blob, (#[trigger] files@[i]).1@))),
            staged_readable(old(self).index@, old(self).objects@) ==> staged_readable(final(self).index@, final(self).objects@),
            forall|x: Seq<char>| readable_at(old(self).objects@, x) ==> readable_at(final(self).objects@, x),
            forall|x: Seq<char>| old(self).objects@.contains_key(x) ==> final(self).objects@.contains_key(x),
            final(self).refs == old(self).refs,
            final(self).head == old(self).head,
            final(self).config == old(self).config,
            final(self).work_tree == old(self).work_tree,
            final(self).store_dir == old(self).store_dir,
    {
        let ghost old_objects = self.objects@;
        let ghost f = files@;
        let ghost old_index = self.index@;
        let mut rest = files;
        let mut done: usize = 0;
        let n = rest.len();
        proof {
            assert(rest@ =~= f.subrange(0, f.len() as int));
        }
        while rest.len() > 0
            invariant
                self.wf(),
                n == f.len(),
                done <= n,
                rest@ == f.subrange(done as int, n as int),
                forall|k: Seq<char>| #[trigger] self.index@.contains_key(k) <==> (old_index.contains_key(k) || exists|i: int| 0 <= i < done && f[i].0@ == k),
                forall|i: int| 0 <= i < done && (forall|j: int| i < j < done ==> f[j].0@ != f[i].0@) ==>
                    self.index@[(#[trigger] f[i]).0@]@ == hash_text(envelope(ObjectType::Blob, f[i].1@)),
                forall|k: Seq<char>| (forall|i: int| 0 <= i < done ==> f[i].0@ != k) ==> #[trigger] self.index@.contains_key(k) ==> self.index@[k] == old_index[k],
                forall|i: int| 0 <= i < done ==> blob_at(self.objects@, hash_text(envelope(ObjectType::Blob, (#[trigger] f[i]).1@))),
                staged_readable(old_index, old_objects) ==> staged_readable(self.index@, self.objects@),
                forall|x: Seq<char>| readable_at(old_objects, x) ==> readable_at(self.objects@, x),
                forall|x: Seq<char>| old_objects.contains_key(x) ==> self.objects@.contains_key(x),
                old_index == old(self).index@,
                old_objects == old(self).objects@,
                self.refs == old(self).refs,
                self.head == old(self).head,
                self.config == old(self).config,
                self.work_tree == old(self).work_tree,
                self.store_dir == old(self).store_dir,
            decreases n - done,
        {
            let (path, content) = rest.remove(0);
            let ghost pv = path@;
            let ghost prev = self.index@;
            let ghost cv = content@;
            proof {
                assert(f[done as int] == (path, content));
            }
            let h = self.add_file(path, content);
            proof {
                assert(holds(self.objects@, h@, ObjectType::Blob, cv));
                assert forall|i: int| 0 <= i < done + 1 implies blob_at(self.objects@, hash_text(envelope(ObjectType::Blob, (#[trigger] f[i]).1@))) by {
                    if i == done {
                        assert(holds(self.objects@, h@, ObjectType::Blob, cv));
                    }
                }
                assert(rest@ =~= f.subrange(done + 1, n as int));
                assert forall|k: Seq<char>| #[trigger] self.index@.contains_key(k) <==> (old_index.contains_key(k) || exists|i: int| 0 <= i < done + 1 && f[i].0@ == k) by {
                    if k == pv {
                        assert(f[done as int].0@ == k);
                    } else if prev.contains_key(k) && !old_index.contains_key(k) {
                        let i = choose|i: int| 0 <= i < done && f[i].0@ == k;
                    }
                }
                assert forall|i: int| 0 <= i < done + 1 && (forall|j: int| i < j < done + 1 ==> f[j].0@ != f[i].0@) implies
                    self.index@[(#[trigger] f[i]).0@]@ == hash_text(envelope(ObjectType::Blob, f[i].1@)) by {
                    if i < done {
                        assert(f[done as int].0@ != f[i].0@);
                        assert(prev.contains_key(f[i].0@));
                        assert(self.index@.dom().contains(f[i].0@));
                        assert(self.index@.contains_key(f[i].0@));
                        assert(self.index@[f[i].0@] == prev[f[i].0@]);
                        assert(forall|j: int| i < j < done ==> f[j].0@ != f[i].0@);
                    } else {
                        assert(f[i] == (path, content));
                    }
                }
                assert forall|k: Seq<char>| (forall|i: int| 0 <= i < done + 1 ==> f[i].0@ != k) && #[trigger] self.index@.contains_key(k) implies self.index@[k] == old_index[k] by {
                    assert(f[done as int].0@ != k);
                    assert(prev.contains_key(k));
                }
            }
            done = done + 1;
        }
    }

    /// Unstages `path`.
    pub fn delete(&mut self, path: &str)
        requires
            old(self).wf(),
        ensures
            final(self).wf(),
            final(self).index@ == old(self).index@.remove(path@),
            final(self).objects == old(self).objects,
            final(self).refs == old(self).refs,
            final(self).head == old(self).head,
            final(self).config == old(self).config,
            final(self).branches == old(self).branches,
    {
        self.index.remove(copy_text(path));
    }

    /// Stores a tree object for the given entries and returns its hash.
    pub fn write_tree(&mut self, entries: Vec<TreeEntry>) -> (r: String)
        requires
            old(self).wf(),
            forall|i: int| 0 <= i < entries@.len() ==> is_object_hash(#[trigger] entries@[i].hash@),
        ensures
            final(self).wf(),
            is_object_hash(r@),
            exists|c: Seq<u8>|
                is_tree_content_of(c, entries@) && r@ == hash_text(envelope(ObjectType::Tree, c)) && holds(
                    final(self).objects@,
                    r@,
                    ObjectType::Tree,
                    c,
                ),
            final(self).objects@ == old(self).objects@.insert(r@, final(self).objects@[r@]),
            final(self).index == old(self).index,
            final(self).refs == old(self).refs,
            final(self).head == old(self).head,
            final(self).config == old(self).config,
            final(self).branches == old(self).branches,
    {
        let ghost es = entries@;
        let content = build_tree_content(entries);
        let ghost c = content@;
        let res = hash_tree(content);
        store_object(&mut self.objects, res)
    }

    /// Builds and stores one tree from the staged entries, each named by the
    /// final component of its path. Staged paths in subdirectories are not
    /// nested: the tree has one level.
    pub fn tree_from_index(&mut self) -> (r: Result<String, FluxError>)
        requires
            old(self).wf(),
        ensures
            final(self).wf(),
            final(self).index == old(self).index,
            final(self).refs == old(self).refs,
            final(self).head == old(self).head,
            final(self).config == old(self).config,
            final(self).branches == old(self).branches,
            final(self).work_tree == old(self).work_tree,
            final(self).store_dir == old(self).store_dir,
            r is Err ==> *final(self) == *old(self),
            r is Err ==> (r->Err_0 == FluxError::ObjectNotFound || r->Err_0 == FluxError::CorruptObject
                || r->Err_0 == FluxError::MalformedObject || r->Err_0 == FluxError::WrongObjectType),
            staged_readable(old(self).index@, old(self).objects@) ==> r is Ok,
            r is Ok ==> forall|i: int| 0 <= i < old(self).index.map.pairs().len() ==> {
                &&& old(self).objects@.contains_key(#[trigger] old(self).index.map.pairs()[i].1@)
                &&& forall|p: Seq<u8>| !holds(old(self).objects@, old(self).index.map.pairs()[i].1@, ObjectType::Commit, p)
            },
            r is Ok ==> {
                &&& is_object_hash(r->Ok_0@)
                &&& exists|entries: Seq<TreeEntry>, c: Seq<u8>| {
                    &&& entries_of_index(entries, old(self).index.map.pairs(), old(self).objects@)
                    &&& is_tree_content_of(c, entries)
                    &&& r->Ok_0@ == hash_text(envelope(ObjectType::Tree, c))
                    &&& holds(final(self).objects@, r->Ok_0@, ObjectType::Tree, c)
                }
                &&& final(self).objects@ == old(self).objects@.insert(r->Ok_0@, final(self).objects@[r->Ok_0@])
                &&& forall|x: Seq<char>| readable_at(old(self).objects@, x) ==> readable_at(final(self).objects@, x)
            },
    {
        let n = self.index.map.len();
        let ghost readable = staged_readable(self.index@, self.objects@);
        let mut entries: Vec<TreeEntry> = Vec::new();
        let mut i: usize = 0;
        while i < n
            invariant
                self.wf(),
                *self == *old(self),
                readable == staged_readable(self.index@, self.objects@),
                n == self.index.map.pairs().len(),
                i <= n,
                entries@.len() == i,
                forall|j: int| 0 <= j < i ==> is_object_hash(#[trigger] entries@[j].hash@),
                forall|j: int| 0 <= j < i ==> self.objects@.contains_key(#[trigger] self.index.map.pairs()[j].1@),
                forall|j: int| 0 <= j < i ==> {
                    &&& (#[trigger] entries@[j]).hash@ == self.index.map.pairs()[j].1@
                    &&& entries@[j].name@ == last_component(self.index.map.pairs()[j].0@)
                    &&& (entries@[j].mode@ == mode_of_kind(ObjectType::Blob) || entries@[j].mode@ == mode_of_kind(ObjectType::Tree))
                    &&& forall|k: ObjectType, p: Seq<u8>| #[trigger] holds(self.objects@, self.index.map.pairs()[j].1@, k, p) ==> entries@[j].mode@ == mode_of_kind(k)
                    &&& forall|p: Seq<u8>| !holds(self.objects@, self.index.map.pairs()[j].1@, ObjectType::Commit, p)
                },
            decreases n - i,
        {
            let path = self.index.map.key_at(i);
            let hash = self.index.map.value_at(i);
            proof {
                self.index.map.lemma_view();
                if readable {
                    let key = self.index.map.pairs()[i as int].0@;
                    assert(self.index@.contains_key(key));
                    assert(self.index@[key] == self.index.map.pairs()[i as int].1);
                    assert(is_object_hash(self.index.map.pairs()[i as int].1@));
                }
            }
            if !is_hash_text(hash.as_str()) {
                return Err(FluxError::ObjectNotFound);
            }
            let obj = read_object(&self.objects, hash.as_str())?;
            proof {
                if readable {
                    let key = self.index.map.pairs()[i as int].0@;
                    assert(self.index@.contains_key(key));
                    assert(readable_at(self.objects@, self.index@[key]@));
                    let (k, p) = choose|k: ObjectType, p: Seq<u8>| k != ObjectType::Commit && holds(self.objects@, self.index.map.pairs()[i as int].1@, k, p);
                    assert(obj.object_type == k);
                }
            }
            let tree = match obj.object_type {
                ObjectType::Blob => false,
                ObjectType::Tree => true,
                ObjectType::Commit => return Err(FluxError::WrongObjectType),
            };
            let mode = if tree {
                lit(vec![48u8, 52, 48, 48, 48, 48])
            } else {
                lit(vec![49u8, 48, 48, 54, 52, 52])
            };
            let entry_type = if tree {
                lit(vec![116u8, 114, 101, 101])
            } else {
                lit(vec![98u8, 108, 111, 98])
            };
            proof {
                assert(mode@ =~= mode_of_kind(obj.object_type));
                assert(mode@ == mode_of_kind(ObjectType::Blob) || mode@ == mode_of_kind(ObjectType::Tree));
            }
            let e = TreeEntry { mode, entry_type, hash: copy_text(hash.as_str()), name: file_name(path.as_str()) };
            entries.push(e);
            i = i + 1;
        }
        let ghost es = entries@;
        let ghost old_objects = self.objects@;
        proof {
            assert(entries_of_index(es, self.index.map.pairs(), self.objects@));
            assert forall|j: int| 0 <= j < n implies {
                &&& old_objects.contains_key(#[trigger] self.index.map.pairs()[j].1@)
                &&& forall|p: Seq<u8>| !holds(old_objects, self.index.map.pairs()[j].1@, ObjectType::Commit, p)
            } by {
                assert(entries@[j].hash@ == self.index.map.pairs()[j].1@);
            }
        }
        let content = build_tree_content(entries);
        let ghost c = content@;
        let res = hash_tree(content);
        let h = store_object(&mut self.objects, res);
        proof {
            lemma_write_keeps(old_objects, self.objects@, h@, ObjectType::Tree, c);
        }
        Ok(h)
    }

    fn write_commit(
        &mut self,
        tree: &str,
        parent: Option<&str>,
        name: &str,
        email: &str,
        seconds: i64,
        offset: &str,
        message: &str,
    ) -> (r: String)
        requires
            old(self).wf(),
        ensures
            final(self).wf(),
            is_object_hash(r@),
            ({
                let bytes = commit_bytes(
                    tree@,
                    match parent {
                        Some(p) => Some(p@),
                        None => None,
                    },
                    name@,
                    email@,
                    seconds as int,
                    offset@,
                    message@,
                );
                r@ == hash_text(envelope(ObjectType::Commit, bytes)) && holds(final(self).objects@, r@, ObjectType::Commit, bytes)
            }),
            final(self).objects@ == old(self).objects@.insert(r@, final(self).objects@[r@]),
            final(self).index == old(self).index,
            final(self).refs == old(self).refs,
            final(self).head == old(self).head,
            final(self).config == old(self).config,
            final(self).branches == old(self).branches,
            final(self).work_tree == old(self).work_tree,
            final(self).store_dir == old(self).store_dir,
    {
        let body = commit_text(tree, parent, name, email, seconds, offset, message);
        let res = hash_object_bytes(ObjectType::Commit, body.as_str().as_bytes());
        store_object(&mut self.objects, res)
    }

    /// Creates a commit of a stored tree, at the given time, and stores it. The
    /// tree must be stored as a tree and a given parent as a commit.
    pub fn commit_tree_at(
        &mut self,
        tree_hash: String,
        message: String,
        parent_hash: Option<String>,
        seconds: i64,
        offset: &str,
    ) -> (r: Result<String, FluxError>)
        requires
            old(self).wf(),
        ensures
            final(self).wf(),
            r is Err ==> *final(self) == *old(self),
            (old(self).config.user_name is None || old(self).config.user_email is None) ==> r == Err::<String, FluxError>(FluxError::ConfigIncomplete),
            old(self).config.user_name is Some && old(self).config.user_email is Some ==> (read_result(old(self).objects@, tree_hash@) matches Err(e)
                ==> r == Err::<String, FluxError>(e)),
            old(self).config.user_name is Some && old(self).config.user_email is Some ==> (read_result(old(self).objects@, tree_hash@) matches Ok(kp)
                ==> (kp.0 != ObjectType::Tree ==> r == Err::<String, FluxError>(FluxError::WrongObjectType))),
            !old(self).objects@.contains_key(tree_hash@) ==> r is Err,
            forall|k: ObjectType, p: Seq<u8>| #[trigger] holds(old(self).objects@, tree_hash@, k, p) ==> k != ObjectType::Tree
                ==> r is Err,
            parent_hash matches Some(ph) ==> (!old(self).objects@.contains_key(ph@) ==> r is Err),
            parent_hash matches Some(ph) ==> forall|k: ObjectType, p: Seq<u8>| #[trigger] holds(old(self).objects@, ph@, k, p) ==> k != ObjectType::Commit
                ==> r is Err,
            old(self).config.user_name is Some && old(self).config.user_email is Some && (exists|p: Seq<u8>|
                holds(old(self).objects@, tree_hash@, ObjectType::Tree, p)) && (parent_hash matches Some(ph) ==> exists|q: Seq<u8>|
                holds(old(self).objects@, ph@, ObjectType::Commit, q)) ==> r is Ok,
            r is Ok ==> {
                let bytes = commit_bytes(
                    tree_hash@,
                    opt_view(parent_hash),
                    old(self).config.user_name->0@,
                    old(self).config.user_email->0@,
                    seconds as int,
                    offset@,
                    message@,
                );
                &&& is_object_hash(r->Ok_0@)
                &&& r->Ok_0@ == hash_text(envelope(ObjectType::Commit, bytes))
                &&& holds(final(self).objects@, r->Ok_0@, ObjectType::Commit, bytes)
                &&& final(self).objects@ == old(self).objects@.insert(r->Ok_0@, final(self).objects@[r->Ok_0@])
            },
            final(self).index == old(self).index,
            final(self).refs == old(self).refs,
            final(self).head == old(self).head,
            final(self).config == old(self).config,
    {
        let (user_name, user_email) = self.config.get()?;
        let object = read_object(&self.objects, tree_hash.as_str())?;
        if object.object_type != ObjectType::Tree {
            return Err(FluxError::WrongObjectType);
        }
        let parent = match &parent_hash {
            Some(p) => {
                let pobj = read_object(&self.objects, p.as_str())?;
                if pobj.object_type != ObjectType::Commit {
                    return Err(FluxError::WrongObjectType);
                }
                Some(p.as_str())
            },
            None => None,
        };
        Ok(self.write_commit(tree_hash.as_str(), parent, user_name.as_str(), user_email.as_str(), seconds, offset, message.as_str()))
    }

    /// Creates a commit of a stored tree, now, and stores it. The tree must be
    /// stored as a tree and a given parent as a commit.
    pub fn commit_tree(&mut self, tree_hash: String, message: String, parent_hash: Option<String>) -> (r: Result<String, FluxError>)
        requires
            old(self).wf(),
        ensures
            final(self).wf(),
            r is Err ==> *final(self) == *old(self),
            (old(self).config.user_name is None || old(self).config.user_email is None) ==> r == Err::<String, FluxError>(FluxError::ConfigIncomplete),
            old(self).config.user_name is Some && old(self).config.user_email is Some ==> (read_result(old(self).objects@, tree_hash@) matches Err(e)
                ==> r == Err::<String, FluxError>(e)),
            old(self).config.user_name is Some && old(self).config.user_email is Some ==> (read_result(old(self).objects@, tree_hash@) matches Ok(kp)
                ==> (kp.0 != ObjectType::Tree ==> r == Err::<String, FluxError>(FluxError::WrongObjectType))),
            !old(self).objects@.contains_key(tree_hash@) ==> r is Err,
            forall|k: ObjectType, p: Seq<u8>| #[trigger] holds(old(self).objects@, tree_hash@, k, p) ==> k != ObjectType::Tree
                ==> r is Err,
            parent_hash matches Some(ph) ==> (!old(self).objects@.contains_key(ph@) ==> r is Err),
            parent_hash matches Some(ph) ==> forall|k: ObjectType, p: Seq<u8>| #[trigger] holds(old(self).objects@, ph@, k, p) ==> k != ObjectType::Commit
                ==> r is Err,
            old(self).config.user_name is Some && old(self).config.user_email is Some && (exists|p: Seq<u8>|
                holds(old(self).objects@, tree_hash@, ObjectType::Tree, p)) && (parent_hash matches Some(ph) ==> exists|q: Seq<u8>|
                holds(old(self).objects@, ph@, ObjectType::Commit, q)) ==> r is Ok,
            r is Ok ==> exists|seconds: int, offset: Seq<char>|
                #![trigger commit_bytes(tree_hash@, opt_view(parent_hash), old(self).config.user_name->0@, old(self).config.user_email->0@, seconds, offset, message@)]
            {
                let bytes = commit_bytes(
                    tree_hash@,
                    opt_view(parent_hash),
                    old(self).config.user_name->0@,
                    old(self).config.user_email->0@,
                    seconds,
                    offset,
                    message@,
                );
                &&& is_utc_offset(offset)
                &&& is_object_hash(r->Ok_0@)
                &&& r->Ok_0@ == hash_text(envelope(ObjectType::Commit, bytes))
                &&& holds(final(self).objects@, r->Ok_0@, ObjectType::Commit, bytes)
                &&& final(self).objects@ == old(self).objects@.insert(r->Ok_0@, final(self).objects@[r->Ok_0@])
            },
            final(self).index == old(self).index,
            final(self).refs == old(self).refs,
            final(self).head == old(self).head,
            final(self).config == old(self).config,
    {
        let (seconds, offset) = local_now();
        self.commit_tree_at(tree_hash, message, parent_hash, seconds, offset.as_str())
    }

    /// Records the staged changes as a commit at the given time: its tree is
    /// built from the index, its parent is the current tip. The branch then
    /// points at it and the index is emptied.
    pub fn commit_at(&mut self, message: String, seconds: i64, offset: &str) -> (r: Result<String, FluxError>)
        requires
            old(self).wf(),
        ensures
            final(self).wf(),
            r is Err ==> *final(self) == *old(self),
            old(self).index@ == Map::<Seq<char>, String>::empty() ==> r == Err::<String, FluxError>(FluxError::NothingToCommit),
            old(self).index@ != Map::<Seq<char>, String>::empty() && (old(self).config.user_name is None || old(self).config.user_email is None)
                ==> r == Err::<String, FluxError>(FluxError::ConfigIncomplete),
            old(self).index@ != Map::<Seq<char>, String>::empty() && old(self).config.user_name is Some
                && old(self).config.user_email is Some && head_branch(old(self).head@) is None
                ==> r == Err::<String, FluxError>(FluxError::DetachedHeadUnsupported),
            old(self).index@ != Map::<Seq<char>, String>::empty() && old(self).config.user_name is Some
                && old(self).config.user_email is Some && head_branch(old(self).head@) is Some
                && staged_readable(old(self).index@, old(self).objects@) ==> r is Ok,
            r is Ok ==> commit_recorded(*old(self), *final(self), r->Ok_0, seconds as int, offset@, message@),
    {
        if self.index.is_empty() {
            return Err(FluxError::NothingToCommit);
        }
        let (user_name, user_email) = self.config.get()?;
        let branch = match self.branch_name() {
            Some(b) => b,
            None => return Err(FluxError::DetachedHeadUnsupported),
        };
        let parent = self.head_commit();
        let ghost before = *self;
        let tree = self.tree_from_index()?;
        let ghost after_tree = self.objects@;
        let p = match &parent {
            Some(t) => Some(t.as_str()),
            None => None,
        };
        let h = self.write_commit(tree.as_str(), p, user_name.as_str(), user_email.as_str(), seconds, offset, message.as_str());
        let ghost tv = tree@;
        let r = h.clone();
        self.refs.insert(branch, Some(h));
        self.index.clear();
        self.load_branches();
        proof {
            let (entries, c) = choose|entries: Seq<TreeEntry>, c: Seq<u8>| {
                &&& entries_of_index(entries, before.index.map.pairs(), before.objects@)
                &&& is_tree_content_of(c, entries)
                &&& tv == hash_text(envelope(ObjectType::Tree, c))
                &&& holds(after_tree, tv, ObjectType::Tree, c)
            };
            assert(r@ != tv ==> holds(self.objects@, tv, ObjectType::Tree, c));
            assert(self.objects@.dom() =~= before.objects@.dom().insert(tv).insert(r@));
        }
        Ok(r)
    }

    /// Records the staged changes as a commit, now.
    pub fn commit(&mut self, message: String) -> (r: Result<String, FluxError>)
        requires
            old(self).wf(),
        ensures
            final(self).wf(),
            r is Err ==> *final(self) == *old(self),
            old(self).index@ == Map::<Seq<char>, String>::empty() ==> r == Err::<String, FluxError>(FluxError::NothingToCommit),
            old(self).index@ != Map::<Seq<char>, String>::empty() && (old(self).config.user_name is None || old(self).config.user_email is None)
                ==> r == Err::<String, FluxError>(FluxError::ConfigIncomplete),
            old(self).index@ != Map::<Seq<char>, String>::empty() && old(self).config.user_name is Some
                && old(self).config.user_email is Some && head_branch(old(self).head@) is None
                ==> r == Err::<String, FluxError>(FluxError::DetachedHeadUnsupported),
            old(self).index@ != Map::<Seq<char>, String>::empty() && old(self).config.user_name is Some
                && old(self).config.user_email is Some && head_branch(old(self).head@) is Some
                && staged_readable(old(self).index@, old(self).objects@) ==> r is Ok,
            r is Ok ==> exists|seconds: int, offset: Seq<char>|
                is_utc_offset(offset) && #[trigger] commit_recorded(*old(self), *final(self), r->Ok_0, seconds, offset, message@),
    {
        if self.index.is_empty() {
            return Err(FluxError::NothingToCommit);
        }
        let (seconds, offset) = local_now();
        self.commit_at(message, seconds, offset.as_str())
    }

    /// The readable form of an object: a blob's text, a tree's listing, a
    /// commit's body.
    pub fn cat_file(&self, object_hash: &str) -> (r: Result<String, FluxError>)
        requires
            self.wf(),
        ensures
            !self.objects@.contains_key(object_hash@) ==> r == Err::<String, FluxError>(FluxError::ObjectNotFound),
            forall|t: Seq<char>| #[trigger] holds(self.objects@, object_hash@, ObjectType::Blob, vstd::utf8::encode_utf8(t)) ==> r is Ok && r->Ok_0@ == t,
            forall|t: Seq<char>| #[trigger] holds(self.objects@, object_hash@, ObjectType::Commit, vstd::utf8::encode_utf8(t)) ==> r is Ok && r->Ok_0@ == t,
            forall|p: Seq<u8>| #[trigger] holds(self.objects@, object_hash@, ObjectType::Tree, p) ==> match r {
                Ok(text) => exists|v: Seq<TreeEntry>| text@ == crate::tree::ls_text(v) && entries_parsed(p, v),
                Err(e) => e == FluxError::MalformedTree && tree_malformed(p),
            },
            read_result(self.objects@, object_hash@) matches Err(e) ==> r == Err::<String, FluxError>(e),
    {
        let object = read_object(&self.objects, object_hash)?;
        proof {
            assert forall|t: Seq<char>| #[trigger] holds(self.objects@, object_hash@, ObjectType::Blob, vstd::utf8::encode_utf8(t))
                implies object.object_type == ObjectType::Blob && vstd::utf8::valid_utf8(object.decompressed_content@) && vstd::utf8::decode_utf8(object.decompressed_content@) == t by {
                vstd::utf8::encode_utf8_valid_utf8(t);
                vstd::utf8::encode_utf8_decode_utf8(t);
            }
            assert forall|t: Seq<char>| #[trigger] holds(self.objects@, object_hash@, ObjectType::Commit, vstd::utf8::encode_utf8(t))
                implies object.object_type == ObjectType::Commit && vstd::utf8::valid_utf8(object.decompressed_content@) && vstd::utf8::decode_utf8(object.decompressed_content@) == t by {
                vstd::utf8::encode_utf8_valid_utf8(t);
                vstd::utf8::encode_utf8_decode_utf8(t);
            }
        }
        match object.object_type {
            ObjectType::Tree => ls_tree(&self.objects, object_hash),
            _ => match utf8_text(object.decompressed_content) {
                Some(t) => Ok(t),
                None => Err(FluxError::MalformedObject),
            },
        }
    }

    /// The listing of a stored tree, as `tree::ls_tree` gives it.
    pub fn ls_tree(&self, tree_hash: &str) -> (r: Result<String, FluxError>)
        requires
            self.wf(),
        ensures
            read_result(self.objects@, tree_hash@) matches Err(e) ==> r == Err::<String, FluxError>(e),
            read_result(self.objects@, tree_hash@) matches Ok(kp) ==> (kp.0 != ObjectType::Tree ==> r == Err::<String, FluxError>(FluxError::WrongObjectType)),
            read_result(self.objects@, tree_hash@) matches Ok(kp) ==> (kp.0 == ObjectType::Tree ==> match r {
                Ok(text) => exists|v: Seq<TreeEntry>| text@ == crate::tree::ls_text(v) && entries_parsed(kp.1, v),
                Err(e) => e == FluxError::MalformedTree && tree_malformed(kp.1),
            }),
            forall|k: ObjectType, p: Seq<u8>| #[trigger] holds(self.objects@, tree_hash@, k, p) ==> k != ObjectType::Tree ==> r == Err::<String, FluxError>(FluxError::WrongObjectType),
            forall|p: Seq<u8>| #[trigger] holds(self.objects@, tree_hash@, ObjectType::Tree, p) ==> match r {
                Ok(text) => exists|v: Seq<TreeEntry>| text@ == crate::tree::ls_text(v) && entries_parsed(p, v),
                Err(e) => e == FluxError::MalformedTree && tree_malformed(p),
            },
    {
        ls_tree(&self.objects, tree_hash)
    }

    /// The bodies of the commits from the current tip back along the parents.
    pub fn log(&self) -> (r: Result<Vec<String>, FluxError>)
        requires
            self.wf(),
        ensures
            self.tip() is None ==> r is Ok && r->Ok_0@.len() == 0,
            history(self.objects@, opt_view(self.tip()), self.objects.pairs().len()) matches Some(hs) ==> r is Ok
                && texts_view(r->Ok_0@) == hs,
    {
        let ghost objects = self.objects@;
        let mut out: Vec<String> = Vec::new();
        let mut cur = self.head_commit();
        let mut fuel = self.objects.len();
        let ghost total = history(objects, opt_view(self.tip()), fuel as nat);
        proof {
            assert(texts_view(out@) =~= Seq::<Seq<char>>::empty());
            if total is Some {
                assert(Seq::<Seq<char>>::empty() + total->0 =~= total->0);
            }
        }
        while fuel > 0 && cur.is_some()
            invariant
                self.wf(),
                objects == self.objects@,
                total == history(objects, opt_view(self.tip()), self.objects.pairs().len() as nat),
                self.tip() is None ==> cur is None && out@.len() == 0,
                total is Some ==> (history(objects, opt_view(cur), fuel as nat) matches Some(rest) && total->0 == texts_view(out@) + rest),
            decreases fuel,
        {
            let h = cur.unwrap();
            let ghost hv = h@;
            proof {
                lemma_stored(objects, hv);
                if total is Some {
                    let b = (stored(objects, hv)->0).1;
                    vstd::utf8::decode_utf8_encode_utf8(b);
                    assert(holds(objects, hv, ObjectType::Commit, vstd::utf8::encode_utf8(vstd::utf8::decode_utf8(b))));
                }
            }
            let body = self.cat_file(h.as_str())?;
            let ghost prev = out@;
            out.push(body);
            cur = get_parent_hash(&self.objects, h.as_str())?;
            proof {
                if total is Some {
                    let b = (stored(objects, hv)->0).1;
                    let t = vstd::utf8::decode_utf8(b);
                    assert(texts_view(out@) =~= texts_view(prev).push(t));
                    let rest = history(objects, header_value(t, parent_key()), (fuel - 1) as nat)->0;
                    assert(opt_view(cur) == header_value(t, parent_key()));
                    assert(total->0 =~= texts_view(out@) + rest);
                }
            }
            fuel = fuel - 1;
        }
        proof {
            if total is Some {
                assert(history(objects, opt_view(cur), fuel as nat) == Some(Seq::<Seq<char>>::empty()));
                assert(total->0 =~= texts_view(out@));
            }
        }
        Ok(out)
    }

    fn collect_files(&self, tree_hash: &str, prefix: &str, fuel: usize, out: &mut Vec<(String, Vec<u8>)>) -> (r: Result<(), FluxError>)
        requires
            self.wf(),
        ensures
            files_of_tree(self.objects@, tree_hash@, prefix@, fuel as nat) matches Some(fs) ==> r is Ok && files_view(final(out)@) == files_view(old(out)@) + fs,
        decreases fuel,
    {
        let ghost objects = self.objects@;
        let ghost spec_ok = files_of_tree(objects, tree_hash@, prefix@, fuel as nat) is Some;
        proof {
            lemma_stored(objects, tree_hash@);
            if spec_ok {
                lemma_files_of_tree_unfold(objects, tree_hash@, prefix@, fuel as nat);
            }
        }
        let entries = parse_tree(&self.objects, tree_hash)?;
        let ghost fields: Seq<(Seq<u8>, Seq<u8>, Seq<u8>)> = if spec_ok {
            parse_entries((stored(objects, tree_hash@)->0).1)->0
        } else {
            Seq::empty()
        };
        let ghost start = files_view(out@);
        proof {
            if spec_ok {
                assert(fields.subrange(0, 0) =~= Seq::<(Seq<u8>, Seq<u8>, Seq<u8>)>::empty());
                assert(start + Seq::<(Seq<char>, Seq<u8>)>::empty() =~= start);
            }
        }
        let slash = lit(vec![47u8]);
        let tree_word = lit(vec![116u8, 114, 101, 101]);
        proof {
            assert(slash@ =~= seq!['/']);
            assert(tree_word@ =~= seq!['t', 'r', 'e', 'e']);
        }
        let mut i: usize = 0;
        while i < entries.len()
            invariant
                self.wf(),
                objects == self.objects@,
                spec_ok == (files_of_tree(objects, tree_hash@, prefix@, fuel as nat) is Some),
                slash@ == seq!['/'],
                tree_word@ == seq!['t', 'r', 'e', 'e'],
                i <= entries@.len(),
                spec_ok ==> fields.len() == entries@.len(),
                spec_ok ==> forall|j: int| 0 <= j < entries@.len() ==> entry_from_fields(fields[j], #[trigger] entries@[j]),
                spec_ok ==> forall|j: int| 0 <= j < fields.len() ==> fields_are_text(#[trigger] fields[j]),
                spec_ok ==> files_of_fields(objects, fields, prefix@, fuel as nat) == files_of_tree(objects, tree_hash@, prefix@, fuel as nat),
                spec_ok ==> (files_of_fields(objects, fields.subrange(0, i as int), prefix@, fuel as nat) matches Some(acc) && files_view(out@) == start + acc),
            decreases entries@.len() - i,
        {
            let e = &entries[i];
            let ghost before = files_of_fields(objects, fields.subrange(0, i as int), prefix@, fuel as nat);
            let ghost f = fields[i as int];
            proof {
                if spec_ok {
                    lemma_files_prefix(objects, fields, prefix@, fuel as nat, i + 1);
                    assert(fields.subrange(0, i + 1).drop_last() =~= fields.subrange(0, i as int));
                    assert(fields.subrange(0, i + 1).last() == f);
                    assert(entry_from_fields(f, *e));
                    vstd::utf8::encode_utf8_decode_utf8(e.name@);
                    assert(vstd::utf8::decode_utf8(f.1) == e.name@);
                    assert(e.hash@ == hex_of(f.2));
                    assert(e.entry_type@ == type_word(f.0));
                }
            }
            let path = join_text(prefix, e.name.as_str());
            if text_eq(e.entry_type.as_str(), tree_word.as_str()) {
                if fuel == 0 {
                    return Err(FluxError::MalformedTree);
                }
                let sub = join_text(path.as_str(), slash.as_str());
                let ghost mid = files_view(out@);
                self.collect_files(e.hash.as_str(), sub.as_str(), fuel - 1, out)?;
                proof {
                    if spec_ok {
                        let acc = before->0;
                        let sub_fs = files_of_tree(objects, hex_of(f.2), sub@, (fuel - 1) as nat)->0;
                        assert(files_view(out@) =~= start + (acc + sub_fs));
                    }
                }
            } else {
                proof {
                    lemma_stored(objects, e.hash@);
                }
                let blob = read_object(&self.objects, e.hash.as_str())?;
                if blob.object_type != ObjectType::Blob {
                    return Err(FluxError::WrongObjectType);
                }
                let ghost content = blob.decompressed_content@;
                let ghost pv = path@;
                let ghost prev = out@;
                out.push((path, blob.decompressed_content));
                proof {
                    if spec_ok {
                        let acc = before->0;
                        assert(files_view(out@) =~= files_view(prev).push((pv, content)));
                        assert(files_view(out@) =~= start + acc.push((pv, content)));
                    }
                }
            }
            i = i + 1;
        }
        proof {
            if spec_ok {
                assert(fields.subrange(0, i as int) =~= fields);
            }
        }
        Ok(())
    }

    /// The files of a commit's tree, by repository-relative path, with their
    /// content: what the working tree holds once the commit is checked out.
    pub fn checkout_files(&self, commit_hash: &str) -> (r: Result<Vec<(String, Vec<u8>)>, FluxError>)
        requires
            self.wf(),
        ensures
            !self.objects@.contains_key(commit_hash@) ==> r is Err,
            forall|t: Seq<char>|
                #[trigger] holds(self.objects@, commit_hash@, ObjectType::Commit, vstd::utf8::encode_utf8(t))
                    ==> (header_value(t, tree_key()) matches Some(th) ==> (files_of_tree(
                    self.objects@,
                    th,
                    Seq::empty(),
                    self.objects.pairs().len(),
                ) matches Some(fs) ==> r is Ok && files_view(r->Ok_0@) == fs)),
    {
        let obj = read_object(&self.objects, commit_hash)?;
        let ghost content = obj.decompressed_content@;
        proof {
            assert forall|t: Seq<char>| #[trigger] holds(self.objects@, commit_hash@, ObjectType::Commit, vstd::utf8::encode_utf8(t))
                implies obj.object_type == ObjectType::Commit && content == vstd::utf8::encode_utf8(t) && vstd::utf8::valid_utf8(content) by {
                vstd::utf8::encode_utf8_valid_utf8(t);
            }
        }
        let tree = match get_tree_hash(obj)? {
            Some(t) => t,
            None => {
                proof {
                    assert forall|t: Seq<char>| #[trigger] holds(self.objects@, commit_hash@, ObjectType::Commit, vstd::utf8::encode_utf8(t))
                        implies header_value(t, tree_key()) is None by {
                        let t2 = choose|t2: Seq<char>| vstd::utf8::encode_utf8(t2) == content && header_value(t2, tree_key()) is None;
                        vstd::utf8::encode_utf8_decode_utf8(t);
                        vstd::utf8::encode_utf8_decode_utf8(t2);
                    }
                }
                return Err(FluxError::MalformedObject);
            },
        };
        let mut out: Vec<(String, Vec<u8>)> = Vec::new();
        let empty = lit(Vec::new());
        let n = self.objects.len();
        proof {
            assert(empty@ =~= Seq::<char>::empty());
            assert(files_view(out@) =~= Seq::<(Seq<char>, Seq<u8>)>::empty());
            assert forall|t: Seq<char>|
                #[trigger] holds(self.objects@, commit_hash@, ObjectType::Commit, vstd::utf8::encode_utf8(t))
                    implies header_value(t, tree_key()) == Some(tree@) by {
                let t2 = choose|t2: Seq<char>| vstd::utf8::encode_utf8(t2) == content && header_value(t2, tree_key()) == Some(tree@);
                vstd::utf8::encode_utf8_decode_utf8(t);
                vstd::utf8::encode_utf8_decode_utf8(t2);
            }
        }
        self.collect_files(tree.as_str(), empty.as_str(), n, &mut out)?;
        proof {
            assert(files_view(out@) =~= Seq::<(Seq<char>, Seq<u8>)>::empty() + files_view(out@));
        }
        Ok(out)
    }
}

} // verus!
