//! Commit objects: a text body of header lines (`tree`, optional `parent`,
//! `author`, `committer`), a blank line and the message.
use crate::codec::{all_digits, dec_of, decimal, lemma_dec_of, ObjectType, GenericObject};
use crate::error::FluxError;
use crate::store::{read_object, holds, ObjectStore};
use crate::text::{ascii_chars, ascii_text, is_lower_hex, is_object_hash, utf8_text};
use vstd::prelude::*;
use vstd::string::{StrSliceExecFns, StringExecFns};

verus! {

/// `char::is_whitespace`: the Unicode `White_Space` characters.
pub open spec fn is_ws(c: char) -> bool {
    let u = c as u32;
    (9 <= u && u <= 13) || u == 32 || u == 0x85 || u == 0xA0 || u == 0x1680 || (0x2000 <= u && u
        <= 0x200A) || u == 0x2028 || u == 0x2029 || u == 0x202F || u == 0x205F || u == 0x3000
}

pub open spec fn trim_start(s: Seq<char>) -> Seq<char>
    decreases s.len(),
{
    if s.len() > 0 && is_ws(s[0]) {
        trim_start(s.drop_first())
    } else {
        s
    }
}

pub open spec fn trim_end(s: Seq<char>) -> Seq<char>
    decreases s.len(),
{
    if s.len() > 0 && is_ws(s.last()) {
        trim_end(s.drop_last())
    } else {
        s
    }
}

/// `str::trim`.
pub open spec fn trim(s: Seq<char>) -> Seq<char> {
    trim_end(trim_start(s))
}

/// Position of the first `c`, or -1.
pub open spec fn index_of(s: Seq<char>, c: char) -> int
    decreases s.len(),
{
    if s.len() == 0 {
        -1
    } else if s[0] == c {
        0
    } else {
        let r = index_of(s.drop_first(), c);
        if r < 0 {
            -1
        } else {
            r + 1
        }
    }
}

/// A line as `str::lines` yields it: without its `\r\n` or `\n`.
pub open spec fn strip_cr(line: Seq<char>) -> Seq<char> {
    if line.len() > 0 && line.last() == '\r' {
        line.drop_last()
    } else {
        line
    }
}

/// The trimmed rest of the first header line that starts with `key`, looking no
/// further than the first blank line.
pub open spec fn header_value(s: Seq<char>, key: Seq<char>) -> Option<Seq<char>>
    decreases s.len(),
{
    if s.len() == 0 {
        None
    } else {
        let i = index_of(s, '\n');
        let e = if i < 0 || i >= s.len() { s.len() as int } else { i };
        let line = strip_cr(s.subrange(0, e));
        if line.len() >= key.len() && line.subrange(0, key.len() as int) == key {
            Some(trim(line.subrange(key.len() as int, line.len() as int)))
        } else if line.len() == 0 {
            None
        } else if e >= s.len() {
            None
        } else {
            header_value(s.subrange(e + 1, s.len() as int), key)
        }
    }
}

pub open spec fn tree_key() -> Seq<char> {
    seq!['t', 'r', 'e', 'e', ' ']
}

pub open spec fn parent_key() -> Seq<char> {
    seq!['p', 'a', 'r', 'e', 'n', 't', ' ']
}

/// Decimal text of an integer, with a leading `-` when negative.
pub open spec fn int_text(n: int) -> Seq<char> {
    if n < 0 {
        seq!['-'] + ascii_chars(dec_of((-n) as nat))
    } else {
        ascii_chars(dec_of(n as nat))
    }
}

/// `<name> <<email>> <seconds> <offset>`.
pub open spec fn signature(name: Seq<char>, email: Seq<char>, seconds: int, offset: Seq<char>) -> Seq<char> {
    name + seq![' ', '<'] + email + seq!['>', ' '] + int_text(seconds) + seq![' '] + offset
}

pub open spec fn author_line(sig: Seq<char>) -> Seq<char> {
    seq!['a', 'u', 't', 'h', 'o', 'r', ' '] + sig
}

pub open spec fn committer_line(sig: Seq<char>) -> Seq<char> {
    seq!['c', 'o', 'm', 'm', 'i', 't', 't', 'e', 'r', ' '] + sig
}

/// The body of a commit, line by line: `tree <hash>`, `parent <hash>` when there
/// is a parent, `author <signature>`, `committer <signature>`, a blank line and
/// the message.
pub open spec fn commit_body(
    tree: Seq<char>,
    parent: Option<Seq<char>>,
    name: Seq<char>,
    email: Seq<char>,
    seconds: int,
    offset: Seq<char>,
    message: Seq<char>,
) -> Seq<char> {
    let sig = signature(name, email, seconds, offset);
    let rest = author_line(sig) + (seq!['\n'] + (committer_line(sig) + (seq!['\n'] + (seq!['\n'] + message))));
    (tree_key() + tree) + (seq!['\n'] + match parent {
        Some(p) => (parent_key() + p) + (seq!['\n'] + rest),
        None => rest,
    })
}

fn text_of(v: Vec<u8>) -> (r: String)
    requires
        forall|i: int| 0 <= i < v@.len() ==> v@[i] < 128,
    ensures
        r@ == ascii_chars(v@),
{
    ascii_text(v)
}

/// Decimal text of an integer.
pub fn int_to_text(n: i64) -> (r: String)
    ensures
        r@ == int_text(n as int),
{
    let mag: u64 = if n < 0 { (0i128 - n as i128) as u64 } else { n as u64 };
    let d = decimal(mag);
    proof {
        lemma_dec_of(mag as nat);
        assert forall|i: int| 0 <= i < d@.len() implies d@[i] < 128 by {
            assert(all_digits(d@));
        }
    }
    let digits = text_of(d);
    if n < 0 {
        let mut s = text_of(vec![45u8]);
        proof {
            assert(s@ =~= seq!['-']);
        }
        s.append(digits.as_str());
        s
    } else {
        digits
    }
}

proof fn lemma_index_of(s: Seq<char>, c: char)
    ensures
        -1 <= index_of(s, c) < s.len(),
        index_of(s, c) >= 0 ==> s[index_of(s, c)] == c,
        forall|j: int| 0 <= j < s.len() && (index_of(s, c) < 0 || j < index_of(s, c)) ==> s[j] != c,
    decreases s.len(),
{
    if s.len() > 0 {
        lemma_index_of(s.drop_first(), c);
        assert forall|j: int| 0 <= j < s.len() && (index_of(s, c) < 0 || j < index_of(s, c)) implies s[j] != c by {
            if j > 0 {
                assert(s[j] == s.drop_first()[j - 1]);
            }
        }
    }
}

proof fn lemma_index_of_at(s: Seq<char>, c: char, i: int)
    requires
        0 <= i < s.len(),
        s[i] == c,
        forall|j: int| 0 <= j < i ==> s[j] != c,
    ensures
        index_of(s, c) == i,
{
    lemma_index_of(s, c);
}

proof fn lemma_index_of_none(s: Seq<char>, c: char)
    requires
        forall|j: int| 0 <= j < s.len() ==> s[j] != c,
    ensures
        index_of(s, c) == -1,
{
    lemma_index_of(s, c);
}

fn char_is_ws(c: char) -> (r: bool)
    ensures
        r == is_ws(c),
{
    let u = c as u32;
    (9 <= u && u <= 13) || u == 32 || u == 0x85 || u == 0xA0 || u == 0x1680 || (0x2000 <= u && u
        <= 0x200A) || u == 0x2028 || u == 0x2029 || u == 0x202F || u == 0x205F || u == 0x3000
}

/// `s[a..b]` with surrounding whitespace removed, as `str::trim` does.
pub fn trimmed(s: &str, a: usize, b: usize) -> (r: String)
    requires
        a <= b <= s@.len(),
    ensures
        r@ == trim(s@.subrange(a as int, b as int)),
{
    let mut i = a;
    while i < b && char_is_ws(s.get_char(i))
        invariant
            a <= i <= b <= s@.len(),
            trim_start(s@.subrange(a as int, b as int)) == trim_start(s@.subrange(i as int, b as int)),
        decreases b - i,
    {
        proof {
            assert(s@.subrange(i as int, b as int).drop_first() =~= s@.subrange(i + 1, b as int));
        }
        i = i + 1;
    }
    proof {
        if i < b {
            assert(s@.subrange(i as int, b as int)[0] == s@[i as int]);
        }
    }
    let mut j = b;
    while j > i && char_is_ws(s.get_char(j - 1))
        invariant
            a <= i <= j <= b <= s@.len(),
            trim_end(s@.subrange(i as int, b as int)) == trim_end(s@.subrange(i as int, j as int)),
        decreases j - i,
    {
        proof {
            assert(s@.subrange(i as int, j as int).drop_last() =~= s@.subrange(i as int, j - 1));
        }
        j = j - 1;
    }
    proof {
        if j > i {
            assert(s@.subrange(i as int, j as int).last() == s@[j - 1]);
        }
    }
    String::from_str(s.substring_char(i, j))
}

/// The value of the first header line of `body` that starts with `key`, looking
/// no further than the first blank line.
pub fn header_field(body: &str, key: &str) -> (r: Option<String>)
    ensures
        match r {
            Some(v) => header_value(body@, key@) == Some(v@),
            None => header_value(body@, key@) is None,
        },
{
    let n = body.unicode_len();
    let klen = key.unicode_len();
    let mut p: usize = 0;
    proof {
        assert(body@.subrange(0, n as int) =~= body@);
    }
    while p < n
        invariant
            n == body@.len(),
            klen == key@.len(),
            p <= n,
            header_value(body@, key@) == header_value(body@.subrange(p as int, n as int), key@),
        decreases n - p,
    {
        let ghost s = body@.subrange(p as int, n as int);
        let mut e = p;
        while e < n && body.get_char(e) != '\n'
            invariant
                p <= e <= n,
                n == body@.len(),
                forall|j: int| p <= j < e ==> body@[j] != '\n',
            decreases n - e,
        {
            e = e + 1;
        }
        proof {
            if e < n {
                lemma_index_of_at(s, '\n', e - p);
            } else {
                lemma_index_of_none(s, '\n');
            }
            assert(s.subrange(0, e - p) =~= body@.subrange(p as int, e as int));
        }
        let mut le = e;
        if le > p && body.get_char(le - 1) == '\r' {
            le = le - 1;
        }
        let ghost line = body@.subrange(p as int, le as int);
        proof {
            assert(strip_cr(body@.subrange(p as int, e as int)) =~= line);
        }
        let line_len = le - p;
        let mut matches = line_len >= klen;
        let mut k: usize = 0;
        while matches && k < klen
            invariant
                matches ==> line_len >= klen,
                line_len == le - p,
                p <= le <= n,
                n == body@.len(),
                klen == key@.len(),
                k <= klen,
                line == body@.subrange(p as int, le as int),
                matches ==> forall|j: int| 0 <= j < k ==> line[j] == key@[j],
                !matches ==> !(line.len() >= key@.len() && line.subrange(0, key@.len() as int) == key@),
            decreases klen - k,
        {
            if body.get_char(p + k) != key.get_char(k) {
                proof {
                    if line.len() >= key@.len() && line.subrange(0, key@.len() as int) == key@ {
                        assert(line.subrange(0, key@.len() as int)[k as int] == line[k as int]);
                    }
                }
                matches = false;
                k = klen;
            } else {
                k = k + 1;
            }
        }
        if matches {
            proof {
                assert(line.subrange(0, key@.len() as int) =~= key@);
                assert(line.subrange(key@.len() as int, line.len() as int) =~= body@.subrange(p + klen, le as int));
            }
            return Some(trimmed(body, p + klen, le));
        }
        if line_len == 0 || e == n {
            return None;
        }
        proof {
            assert(s.subrange(e - p + 1, s.len() as int) =~= body@.subrange(e + 1, n as int));
        }
        p = e + 1;
    }
    None
}

fn lit(v: Vec<u8>) -> (r: String)
    requires
        forall|i: int| 0 <= i < v@.len() ==> v@[i] < 128,
    ensures
        r@ == ascii_chars(v@),
{
    ascii_text(v)
}

/// Builds the body of a commit.
pub fn commit_text(
    tree: &str,
    parent: Option<&str>,
    name: &str,
    email: &str,
    seconds: i64,
    offset: &str,
    message: &str,
) -> (r: String)
    ensures
        r@ == commit_body(
            tree@,
            match parent {
                Some(p) => Some(p@),
                None => None,
            },
            name@,
            email@,
            seconds as int,
            offset@,
            message@,
        ),
{
    let nl = lit(vec![10u8]);
    let sp = lit(vec![32u8]);
    let lt = lit(vec![32u8, 60]);
    let gt = lit(vec![62u8, 32]);
    let tree_word = lit(vec![116u8, 114, 101, 101, 32]);
    let parent_word = lit(vec![112u8, 97, 114, 101, 110, 116, 32]);
    let author_word = lit(vec![97u8, 117, 116, 104, 111, 114, 32]);
    let committer_word = lit(vec![99u8, 111, 109, 109, 105, 116, 116, 101, 114, 32]);
    let secs = int_to_text(seconds);
    proof {
        assert(nl@ =~= seq!['\n']);
        assert(sp@ =~= seq![' ']);
        assert(lt@ =~= seq![' ', '<']);
        assert(gt@ =~= seq!['>', ' ']);
        assert(tree_word@ =~= tree_key());
        assert(parent_word@ =~= parent_key());
        assert(author_word@ =~= seq!['a', 'u', 't', 'h', 'o', 'r', ' ']);
        assert(committer_word@ =~= seq!['c', 'o', 'm', 'm', 'i', 't', 't', 'e', 'r', ' ']);
    }
    let mut sig = String::from_str(name);
    sig.append(lt.as_str());
    sig.append(email);
    sig.append(gt.as_str());
    sig.append(secs.as_str());
    sig.append(sp.as_str());
    sig.append(offset);
    let mut out = String::from_str(tree_word.as_str());
    out.append(tree);
    out.append(nl.as_str());
    match parent {
        Some(p) => {
            out.append(parent_word.as_str());
            out.append(p);
            out.append(nl.as_str());
        },
        None => {},
    }
    out.append(author_word.as_str());
    out.append(sig.as_str());
    out.append(nl.as_str());
    out.append(committer_word.as_str());
    out.append(sig.as_str());
    out.append(nl.as_str());
    out.append(nl.as_str());
    out.append(message);
    proof {
        let pv = match parent {
            Some(p) => Some(p@),
            None => None,
        };
        assert(sig@ =~= signature(name@, email@, seconds as int, offset@));
        assert(out@ =~= commit_body(tree@, pv, name@, email@, seconds as int, offset@, message@));
    }
    out
}

/// Text of an object's payload, which must be a commit.
fn commit_content(obj: GenericObject) -> (r: Result<String, FluxError>)
    ensures
        obj.object_type != ObjectType::Commit ==> r == Err::<String, FluxError>(FluxError::WrongObjectType),
        obj.object_type == ObjectType::Commit ==> match r {
            Ok(t) => vstd::utf8::encode_utf8(t@) == obj.decompressed_content@,
            Err(e) => e == FluxError::MalformedObject && !vstd::utf8::valid_utf8(obj.decompressed_content@),
        },
{
    if obj.object_type != ObjectType::Commit {
        return Err(FluxError::WrongObjectType);
    }
    match utf8_text(obj.decompressed_content) {
        Some(t) => Ok(t),
        None => Err(FluxError::MalformedObject),
    }
}

/// The `tree` header of a commit object.
pub fn get_tree_hash(commit_obj: GenericObject) -> (r: Result<Option<String>, FluxError>)
    ensures
        commit_obj.object_type != ObjectType::Commit ==> r == Err::<Option<String>, FluxError>(FluxError::WrongObjectType),
        commit_obj.object_type == ObjectType::Commit ==> match r {
            Ok(v) => exists|t: Seq<char>| vstd::utf8::encode_utf8(t) == commit_obj.decompressed_content@
                && match v {
                Some(h) => header_value(t, tree_key()) == Some(h@),
                None => header_value(t, tree_key()) is None,
            },
            Err(e) => e == FluxError::MalformedObject && !vstd::utf8::valid_utf8(commit_obj.decompressed_content@),
        },
{
    let text = commit_content(commit_obj)?;
    let key = lit(vec![116u8, 114, 101, 101, 32]);
    proof {
        assert(key@ =~= tree_key());
    }
    Ok(header_field(text.as_str(), key.as_str()))
}

/// The `parent` header of the commit stored under `commit_hash`.
pub fn get_parent_hash(store: &ObjectStore, commit_hash: &str) -> (r: Result<Option<String>, FluxError>)
    requires
        store.wf(),
    ensures
        !store@.contains_key(commit_hash@) ==> r == Err::<Option<String>, FluxError>(FluxError::ObjectNotFound),
        forall|k: ObjectType, p: Seq<u8>| #[trigger] holds(store@, commit_hash@, k, p) ==> k != ObjectType::Commit ==> r == Err::<Option<String>, FluxError>(FluxError::WrongObjectType),
        forall|t: Seq<char>| #[trigger] holds(store@, commit_hash@, ObjectType::Commit, vstd::utf8::encode_utf8(t)) ==> match r {
            Ok(Some(h)) => header_value(t, parent_key()) == Some(h@),
            Ok(None) => header_value(t, parent_key()) is None,
            Err(_) => false,
        },
{
    let obj = read_object(store, commit_hash)?;
    proof {
        assert forall|t: Seq<char>| #[trigger] holds(store@, commit_hash@, ObjectType::Commit, vstd::utf8::encode_utf8(t)) implies obj.object_type == ObjectType::Commit && vstd::utf8::valid_utf8(obj.decompressed_content@) by {
            vstd::utf8::encode_utf8_valid_utf8(t);
        }
    }
    let text = commit_content(obj)?;
    let key = lit(vec![112u8, 97, 114, 101, 110, 116, 32]);
    proof {
        assert(key@ =~= parent_key());
        assert forall|t: Seq<char>| #[trigger] holds(store@, commit_hash@, ObjectType::Commit, vstd::utf8::encode_utf8(t)) implies t == text@ by {
            vstd::utf8::encode_utf8_decode_utf8(t);
            vstd::utf8::encode_utf8_decode_utf8(text@);
        }
    }
    Ok(header_field(text.as_str(), key.as_str()))
}

proof fn lemma_header_line(line: Seq<char>, rest: Seq<char>, key: Seq<char>)
    requires
        forall|j: int| 0 <= j < line.len() ==> line[j] != '\n',
    ensures
        header_value(line + (seq!['\n'] + rest), key) == {
            let l = strip_cr(line);
            if l.len() >= key.len() && l.subrange(0, key.len() as int) == key {
                Some(trim(l.subrange(key.len() as int, l.len() as int)))
            } else if l.len() == 0 {
                None
            } else {
                header_value(rest, key)
            }
        },
{
    let s = line + (seq!['\n'] + rest);
    lemma_index_of_at(s, '\n', line.len() as int);
    assert(s.subrange(0, line.len() as int) =~= line);
    assert(s.subrange(line.len() as int + 1, s.len() as int) =~= rest);
}

proof fn lemma_trim_hash(h: Seq<char>)
    requires
        is_lower_hex(h),
    ensures
        trim(h) == h,
{
    if h.len() > 0 {
        assert(!is_ws(h[0]));
        assert(!is_ws(h.last()));
    }
}

proof fn lemma_sig_one_line(name: Seq<char>, email: Seq<char>, seconds: int, offset: Seq<char>)
    requires
        forall|j: int| 0 <= j < name.len() ==> name[j] != '\n',
        forall|j: int| 0 <= j < email.len() ==> email[j] != '\n',
        forall|j: int| 0 <= j < offset.len() ==> offset[j] != '\n',
    ensures
        forall|j: int| 0 <= j < signature(name, email, seconds, offset).len() ==> #[trigger] signature(name, email, seconds, offset)[j] != '\n',
{
    let m: nat = if seconds < 0 { (-seconds) as nat } else { seconds as nat };
    lemma_dec_of(m);
    let d = ascii_chars(dec_of(m));
    assert forall|j: int| 0 <= j < d.len() implies d[j] != '\n' by {
        assert(all_digits(dec_of(m)));
        assert(48 <= dec_of(m)[j] <= 57);
    }
    let it = int_text(seconds);
    assert forall|j: int| 0 <= j < it.len() implies it[j] != '\n' by {
        if seconds < 0 {
            if j > 0 {
                assert(it[j] == d[j - 1]);
            }
        } else {
            assert(it[j] == d[j]);
        }
    }
    let sg = signature(name, email, seconds, offset);
    assert forall|j: int| 0 <= j < sg.len() implies #[trigger] sg[j] != '\n' by {
        let a = name.len() as int;
        let b = a + 2 + email.len();
        let c = b + 2 + it.len();
        if j < a {
            assert(sg[j] == name[j]);
        } else if j < a + 2 {
        } else if j < b {
            assert(sg[j] == email[j - a - 2]);
        } else if j < b + 2 {
        } else if j < c {
            assert(sg[j] == it[j - b - 2]);
        } else if j == c {
        } else {
            assert(sg[j] == offset[j - c - 1]);
        }
    }
}

/// A commit body reads back through its headers: the `tree` header gives the
/// tree, and the `parent` header gives the parent, or nothing when there is none.
pub proof fn lemma_commit_headers(
    tree: Seq<char>,
    parent: Option<Seq<char>>,
    name: Seq<char>,
    email: Seq<char>,
    seconds: int,
    offset: Seq<char>,
    message: Seq<char>,
)
    requires
        is_object_hash(tree),
        parent is Some ==> is_object_hash(parent->0),
        forall|j: int| 0 <= j < name.len() ==> name[j] != '\n',
        forall|j: int| 0 <= j < email.len() ==> email[j] != '\n',
        forall|j: int| 0 <= j < offset.len() ==> offset[j] != '\n',
    ensures
        header_value(commit_body(tree, parent, name, email, seconds, offset, message), tree_key()) == Some(tree),
        header_value(commit_body(tree, parent, name, email, seconds, offset, message), parent_key()) == parent,
{
    let sig = signature(name, email, seconds, offset);
    lemma_sig_one_line(name, email, seconds, offset);
    let l1 = tree_key() + tree;
    let l3 = author_line(sig);
    let l4 = committer_line(sig);
    let r4 = seq!['\n'] + message;
    let r3 = l4 + (seq!['\n'] + r4);
    let rest = l3 + (seq!['\n'] + r3);
    let after = match parent {
        Some(p) => (parent_key() + p) + (seq!['\n'] + rest),
        None => rest,
    };
    assert(commit_body(tree, parent, name, email, seconds, offset, message) == l1 + (seq!['\n'] + after));
    lemma_tree_line(tree, after);
    lemma_parent_absent_lines(sig, message);
    lemma_not_parent_line(l1, after);
    match parent {
        Some(p) => {
            lemma_parent_line(p, rest);
        },
        None => {},
    }
}

proof fn lemma_tree_line(tree: Seq<char>, after: Seq<char>)
    requires
        is_object_hash(tree),
    ensures
        header_value((tree_key() + tree) + (seq!['\n'] + after), tree_key()) == Some(tree),
{
    let l1 = tree_key() + tree;
    assert forall|j: int| 0 <= j < l1.len() implies l1[j] != '\n' by {
        if j >= 5 {
            assert(l1[j] == tree[j - 5]);
        }
    }
    assert(strip_cr(l1) == l1) by {
        assert(l1.last() == tree.last());
    }
    lemma_trim_hash(tree);
    lemma_header_line(l1, after, tree_key());
    assert(l1.subrange(0, 5) =~= tree_key());
    assert(l1.subrange(5, l1.len() as int) =~= tree);
}

proof fn lemma_parent_line(p: Seq<char>, rest: Seq<char>)
    requires
        is_object_hash(p),
    ensures
        header_value((parent_key() + p) + (seq!['\n'] + rest), parent_key()) == Some(p),
{
    let l2 = parent_key() + p;
    assert forall|j: int| 0 <= j < l2.len() implies l2[j] != '\n' by {
        if j >= 7 {
            assert(l2[j] == p[j - 7]);
        }
    }
    assert(strip_cr(l2) == l2) by {
        assert(l2.last() == p.last());
    }
    lemma_trim_hash(p);
    lemma_header_line(l2, rest, parent_key());
    assert(l2.subrange(0, 7) =~= parent_key());
    assert(l2.subrange(7, l2.len() as int) =~= p);
}

/// A line without a newline, starting with another letter than `p`, is skipped
/// when looking for the parent.
proof fn lemma_not_parent_line(l: Seq<char>, rest: Seq<char>)
    requires
        l.len() >= 2,
        l[0] != 'p',
        l.last() != '\r',
        forall|j: int| 0 <= j < l.len() ==> l[j] != '\n',
    ensures
        header_value(l + (seq!['\n'] + rest), parent_key()) == header_value(rest, parent_key()),
{
    lemma_header_line(l, rest, parent_key());
    if l.len() >= 7 {
        assert(l.subrange(0, 7)[0] != parent_key()[0]);
    }
}

proof fn lemma_parent_absent_lines(sig: Seq<char>, message: Seq<char>)
    requires
        forall|j: int| 0 <= j < sig.len() ==> sig[j] != '\n',
    ensures
        header_value(author_line(sig) + (seq!['\n'] + (committer_line(sig) + (seq!['\n'] + (seq!['\n'] + message)))), parent_key()) is None,
{
    let l3 = author_line(sig);
    let l4 = committer_line(sig);
    assert forall|j: int| 0 <= j < l3.len() implies l3[j] != '\n' by {
        if j >= 7 {
            assert(l3[j] == sig[j - 7]);
        }
    }
    assert forall|j: int| 0 <= j < l4.len() implies l4[j] != '\n' by {
        if j >= 10 {
            assert(l4[j] == sig[j - 10]);
        }
    }
    lemma_header_line(l3, committer_line(sig) + (seq!['\n'] + (seq!['\n'] + message)), parent_key());
    lemma_header_line(l4, seq!['\n'] + message, parent_key());
    lemma_header_line(Seq::empty(), message, parent_key());
    assert(Seq::<char>::empty() + (seq!['\n'] + message) =~= seq!['\n'] + message);
    let sl3 = strip_cr(l3);
    let sl4 = strip_cr(l4);
    assert(sl3.len() >= 7 && sl3[0] == 'a');
    assert(sl4.len() >= 10 && sl4[0] == 'c');
    assert(sl3.subrange(0, 7)[0] != parent_key()[0]);
    assert(sl4.subrange(0, 7)[0] != parent_key()[0]);
}

} // verus!
