//! Tree objects: one entry per direct child, `<mode> <name>\0` followed by the
//! twenty raw bytes of the child's hash, in canonical name order.
use crate::codec::{envelope, hash_object_bytes, hash_text, zlib_of, HashResult, ObjectType};
use crate::error::FluxError;
use crate::store::{holds, read_object, read_result, ObjectStore};
use crate::text::{from_hex, hex_of, is_object_hash, lemma_hex_of_len, lemma_hex_of_unhex, to_hex, unhex, utf8_text};
use vstd::prelude::*;
use vstd::string::StringExecFns;
use vstd::utf8::*;

verus! {

broadcast use vstd::seq_lib::group_to_multiset_ensures;

/// One child of a directory.
pub struct TreeEntry {
    pub mode: String,
    pub entry_type: String,
    pub hash: String,
    pub name: String,
}

/// The mode of a subdirectory, `040000`.
pub open spec fn dir_mode() -> Seq<u8> {
    seq![48u8, 52, 48, 48, 48, 48]
}

/// The name an entry sorts by: directories compare as if followed by `/`.
pub open spec fn sort_key(e: TreeEntry) -> Seq<u8> {
    if encode_utf8(e.mode@) == dir_mode() {
        encode_utf8(e.name@).push(47u8)
    } else {
        encode_utf8(e.name@)
    }
}

/// Byte-wise lexicographic order, as `str` and `String` compare.
pub open spec fn bytes_lt(a: Seq<u8>, b: Seq<u8>) -> bool
    decreases a.len(),
{
    if a.len() == 0 {
        b.len() > 0
    } else if b.len() == 0 {
        false
    } else if a[0] != b[0] {
        a[0] < b[0]
    } else {
        bytes_lt(a.drop_first(), b.drop_first())
    }
}

/// Entries in canonical order (equal keys in any order).
pub open spec fn key_sorted(s: Seq<TreeEntry>) -> bool {
    forall|i: int, j: int| 0 <= i < j < s.len() ==> !bytes_lt(sort_key(s[j]), sort_key(s[i]))
}

/// The serialized form of one entry.
pub open spec fn entry_bytes(e: TreeEntry) -> Seq<u8> {
    encode_utf8(e.mode@) + seq![32u8] + encode_utf8(e.name@) + seq![0u8] + unhex(e.hash@)
}

/// The serialized form of a sequence of entries, in that order.
pub open spec fn entries_bytes(s: Seq<TreeEntry>) -> Seq<u8>
    decreases s.len(),
{
    if s.len() == 0 {
        Seq::empty()
    } else {
        entry_bytes(s[0]) + entries_bytes(s.drop_first())
    }
}

/// A tree payload for the given entries: some canonical ordering of them, serialized.
pub open spec fn is_tree_content_of(c: Seq<u8>, entries: Seq<TreeEntry>) -> bool {
    exists|s: Seq<TreeEntry>|
        s.to_multiset() == entries.to_multiset() && key_sorted(s) && c == entries_bytes(s)
}

/// Position of the first `x` in `c`, or -1.
pub open spec fn first_of(c: Seq<u8>, x: u8) -> int
    decreases c.len(),
{
    if c.len() == 0 {
        -1
    } else if c[0] == x {
        0
    } else {
        let r = first_of(c.drop_first(), x);
        if r < 0 {
            -1
        } else {
            r + 1
        }
    }
}

/// The `(mode, name, raw hash)` fields of a tree payload, or `None` when it is malformed.
pub open spec fn parse_entries(c: Seq<u8>) -> Option<Seq<(Seq<u8>, Seq<u8>, Seq<u8>)>>
    decreases c.len(),
{
    if c.len() == 0 {
        Some(Seq::empty())
    } else {
        let sp = first_of(c, 32);
        if sp < 0 || sp >= c.len() {
            None
        } else {
            let after = c.subrange(sp + 1, c.len() as int);
            let nl = first_of(after, 0);
            if nl < 0 || nl + 21 > after.len() {
                None
            } else {
                match parse_entries(after.subrange(nl + 21, after.len() as int)) {
                    None => None,
                    Some(t) => Some(
                        seq![(c.subrange(0, sp), after.subrange(0, nl), after.subrange(nl + 1, nl + 21))]
                            + t,
                    ),
                }
            }
        }
    }
}

pub proof fn lemma_first_of(c: Seq<u8>, x: u8)
    ensures
        -1 <= first_of(c, x) < c.len(),
        first_of(c, x) >= 0 ==> c[first_of(c, x)] == x,
        forall|j: int| 0 <= j < c.len() && (first_of(c, x) < 0 || j < first_of(c, x)) ==> c[j] != x,
    decreases c.len(),
{
    if c.len() > 0 {
        lemma_first_of(c.drop_first(), x);
        assert forall|j: int| 0 <= j < c.len() && (first_of(c, x) < 0 || j < first_of(c, x)) implies c[j] != x by {
            if j > 0 {
                assert(c[j] == c.drop_first()[j - 1]);
            }
        }
    }
}

proof fn lemma_first_of_at(c: Seq<u8>, x: u8, i: int)
    requires
        0 <= i < c.len(),
        c[i] == x,
        forall|j: int| 0 <= j < i ==> c[j] != x,
    ensures
        first_of(c, x) == i,
{
    lemma_first_of(c, x);
}

proof fn lemma_lt_irreflexive(a: Seq<u8>)
    ensures
        !bytes_lt(a, a),
    decreases a.len(),
{
    if a.len() > 0 {
        lemma_lt_irreflexive(a.drop_first());
    }
}

proof fn lemma_lt_transitive(a: Seq<u8>, b: Seq<u8>, c: Seq<u8>)
    requires
        bytes_lt(a, b),
        bytes_lt(b, c),
    ensures
        bytes_lt(a, c),
    decreases a.len(),
{
    if a.len() > 0 && b.len() > 0 && c.len() > 0 && a[0] == b[0] && b[0] == c[0] {
        lemma_lt_transitive(a.drop_first(), b.drop_first(), c.drop_first());
    }
}

proof fn lemma_lt_total(a: Seq<u8>, b: Seq<u8>)
    ensures
        a == b || bytes_lt(a, b) || bytes_lt(b, a),
    decreases a.len(),
{
    if a.len() > 0 && b.len() > 0 && a[0] == b[0] {
        lemma_lt_total(a.drop_first(), b.drop_first());
        if a.drop_first() == b.drop_first() {
            assert(a =~= seq![a[0]] + a.drop_first());
            assert(b =~= seq![b[0]] + b.drop_first());
        }
    } else if a.len() == 0 && b.len() == 0 {
        assert(a =~= b);
    }
}

proof fn lemma_lt_asymmetric(a: Seq<u8>, b: Seq<u8>)
    requires
        bytes_lt(a, b),
    ensures
        !bytes_lt(b, a),
    decreases a.len(),
{
    if a.len() > 0 && b.len() > 0 && a[0] == b[0] {
        lemma_lt_asymmetric(a.drop_first(), b.drop_first());
    }
}

/// Byte-wise comparison of two byte strings.
fn bytes_less(a: &[u8], b: &[u8]) -> (r: bool)
    ensures
        r == bytes_lt(a@, b@),
{
    let mut i: usize = 0;
    proof {
        assert(a@.subrange(0, a@.len() as int) =~= a@);
        assert(b@.subrange(0, b@.len() as int) =~= b@);
    }
    while i < a.len() && i < b.len() && a[i] == b[i]
        invariant
            i <= a@.len(),
            i <= b@.len(),
            bytes_lt(a@, b@) == bytes_lt(a@.subrange(i as int, a@.len() as int), b@.subrange(i as int, b@.len() as int)),
        decreases a@.len() - i,
    {
        proof {
            let sa = a@.subrange(i as int, a@.len() as int);
            let sb = b@.subrange(i as int, b@.len() as int);
            assert(sa.drop_first() =~= a@.subrange(i + 1, a@.len() as int));
            assert(sb.drop_first() =~= b@.subrange(i + 1, b@.len() as int));
        }
        i = i + 1;
    }
    if i == a.len() {
        i < b.len()
    } else if i == b.len() {
        false
    } else {
        a[i] < b[i]
    }
}

fn is_dir_mode(mode: &String) -> (r: bool)
    ensures
        r == (encode_utf8(mode@) == dir_mode()),
{
    let m = mode.as_str().as_bytes();
    let d: [u8; 6] = [48u8, 52, 48, 48, 48, 48];
    if m.len() != 6 {
        return false;
    }
    let mut i: usize = 0;
    while i < 6
        invariant
            m@.len() == 6,
            m@ == encode_utf8(mode@),
            d@ == dir_mode(),
            i <= 6,
            forall|j: int| 0 <= j < i ==> m@[j] == d@[j],
        decreases 6 - i,
    {
        if m[i] != d[i] {
            return false;
        }
        i = i + 1;
    }
    proof {
        assert(m@ =~= dir_mode());
    }
    true
}

fn key_bytes(e: &TreeEntry) -> (r: Vec<u8>)
    ensures
        r@ == sort_key(*e),
{
    let mut v: Vec<u8> = Vec::new();
    append_bytes(&mut v, e.name.as_str().as_bytes());
    if is_dir_mode(&e.mode) {
        v.push(47u8);
    }
    v
}

fn append_bytes(v: &mut Vec<u8>, s: &[u8])
    ensures
        final(v)@ == old(v)@ + s@,
{
    let mut i: usize = 0;
    while i < s.len()
        invariant
            i <= s@.len(),
            v@ == old(v)@ + s@.subrange(0, i as int),
        decreases s@.len() - i,
    {
        v.push(s[i]);
        proof {
            assert(s@.subrange(0, i + 1) =~= s@.subrange(0, i as int).push(s@[i as int]));
        }
        i = i + 1;
    }
    proof {
        assert(s@.subrange(0, s@.len() as int) =~= s@);
    }
}

proof fn lemma_entries_bytes_push(s: Seq<TreeEntry>, e: TreeEntry)
    ensures
        entries_bytes(s.push(e)) == entries_bytes(s) + entry_bytes(e),
    decreases s.len(),
{
    if s.len() == 0 {
        assert(s.push(e).drop_first() =~= Seq::<TreeEntry>::empty());
        assert(entries_bytes(s.push(e).drop_first()) == Seq::<u8>::empty());
        assert(entries_bytes(s.push(e)) =~= entry_bytes(e));
        assert(entries_bytes(s) == Seq::<u8>::empty());
    } else {
        assert(s.push(e).drop_first() =~= s.drop_first().push(e));
        lemma_entries_bytes_push(s.drop_first(), e);
        assert(entries_bytes(s.push(e)) =~= entries_bytes(s) + entry_bytes(e));
    }
}

/// Puts entries in canonical order and concatenates their serialized forms.
pub fn build_tree_content(entries: Vec<TreeEntry>) -> (r: Vec<u8>)
    requires
        forall|i: int| 0 <= i < entries@.len() ==> is_object_hash(#[trigger] entries@[i].hash@),
    ensures
        is_tree_content_of(r@, entries@),
{
    let mut rem = entries;
    let mut keys: Vec<Vec<u8>> = Vec::new();
    let mut k: usize = 0;
    while k < rem.len()
        invariant
            k <= rem@.len(),
            keys@.len() == k,
            forall|j: int| 0 <= j < k ==> (#[trigger] keys@[j])@ == sort_key(rem@[j]),
        decreases rem@.len() - k,
    {
        keys.push(key_bytes(&rem[k]));
        k = k + 1;
    }
    let ghost all = rem@;
    let mut out: Vec<TreeEntry> = Vec::new();
    while rem.len() > 0
        invariant
            keys@.len() == rem@.len(),
            forall|j: int| 0 <= j < rem@.len() ==> (#[trigger] keys@[j])@ == sort_key(rem@[j]),
            out@.to_multiset().add(rem@.to_multiset()) == all.to_multiset(),
            key_sorted(out@),
            forall|a: int, b: int| 0 <= a < out@.len() && 0 <= b < rem@.len() ==> !bytes_lt(sort_key(rem@[b]), sort_key(out@[a])),
            forall|j: int| 0 <= j < all.len() ==> is_object_hash(#[trigger] all[j].hash@),
        decreases rem@.len(),
    {
        let mut mi: usize = 0;
        let mut i: usize = 1;
        proof {
            lemma_lt_irreflexive(sort_key(rem@[0]));
        }
        while i < rem.len()
            invariant
                keys@.len() == rem@.len(),
                forall|j: int| 0 <= j < rem@.len() ==> (#[trigger] keys@[j])@ == sort_key(rem@[j]),
                0 <= mi < i <= rem@.len(),
                forall|j: int| 0 <= j < i ==> !bytes_lt(sort_key(rem@[j]), sort_key(rem@[mi as int])),
            decreases rem@.len() - i,
        {
            if bytes_less(keys[i].as_slice(), keys[mi].as_slice()) {
                proof {
                    assert forall|j: int| 0 <= j < i + 1 implies !bytes_lt(sort_key(rem@[j]), sort_key(rem@[i as int])) by {
                        if j < i && bytes_lt(sort_key(rem@[j]), sort_key(rem@[i as int])) {
                            lemma_lt_transitive(sort_key(rem@[j]), sort_key(rem@[i as int]), sort_key(rem@[mi as int]));
                        }
                        if j == i {
                            lemma_lt_irreflexive(sort_key(rem@[j]));
                        }
                    }
                }
                mi = i;
            } else {
                proof {
                    assert(keys@[i as int]@ == sort_key(rem@[i as int]));
                }
            }
            i = i + 1;
        }
        let ghost old_rem = rem@;
        let ghost old_out = out@;
        let e = rem.remove(mi);
        let _ = keys.remove(mi);
        out.push(e);
        proof {
            assert(old_rem.remove(mi as int).to_multiset() == old_rem.to_multiset().remove(old_rem[mi as int]));
            assert(out@.to_multiset() == old_out.to_multiset().insert(e));
            assert(out@.to_multiset().add(rem@.to_multiset()) =~= all.to_multiset());
            assert(forall|j: int| 0 <= j < rem@.len() ==> rem@[j] == #[trigger] old_rem.remove(mi as int)[j]);
            assert forall|j: int| 0 <= j < rem@.len() implies (#[trigger] keys@[j])@ == sort_key(rem@[j]) by {
                if j < mi {
                    assert(rem@[j] == old_rem[j]);
                } else {
                    assert(rem@[j] == old_rem[j + 1]);
                }
            }
            assert forall|a: int, b: int| 0 <= a < out@.len() && 0 <= b < rem@.len() implies !bytes_lt(sort_key(rem@[b]), sort_key(out@[a])) by {
                let ob = if b < mi { b } else { b + 1 };
                assert(rem@[b] == old_rem[ob]);
                if a < old_out.len() {
                    assert(out@[a] == old_out[a]);
                } else {
                    assert(out@[a] == old_rem[mi as int]);
                }
            }
            assert forall|a: int, b: int| 0 <= a < b < out@.len() implies !bytes_lt(sort_key(out@[b]), sort_key(out@[a])) by {
                if b < old_out.len() {
                    assert(out@[a] == old_out[a]);
                    assert(out@[b] == old_out[b]);
                } else {
                    assert(out@[a] == old_out[a]);
                }
            }
        }
    }
    let mut content: Vec<u8> = Vec::new();
    let mut i: usize = 0;
    proof {
        assert(rem@.to_multiset().len() == 0);
        assert(out@.to_multiset() =~= all.to_multiset());
        assert forall|j: int| 0 <= j < out@.len() implies is_object_hash(#[trigger] out@[j].hash@) by {
            assert(out@.to_multiset().count(out@[j]) > 0);
            assert(all.contains(out@[j]));
        }
        assert(out@.subrange(0, 0) =~= Seq::<TreeEntry>::empty());
    }
    while i < out.len()
        invariant
            i <= out@.len(),
            content@ == entries_bytes(out@.subrange(0, i as int)),
            forall|j: int| 0 <= j < out@.len() ==> is_object_hash(#[trigger] out@[j].hash@),
        decreases out@.len() - i,
    {
        let e = &out[i];
        assert(is_object_hash(out@[i as int].hash@));
        let raw = from_hex(e.hash.as_str()).unwrap();
        let ghost before = content@;
        append_bytes(&mut content, e.mode.as_str().as_bytes());
        content.push(32u8);
        append_bytes(&mut content, e.name.as_str().as_bytes());
        content.push(0u8);
        append_bytes(&mut content, raw.as_slice());
        proof {
            assert(content@ =~= before + entry_bytes(*e));
            assert(out@.subrange(0, i + 1) =~= out@.subrange(0, i as int).push(*e));
            lemma_entries_bytes_push(out@.subrange(0, i as int), *e);
        }
        i = i + 1;
    }
    proof {
        assert(out@.subrange(0, out@.len() as int) =~= out@);
    }
    content
}


/// `entry_type` text for a mode: `tree` when it starts with `040`, else `blob`.
pub open spec fn type_word(mode: Seq<u8>) -> Seq<char> {
    if mode.len() >= 3 && mode[0] == 48 && mode[1] == 52 && mode[2] == 48 {
        seq!['t', 'r', 'e', 'e']
    } else {
        seq!['b', 'l', 'o', 'b']
    }
}

/// The parsed fields `(mode, name, raw hash)` decode to this entry.
pub open spec fn entry_from_fields(t: (Seq<u8>, Seq<u8>, Seq<u8>), e: TreeEntry) -> bool {
    &&& encode_utf8(e.mode@) == t.0
    &&& encode_utf8(e.name@) == t.1
    &&& e.hash@ == hex_of(t.2)
    &&& e.entry_type@ == type_word(t.0)
}

/// Mode and name are both UTF-8 text.
pub open spec fn fields_are_text(t: (Seq<u8>, Seq<u8>, Seq<u8>)) -> bool {
    valid_utf8(t.0) && valid_utf8(t.1)
}

/// The fields that serializing an entry writes.
pub open spec fn fields_of(e: TreeEntry) -> (Seq<u8>, Seq<u8>, Seq<u8>) {
    (encode_utf8(e.mode@), encode_utf8(e.name@), unhex(e.hash@))
}

/// An entry that serializes unambiguously: a mode without space, a name without
/// NUL, and a full object hash.
pub open spec fn entry_well_formed(e: TreeEntry) -> bool {
    &&& !encode_utf8(e.mode@).contains(32u8)
    &&& !encode_utf8(e.name@).contains(0u8)
    &&& is_object_hash(e.hash@)
}

spec fn combine(
    acc: Seq<(Seq<u8>, Seq<u8>, Seq<u8>)>,
    rest: Option<Seq<(Seq<u8>, Seq<u8>, Seq<u8>)>>,
) -> Option<Seq<(Seq<u8>, Seq<u8>, Seq<u8>)>> {
    match rest {
        None => None,
        Some(t) => Some(acc + t),
    }
}

fn copy_range(c: &[u8], a: usize, b: usize) -> (r: Vec<u8>)
    requires
        a <= b <= c@.len(),
    ensures
        r@ == c@.subrange(a as int, b as int),
{
    let mut v: Vec<u8> = Vec::new();
    let mut i: usize = a;
    while i < b
        invariant
            a <= i <= b <= c@.len(),
            v@ == c@.subrange(a as int, i as int),
        decreases b - i,
    {
        v.push(c[i]);
        proof {
            assert(c@.subrange(a as int, i + 1) =~= c@.subrange(a as int, i as int).push(c@[i as int]));
        }
        i = i + 1;
    }
    v
}

/// First position at or after `from` holding `x`, or `c.len()`.
fn find_from(c: &[u8], from: usize, x: u8) -> (r: usize)
    requires
        from <= c@.len(),
    ensures
        from <= r <= c@.len(),
        r < c@.len() ==> c@[r as int] == x,
        forall|j: int| from <= j < r ==> c@[j] != x,
{
    let mut i: usize = from;
    while i < c.len() && c[i] != x
        invariant
            from <= i <= c@.len(),
            forall|j: int| from <= j < i ==> c@[j] != x,
        decreases c@.len() - i,
    {
        i = i + 1;
    }
    i
}

fn ascii_word(tree: bool) -> (r: String)
    ensures
        r@ == (if tree { seq!['t', 'r', 'e', 'e'] } else { seq!['b', 'l', 'o', 'b'] }),
{
    let v: Vec<u8> = if tree { vec![116u8, 114, 101, 101] } else { vec![98u8, 108, 111, 98] };
    let r = crate::text::ascii_text(v);
    proof {
        assert(r@ =~= (if tree { seq!['t', 'r', 'e', 'e'] } else { seq!['b', 'l', 'o', 'b'] }));
    }
    r
}

/// Reads the entries of a tree payload, in stored order.
pub fn parse_tree_content(c: &[u8]) -> (r: Result<Vec<TreeEntry>, FluxError>)
    ensures
        match r {
            Ok(v) => parse_entries(c@) is Some && v@.len() == parse_entries(c@)->0.len() && forall|i: int|
                0 <= i < v@.len() ==> entry_from_fields(parse_entries(c@)->0[i], #[trigger] v@[i]),
            Err(e) => e == FluxError::MalformedTree && !(parse_entries(c@) is Some && forall|i: int|
                0 <= i < parse_entries(c@)->0.len() ==> fields_are_text(
                    #[trigger] parse_entries(c@)->0[i],
                )),
        },
{
    let mut out: Vec<TreeEntry> = Vec::new();
    let ghost mut acc: Seq<(Seq<u8>, Seq<u8>, Seq<u8>)> = Seq::empty();
    let mut pos: usize = 0;
    proof {
        assert(c@.subrange(0, c@.len() as int) =~= c@);
        assert(acc + parse_entries(c@)->0 =~= parse_entries(c@)->0);
    }
    while pos < c.len()
        invariant
            pos <= c@.len(),
            parse_entries(c@) == combine(acc, parse_entries(c@.subrange(pos as int, c@.len() as int))),
            out@.len() == acc.len(),
            forall|i: int| 0 <= i < acc.len() ==> entry_from_fields(acc[i], #[trigger] out@[i]),
        decreases c@.len() - pos,
    {
        let ghost tail = c@.subrange(pos as int, c@.len() as int);
        let q = find_from(c, pos, 32u8);
        proof {
            lemma_first_of(tail, 32u8);
            if q < c.len() {
                lemma_first_of_at(tail, 32u8, q - pos);
            } else if first_of(tail, 32u8) >= 0 {
                assert(tail[first_of(tail, 32u8)] == c@[pos + first_of(tail, 32u8)]);
            }
        }
        if q == c.len() {
            return Err(FluxError::MalformedTree);
        }
        let z = find_from(c, q + 1, 0u8);
        let ghost after = tail.subrange(q - pos + 1, tail.len() as int);
        proof {
            assert(after =~= c@.subrange(q + 1, c@.len() as int));
            lemma_first_of(after, 0u8);
            if z < c.len() {
                lemma_first_of_at(after, 0u8, z - q - 1);
            } else if first_of(after, 0u8) >= 0 {
                assert(after[first_of(after, 0u8)] == c@[q + 1 + first_of(after, 0u8)]);
            }
        }
        if z == c.len() || c.len() - z < 21 {
            return Err(FluxError::MalformedTree);
        }
        let mode_bytes = copy_range(c, pos, q);
        let name_bytes = copy_range(c, q + 1, z);
        let raw = copy_range(c, z + 1, z + 21);
        let ghost f = (mode_bytes@, name_bytes@, raw@);
        let ghost rest = after.subrange(z - q - 1 + 21, after.len() as int);
        proof {
            assert(rest =~= c@.subrange(z + 21, c@.len() as int));
            assert(tail.subrange(0, q - pos) =~= mode_bytes@);
            assert(after.subrange(0, z - q - 1) =~= name_bytes@);
            assert(after.subrange(z - q - 1 + 1, z - q - 1 + 21) =~= raw@);
            match parse_entries(rest) {
                None => {},
                Some(t) => {
                    assert(acc + (seq![f] + t) =~= acc.push(f) + t);
                },
            }
        }
        let is_tree = mode_bytes.len() >= 3 && mode_bytes[0] == 48 && mode_bytes[1] == 52 && mode_bytes[2] == 48;
        let mode = match utf8_text(mode_bytes) {
            Some(m) => m,
            None => {
                proof {
                    if parse_entries(c@) is Some {
                        assert(parse_entries(c@)->0[acc.len() as int] == f);
                    }
                }
                return Err(FluxError::MalformedTree);
            },
        };
        let name = match utf8_text(name_bytes) {
            Some(n) => n,
            None => {
                proof {
                    if parse_entries(c@) is Some {
                        assert(parse_entries(c@)->0[acc.len() as int] == f);
                    }
                }
                return Err(FluxError::MalformedTree);
            },
        };
        let hash = to_hex(raw.as_slice());
        let entry_type = ascii_word(is_tree);
        let e = TreeEntry { mode, entry_type, hash, name };
        let ghost prev = out@;
        out.push(e);
        proof {
            acc = acc.push(f);
            assert(entry_from_fields(f, e));
            assert forall|i: int| 0 <= i < acc.len() implies entry_from_fields(acc[i], #[trigger] out@[i]) by {
                if i < acc.len() - 1 {
                    assert(out@[i] == prev[i]);
                }
            }
        }
        pos = z + 21;
    }
    proof {
        assert(c@.subrange(pos as int, c@.len() as int) =~= Seq::<u8>::empty());
        assert(acc + Seq::<(Seq<u8>, Seq<u8>, Seq<u8>)>::empty() =~= acc);
    }
    Ok(out)
}


proof fn lemma_unhex_len(h: Seq<char>)
    requires
        is_object_hash(h),
    ensures
        unhex(h).len() == 20,
{
    lemma_hex_of_unhex(h);
    lemma_hex_of_len(unhex(h));
}

/// Serialized well-formed entries parse back to their own fields, in order.
pub proof fn lemma_parse_entries_bytes(s: Seq<TreeEntry>)
    requires
        forall|i: int| 0 <= i < s.len() ==> entry_well_formed(#[trigger] s[i]),
    ensures
        parse_entries(entries_bytes(s)) == Some(s.map_values(|e: TreeEntry| fields_of(e))),
    decreases s.len(),
{
    if s.len() == 0 {
        assert(s.map_values(|e: TreeEntry| fields_of(e)) =~= Seq::empty());
    } else {
        let e = s[0];
        assert(entry_well_formed(s[0]));
        let m = encode_utf8(e.mode@);
        let n = encode_utf8(e.name@);
        let ml: int = m.len() as int;
        let nl: int = n.len() as int;
        let h = unhex(e.hash@);
        lemma_unhex_len(e.hash@);
        let rest = entries_bytes(s.drop_first());
        let c = entries_bytes(s);
        assert(c =~= m + seq![32u8] + n + seq![0u8] + h + rest);
        assert forall|j: int| 0 <= j < m.len() implies c[j] != 32u8 by {
            assert(c[j] == m[j]);
            assert(m.contains(m[j]));
        }
        lemma_first_of_at(c, 32u8, m.len() as int);
        let after = c.subrange(ml + 1, c.len() as int);
        assert(after =~= n + seq![0u8] + h + rest);
        assert forall|j: int| 0 <= j < n.len() implies after[j] != 0u8 by {
            assert(after[j] == n[j]);
            assert(n.contains(n[j]));
        }
        lemma_first_of_at(after, 0u8, n.len() as int);
        assert(after.subrange(nl + 21, after.len() as int) =~= rest);
        assert forall|i: int| 0 <= i < s.drop_first().len() implies entry_well_formed(#[trigger] s.drop_first()[i]) by {
            assert(s.drop_first()[i] == s[i + 1]);
        }
        lemma_parse_entries_bytes(s.drop_first());
        assert(c.subrange(0, m.len() as int) =~= m);
        assert(after.subrange(0, n.len() as int) =~= n);
        assert(after.subrange(nl + 1, nl + 21) =~= h);
        assert(s.map_values(|e: TreeEntry| fields_of(e)) =~= seq![fields_of(e)] + s.drop_first().map_values(|e: TreeEntry| fields_of(e)));
    }
}

/// Reading back a tree payload built from well-formed entries gives the fields of
/// those same entries, in canonical order.
pub proof fn lemma_tree_round_trip(entries: Seq<TreeEntry>, c: Seq<u8>)
    requires
        forall|i: int| 0 <= i < entries.len() ==> entry_well_formed(#[trigger] entries[i]),
        is_tree_content_of(c, entries),
    ensures
        exists|s: Seq<TreeEntry>|
            s.to_multiset() == entries.to_multiset() && key_sorted(s) && parse_entries(c) == Some(
                s.map_values(|e: TreeEntry| fields_of(e)),
            ),
{
    let s = choose|s: Seq<TreeEntry>|
        s.to_multiset() == entries.to_multiset() && key_sorted(s) && c == entries_bytes(s);
    assert forall|i: int| 0 <= i < s.len() implies entry_well_formed(#[trigger] s[i]) by {
        assert(s.to_multiset().count(s[i]) > 0);
        assert(entries.contains(s[i]));
    }
    lemma_parse_entries_bytes(s);
}

/// Entries whose sort names are pairwise distinct.
pub open spec fn distinct_keys(s: Seq<TreeEntry>) -> bool {
    forall|i: int, j: int| 0 <= i < s.len() && 0 <= j < s.len() && i != j ==> sort_key(s[i]) != sort_key(s[j])
}

proof fn lemma_sorted_unique(a: Seq<TreeEntry>, b: Seq<TreeEntry>)
    requires
        a.to_multiset() == b.to_multiset(),
        key_sorted(a),
        key_sorted(b),
        distinct_keys(a),
    ensures
        a == b,
    decreases a.len(),
{
    assert(a.len() == a.to_multiset().len());
    assert(b.len() == b.to_multiset().len());
    if a.len() > 0 {
        let x = a[0];
        let y = b[0];
        assert(b.to_multiset().count(y) > 0);
        assert(a.contains(y));
        let i = choose|i: int| 0 <= i < a.len() && a[i] == y;
        assert(a.to_multiset().count(x) > 0);
        assert(b.contains(x));
        let j = choose|j: int| 0 <= j < b.len() && b[j] == x;
        if x != y {
            assert(i != 0);
            assert(j != 0);
            assert(!bytes_lt(sort_key(y), sort_key(x)));
            assert(!bytes_lt(sort_key(x), sort_key(y)));
            lemma_lt_total(sort_key(x), sort_key(y));
            assert(sort_key(a[i]) != sort_key(a[0]));
        }
        assert(a.remove(0) =~= a.drop_first());
        assert(b.remove(0) =~= b.drop_first());
        assert(a.drop_first().to_multiset() == a.to_multiset().remove(x));
        assert(b.drop_first().to_multiset() == b.to_multiset().remove(y));
        let a1 = a.drop_first();
        let b1 = b.drop_first();
        assert(key_sorted(a1)) by {
            assert forall|p: int, q: int| 0 <= p < q < a1.len() implies !bytes_lt(sort_key(a1[q]), sort_key(a1[p])) by {
                assert(a1[p] == a[p + 1] && a1[q] == a[q + 1]);
            }
        }
        assert(key_sorted(b1)) by {
            assert forall|p: int, q: int| 0 <= p < q < b1.len() implies !bytes_lt(sort_key(b1[q]), sort_key(b1[p])) by {
                assert(b1[p] == b[p + 1] && b1[q] == b[q + 1]);
            }
        }
        assert(distinct_keys(a1)) by {
            assert forall|p: int, q: int| 0 <= p < a1.len() && 0 <= q < a1.len() && p != q implies sort_key(a1[p]) != sort_key(a1[q]) by {
                assert(a1[p] == a[p + 1] && a1[q] == a[q + 1]);
            }
        }
        lemma_sorted_unique(a1, b1);
        assert(a =~= seq![x] + a1);
        assert(b =~= seq![y] + b1);
    } else {
        assert(a =~= b);
    }
}

/// The tree payload does not depend on the order in which entries are given:
/// the same entries, with distinct names, in any order, give the same bytes.
pub proof fn lemma_tree_content_order_independent(
    a: Seq<TreeEntry>,
    b: Seq<TreeEntry>,
    ca: Seq<u8>,
    cb: Seq<u8>,
)
    requires
        a.to_multiset() == b.to_multiset(),
        distinct_keys(a),
        is_tree_content_of(ca, a),
        is_tree_content_of(cb, b),
    ensures
        ca == cb,
{
    let sa = choose|s: Seq<TreeEntry>| s.to_multiset() == a.to_multiset() && key_sorted(s) && ca == entries_bytes(s);
    let sb = choose|s: Seq<TreeEntry>| s.to_multiset() == b.to_multiset() && key_sorted(s) && cb == entries_bytes(s);
    assert(distinct_keys(sa)) by {
        assert forall|p: int, q: int| 0 <= p < sa.len() && 0 <= q < sa.len() && p != q implies sort_key(sa[p]) != sort_key(sa[q]) by {
            if sort_key(sa[p]) == sort_key(sa[q]) {
                lemma_distinct_count(a, sa, p, q);
            }
        }
    }
    lemma_sorted_unique(sa, sb);
}

/// The entries of one directory: pairwise distinct names, none holding `/`.
pub open spec fn directory_entries(s: Seq<TreeEntry>) -> bool {
    &&& forall|i: int, j: int| 0 <= i < s.len() && 0 <= j < s.len() && i != j ==> s[i].name@ != s[j].name@
    &&& forall|i: int| 0 <= i < s.len() ==> !encode_utf8(#[trigger] s[i].name@).contains(47u8)
}

/// The tree payload of a directory does not depend on the order in which its
/// entries are listed.
pub proof fn lemma_directory_content_order_independent(a: Seq<TreeEntry>, b: Seq<TreeEntry>, ca: Seq<u8>, cb: Seq<u8>)
    requires
        a.to_multiset() == b.to_multiset(),
        directory_entries(a),
        is_tree_content_of(ca, a),
        is_tree_content_of(cb, b),
    ensures
        ca == cb,
{
    assert forall|i: int, j: int| 0 <= i < a.len() && 0 <= j < a.len() && i != j implies sort_key(a[i]) != sort_key(a[j]) by {
        let ni = encode_utf8(a[i].name@);
        let nj = encode_utf8(a[j].name@);
        encode_utf8_decode_utf8(a[i].name@);
        encode_utf8_decode_utf8(a[j].name@);
        if sort_key(a[i]) == sort_key(a[j]) {
            let di = encode_utf8(a[i].mode@) == dir_mode();
            let dj = encode_utf8(a[j].mode@) == dir_mode();
            if di && dj {
                assert(ni.push(47u8).drop_last() =~= ni);
                assert(nj.push(47u8).drop_last() =~= nj);
            } else if di {
                assert(nj == ni.push(47u8));
                assert(nj[nj.len() - 1] == 47u8);
                assert(nj.contains(47u8));
            } else if dj {
                assert(ni == nj.push(47u8));
                assert(ni[ni.len() - 1] == 47u8);
                assert(ni.contains(47u8));
            }
        }
    }
    lemma_tree_content_order_independent(a, b, ca, cb);
}

/// A permutation of entries with distinct names has distinct names too.
proof fn lemma_distinct_count(a: Seq<TreeEntry>, s: Seq<TreeEntry>, p: int, q: int)
    requires
        s.to_multiset() == a.to_multiset(),
        distinct_keys(a),
        0 <= p < s.len(),
        0 <= q < s.len(),
        p != q,
    ensures
        sort_key(s[p]) != sort_key(s[q]),
{
    if sort_key(s[p]) != sort_key(s[q]) {
        return;
    }
    assert(s.to_multiset().count(s[p]) > 0);
    assert(a.contains(s[p]));
    let i = choose|i: int| 0 <= i < a.len() && a[i] == s[p];
    assert(s.to_multiset().count(s[q]) > 0);
    assert(a.contains(s[q]));
    let j = choose|j: int| 0 <= j < a.len() && a[j] == s[q];
    if i != j {
        assert(sort_key(a[i]) != sort_key(a[j]));
    } else {
        // the same entry sits at p and q: it occurs twice in s, once in a
        lemma_count_two(s, p, q);
        lemma_count_one(a, i);
    }
}

proof fn lemma_count_two(s: Seq<TreeEntry>, p: int, q: int)
    requires
        0 <= p < s.len(),
        0 <= q < s.len(),
        p != q,
        s[p] == s[q],
    ensures
        s.to_multiset().count(s[p]) >= 2,
{
    let x = s[p];
    let r = s.remove(p);
    assert(r.to_multiset() == s.to_multiset().remove(x));
    let q2 = if q < p { q } else { q - 1 };
    assert(r[q2] == x);
    assert(r.to_multiset().count(x) > 0);
}

proof fn lemma_count_one(a: Seq<TreeEntry>, i: int)
    requires
        0 <= i < a.len(),
        distinct_keys(a),
    ensures
        a.to_multiset().count(a[i]) == 1,
{
    let x = a[i];
    let r = a.remove(i);
    assert(r.to_multiset() == a.to_multiset().remove(x));
    assert(!r.contains(x)) by {
        if r.contains(x) {
            let k = choose|k: int| 0 <= k < r.len() && r[k] == x;
            let k2 = if k < i { k } else { k + 1 };
            assert(a[k2] == x);
            assert(sort_key(a[k2]) != sort_key(a[i]));
        }
    }
    assert(r.to_multiset().count(x) == 0);
}

/// Encodes a tree payload as a tree object.
pub fn hash_tree(tree_content: Vec<u8>) -> (r: HashResult)
    ensures
        r.object_hash@ == hash_text(envelope(ObjectType::Tree, tree_content@)),
        is_object_hash(r.object_hash@),
        r.compressed_content@ == zlib_of(envelope(ObjectType::Tree, tree_content@)),
{
    hash_object_bytes(ObjectType::Tree, tree_content.as_slice())
}

/// One listing line: `<mode> <blob|tree> <hash> <name>` and a newline.
pub open spec fn ls_line(e: TreeEntry) -> Seq<char> {
    e.mode@ + seq![' '] + type_word(encode_utf8(e.mode@)) + seq![' '] + e.hash@ + seq![' '] + e.name@
        + seq!['\n']
}

/// The listing of entries, one line each, in order.
pub open spec fn ls_text(s: Seq<TreeEntry>) -> Seq<char>
    decreases s.len(),
{
    if s.len() == 0 {
        Seq::empty()
    } else {
        ls_text(s.drop_last()) + ls_line(s.last())
    }
}

fn mode_is_tree(mode: &String) -> (r: bool)
    ensures
        r == (type_word(encode_utf8(mode@)) == seq!['t', 'r', 'e', 'e']),
{
    let m = mode.as_str().as_bytes();
    let r = m.len() >= 3 && m[0] == 48 && m[1] == 52 && m[2] == 48;
    proof {
        assert(seq!['t', 'r', 'e', 'e'] != seq!['b', 'l', 'o', 'b']) by {
            assert(seq!['t', 'r', 'e', 'e'][0] != seq!['b', 'l', 'o', 'b'][0]);
        }
    }
    r
}

/// Renders entries as listing lines.
pub fn render_entries(entries: &Vec<TreeEntry>) -> (r: String)
    ensures
        r@ == ls_text(entries@),
{
    let sp = crate::text::ascii_text(vec![32u8]);
    let nl = crate::text::ascii_text(vec![10u8]);
    proof {
        assert(sp@ =~= seq![' ']);
        assert(nl@ =~= seq!['\n']);
    }
    let mut out = crate::text::ascii_text(Vec::new());
    proof {
        assert(out@ =~= Seq::<char>::empty());
        assert(entries@.subrange(0, 0) =~= Seq::<TreeEntry>::empty());
    }
    let mut i: usize = 0;
    while i < entries.len()
        invariant
            i <= entries@.len(),
            out@ == ls_text(entries@.subrange(0, i as int)),
            sp@ == seq![' '],
            nl@ == seq!['\n'],
        decreases entries@.len() - i,
    {
        let e = &entries[i];
        let word = ascii_word(mode_is_tree(&e.mode));
        proof {
            let t = type_word(encode_utf8(e.mode@));
            assert(t == seq!['t', 'r', 'e', 'e'] || t == seq!['b', 'l', 'o', 'b']);
        }
        out.append(e.mode.as_str());
        out.append(sp.as_str());
        out.append(word.as_str());
        out.append(sp.as_str());
        out.append(e.hash.as_str());
        out.append(sp.as_str());
        out.append(e.name.as_str());
        out.append(nl.as_str());
        proof {
            let s1 = entries@.subrange(0, i + 1);
            assert(s1.drop_last() =~= entries@.subrange(0, i as int));
            assert(out@ =~= ls_text(s1));
        }
        i = i + 1;
    }
    proof {
        assert(entries@.subrange(0, entries@.len() as int) =~= entries@);
    }
    out
}

/// `v` are the entries that the tree payload `p` holds, in stored order.
pub open spec fn entries_parsed(p: Seq<u8>, v: Seq<TreeEntry>) -> bool {
    parse_entries(p) is Some && v.len() == parse_entries(p)->0.len() && forall|i: int|
        0 <= i < v.len() ==> entry_from_fields(parse_entries(p)->0[i], #[trigger] v[i])
}

/// The tree payload `p` is cut short, lacks a delimiter, or has a mode or name
/// that is not text.
pub open spec fn tree_malformed(p: Seq<u8>) -> bool {
    !(parse_entries(p) is Some && forall|i: int|
        0 <= i < parse_entries(p)->0.len() ==> fields_are_text(#[trigger] parse_entries(p)->0[i]))
}

/// The entries of the tree stored under `tree_hash`.
pub fn parse_tree(store: &ObjectStore, tree_hash: &str) -> (r: Result<Vec<TreeEntry>, FluxError>)
    requires
        store.wf(),
    ensures
        read_result(store@, tree_hash@) matches Err(e) ==> r == Err::<Vec<TreeEntry>, FluxError>(e),
        read_result(store@, tree_hash@) matches Ok(kp) ==> (kp.0 != ObjectType::Tree ==> r == Err::<Vec<TreeEntry>, FluxError>(FluxError::WrongObjectType)),
        read_result(store@, tree_hash@) matches Ok(kp) ==> (kp.0 == ObjectType::Tree ==> match r {
            Ok(v) => entries_parsed(kp.1, v@),
            Err(e) => e == FluxError::MalformedTree && tree_malformed(kp.1),
        }),
        forall|k: ObjectType, p: Seq<u8>| #[trigger] holds(store@, tree_hash@, k, p) ==> k != ObjectType::Tree ==> r == Err::<Vec<TreeEntry>, FluxError>(FluxError::WrongObjectType),
        forall|p: Seq<u8>| #[trigger] holds(store@, tree_hash@, ObjectType::Tree, p) ==> match r {
            Ok(v) => entries_parsed(p, v@),
            Err(e) => e == FluxError::MalformedTree && tree_malformed(p),
        },
{
    let obj = read_object(store, tree_hash)?;
    if obj.object_type != ObjectType::Tree {
        return Err(FluxError::WrongObjectType);
    }
    parse_tree_content(obj.decompressed_content.as_slice())
}

/// The listing of the tree stored under `tree_hash`: one
/// `<mode> <blob|tree> <hash> <name>` line per entry; it fails exactly where
/// `parse_tree` fails, with the same error.
pub fn ls_tree(store: &ObjectStore, tree_hash: &str) -> (r: Result<String, FluxError>)
    requires
        store.wf(),
    ensures
        read_result(store@, tree_hash@) matches Err(e) ==> r == Err::<String, FluxError>(e),
        read_result(store@, tree_hash@) matches Ok(kp) ==> (kp.0 != ObjectType::Tree ==> r == Err::<String, FluxError>(FluxError::WrongObjectType)),
        read_result(store@, tree_hash@) matches Ok(kp) ==> (kp.0 == ObjectType::Tree ==> match r {
            Ok(text) => exists|v: Seq<TreeEntry>| text@ == ls_text(v) && entries_parsed(kp.1, v),
            Err(e) => e == FluxError::MalformedTree && tree_malformed(kp.1),
        }),
        forall|k: ObjectType, p: Seq<u8>| #[trigger] holds(store@, tree_hash@, k, p) ==> k != ObjectType::Tree ==> r == Err::<String, FluxError>(FluxError::WrongObjectType),
        forall|p: Seq<u8>| #[trigger] holds(store@, tree_hash@, ObjectType::Tree, p) ==> match r {
            Ok(text) => exists|v: Seq<TreeEntry>| text@ == ls_text(v) && entries_parsed(p, v),
            Err(e) => e == FluxError::MalformedTree && tree_malformed(p),
        },
{
    let entries = parse_tree(store, tree_hash)?;
    Ok(render_entries(&entries))
}

} // verus!
