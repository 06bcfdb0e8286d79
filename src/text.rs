//! Byte and text helpers: UTF-8 conversion and lowercase hexadecimal.
use vstd::prelude::*;
use vstd::string::{StrSliceExecFns, StringExecFns};
use vstd::utf8::*;

verus! {

broadcast use {encode_utf8_valid_utf8, encode_utf8_decode_utf8, is_ascii_chars_encode_utf8};

/// Lowercase hexadecimal digit for a value below sixteen.
pub open spec fn nibble_char(n: int) -> char {
    if n < 10 {
        (48 + n) as char
    } else {
        (87 + n) as char
    }
}

/// Lowercase hexadecimal rendering, two digits per byte, high nibble first.
pub open spec fn hex_of(b: Seq<u8>) -> Seq<char>
    decreases b.len(),
{
    if b.len() == 0 {
        Seq::empty()
    } else {
        hex_of(b.drop_last()).push(nibble_char(b.last() as int / 16)).push(nibble_char(b.last() as int % 16))
    }
}

/// Value of a hexadecimal digit of either case, or -1.
pub open spec fn hex_value(c: char) -> int {
    if '0' <= c && c <= '9' {
        c as int - 48
    } else if 'a' <= c && c <= 'f' {
        c as int - 87
    } else if 'A' <= c && c <= 'F' {
        c as int - 55
    } else {
        -1
    }
}

/// Every character is a hexadecimal digit of either case.
pub open spec fn is_hex_text(s: Seq<char>) -> bool {
    forall|i: int| 0 <= i < s.len() ==> hex_value(#[trigger] s[i]) >= 0
}

/// Every character is a lowercase hexadecimal digit.
pub open spec fn is_lower_hex(s: Seq<char>) -> bool {
    forall|i: int|
        0 <= i < s.len() ==> ('0' <= #[trigger] s[i] && s[i] <= '9') || ('a' <= s[i] && s[i] <= 'f')
}

/// The bytes that a hexadecimal text of even length spells, two digits each.
pub open spec fn unhex(s: Seq<char>) -> Seq<u8>
    decreases s.len(),
{
    if s.len() < 2 {
        Seq::empty()
    } else {
        unhex(s.subrange(0, s.len() - 2)).push(
            (hex_value(s[s.len() - 2]) * 16 + hex_value(s[s.len() - 1])) as u8,
        )
    }
}

/// An object name: forty lowercase hexadecimal digits.
pub open spec fn is_object_hash(s: Seq<char>) -> bool {
    s.len() == 40 && is_lower_hex(s)
}

/// Characters standing for the bytes one for one.
pub open spec fn ascii_chars(b: Seq<u8>) -> Seq<char> {
    b.map_values(|x: u8| x as char)
}

pub proof fn lemma_hex_of_len(b: Seq<u8>)
    ensures
        hex_of(b).len() == 2 * b.len(),
    decreases b.len(),
{
    if b.len() > 0 {
        lemma_hex_of_len(b.drop_last());
    }
}

pub proof fn lemma_hex_of_lower(b: Seq<u8>)
    ensures
        is_lower_hex(hex_of(b)),
    decreases b.len(),
{
    if b.len() > 0 {
        lemma_hex_of_lower(b.drop_last());
        let h = hex_of(b.drop_last());
        let x = b.last() as int;
        assert(x / 16 < 16);
        assert forall|i: int| 0 <= i < hex_of(b).len() implies ('0' <= #[trigger] hex_of(b)[i] && hex_of(b)[i] <= '9') || ('a' <= hex_of(b)[i] && hex_of(b)[i] <= 'f') by {
            if i < h.len() {
                assert(hex_of(b)[i] == h[i]);
            }
        }
    }
}

/// Rendering the bytes of a lowercase hexadecimal text of even length gives the text back.
pub proof fn lemma_hex_of_unhex(s: Seq<char>)
    requires
        is_lower_hex(s),
        s.len() % 2 == 0,
    ensures
        hex_of(unhex(s)) == s,
    decreases s.len(),
{
    if s.len() >= 2 {
        let p = s.subrange(0, s.len() - 2);
        assert(is_lower_hex(p)) by {
            assert forall|i: int| 0 <= i < p.len() implies ('0' <= #[trigger] p[i] && p[i] <= '9') || ('a' <= p[i] && p[i] <= 'f') by {
                assert(p[i] == s[i]);
            }
        }
        lemma_hex_of_unhex(p);
        let hi = hex_value(s[s.len() - 2]);
        let lo = hex_value(s[s.len() - 1]);
        assert(s[s.len() - 2] == s[s.len() - 2]);
        assert(0 <= hi < 16 && 0 <= lo < 16);
        let x = (hi * 16 + lo) as u8;
        assert(x / 16 == hi && x % 16 == lo);
        assert(unhex(s).drop_last() =~= unhex(p));
        assert(nibble_char(hi) == s[s.len() - 2]);
        assert(nibble_char(lo) == s[s.len() - 1]);
        assert(hex_of(unhex(s)) =~= s);
    }
}

/// Relies on `String::from_utf8`: `Ok` exactly on well-formed UTF-8, holding the decoded text.
#[verifier::external_body]
fn string_from_utf8(v: Vec<u8>) -> (r: Option<String>)
    ensures
        r is Some <==> valid_utf8(v@),
        r is Some ==> r->0@ == decode_utf8(v@),
{
    String::from_utf8(v).ok()
}

/// Text from bytes, when they are well-formed UTF-8.
pub fn utf8_text(v: Vec<u8>) -> (r: Option<String>)
    ensures
        r is Some <==> valid_utf8(v@),
        r is Some ==> r->0@ == decode_utf8(v@) && encode_utf8(r->0@) == v@,
{
    proof {
        if valid_utf8(v@) {
            decode_utf8_encode_utf8(v@);
        }
    }
    string_from_utf8(v)
}

/// Text from ASCII bytes, one character per byte.
pub fn ascii_text(v: Vec<u8>) -> (r: String)
    requires
        forall|i: int| 0 <= i < v@.len() ==> v@[i] < 128,
    ensures
        r@ == ascii_chars(v@),
{
    let ghost c = ascii_chars(v@);
    proof {
        assert(is_ascii_chars(c));
        assert(encode_utf8(c) =~= v@);
    }
    let r = string_from_utf8(v);
    r.unwrap()
}

/// Lowercase hexadecimal rendering of bytes.
pub fn to_hex(b: &[u8]) -> (r: String)
    ensures
        r@ == hex_of(b@),
{
    let mut v: Vec<u8> = Vec::new();
    let mut i: usize = 0;
    while i < b.len()
        invariant
            i <= b@.len(),
            ascii_chars(v@) == hex_of(b@.subrange(0, i as int)),
            v@.len() == 2 * i,
            forall|j: int| 0 <= j < v@.len() ==> v@[j] < 128,
        decreases b@.len() - i,
    {
        let x = b[i];
        let hi: u8 = x / 16;
        let lo: u8 = x % 16;
        let ch: u8 = if hi < 10 { 48 + hi } else { 87 + hi };
        let cl: u8 = if lo < 10 { 48 + lo } else { 87 + lo };
        v.push(ch);
        v.push(cl);
        proof {
            let s = b@.subrange(0, i + 1);
            assert(s.drop_last() =~= b@.subrange(0, i as int));
            assert(ascii_chars(v@) =~= hex_of(s));
        }
        i = i + 1;
    }
    proof {
        assert(b@.subrange(0, b@.len() as int) =~= b@);
    }
    ascii_text(v)
}

/// Relies on `hex::decode`: an even number of hexadecimal digits of either case is
/// read two digits per byte, high nibble first; odd length or another character fails.
#[verifier::external_body]
fn hex_decode(s: &str) -> (r: Option<Vec<u8>>)
    ensures
        r is Some <==> (s@.len() % 2 == 0 && is_hex_text(s@)),
        r is Some ==> r->0@ == unhex(s@),
{
    hex::decode(s.as_bytes()).ok()
}

/// The bytes that a hexadecimal text spells, or `None` when it is not one.
pub fn from_hex(s: &str) -> (r: Option<Vec<u8>>)
    ensures
        r is Some <==> (s@.len() % 2 == 0 && is_hex_text(s@)),
        r is Some ==> r->0@ == unhex(s@),
{
    hex_decode(s)
}

/// Whether two texts are equal.
pub fn text_eq(a: &str, b: &str) -> (r: bool)
    ensures
        r == (a@ == b@),
{
    let x = a.as_bytes();
    let y = b.as_bytes();
    proof {
        encode_utf8_decode_utf8(a@);
        encode_utf8_decode_utf8(b@);
    }
    if x.len() != y.len() {
        proof {
            if a@ == b@ {
                assert(x@ == y@);
            }
        }
        return false;
    }
    let mut i: usize = 0;
    while i < x.len()
        invariant
            x@.len() == y@.len(),
            x@ == encode_utf8(a@),
            y@ == encode_utf8(b@),
            i <= x@.len(),
            forall|j: int| 0 <= j < i ==> x@[j] == y@[j],
        decreases x@.len() - i,
    {
        if x[i] != y[i] {
            proof {
                if a@ == b@ {
                    assert(x@ == y@);
                }
            }
            return false;
        }
        i = i + 1;
    }
    proof {
        assert(x@ =~= y@);
    }
    true
}

/// `s` begins with `p`.
pub open spec fn has_prefix(s: Seq<char>, p: Seq<char>) -> bool {
    s.len() >= p.len() && s.subrange(0, p.len() as int) == p
}

/// What follows `p` in `s`, when `s` begins with `p`.
pub fn strip_prefix(s: &str, p: &str) -> (r: Option<String>)
    ensures
        match r {
            Some(t) => has_prefix(s@, p@) && t@ == s@.subrange(p@.len() as int, s@.len() as int),
            None => !has_prefix(s@, p@),
        },
{
    let n = s.unicode_len();
    let m = p.unicode_len();
    if n < m {
        return None;
    }
    let mut i: usize = 0;
    while i < m
        invariant
            n == s@.len(),
            m == p@.len(),
            m <= n,
            i <= m,
            forall|j: int| 0 <= j < i ==> s@[j] == p@[j],
        decreases m - i,
    {
        if s.get_char(i) != p.get_char(i) {
            proof {
                if has_prefix(s@, p@) {
                    assert(s@.subrange(0, m as int)[i as int] == s@[i as int]);
                }
            }
            return None;
        }
        i = i + 1;
    }
    proof {
        assert(s@.subrange(0, m as int) =~= p@);
    }
    Some(String::from_str(s.substring_char(m, n)))
}

/// Concatenation of two texts.
pub fn join_text(a: &str, b: &str) -> (r: String)
    ensures
        r@ == a@ + b@,
{
    let mut r = String::from_str(a);
    r.append(b);
    r
}

/// A copy of a text.
pub fn copy_text(a: &str) -> (r: String)
    ensures
        r@ == a@,
{
    String::from_str(a)
}

} // verus!
