//! Object codec: the `<kind> <size>\0<payload>` envelope, SHA-1 naming and
//! zlib compression.
use crate::error::FluxError;
use crate::text::{hex_of, is_object_hash, lemma_hex_of_len, lemma_hex_of_lower, to_hex};
use vstd::prelude::*;

verus! {

/// The three kinds of stored object.
#[derive(Clone, Copy, Debug, PartialEq, Eq, Structural)]
pub enum ObjectType {
    Blob,
    Tree,
    Commit,
}

/// An object read back from the store.
pub struct GenericObject {
    pub object_type: ObjectType,
    pub size: usize,
    pub decompressed_content: Vec<u8>,
}

/// An encoded object, ready to be stored.
pub struct HashResult {
    pub object_hash: String,
    pub compressed_content: Vec<u8>,
}

/// The twenty-byte SHA-1 digest of a byte sequence.
pub uninterp spec fn sha1_of(b: Seq<u8>) -> Seq<u8>;

/// The zlib stream that compression at the default level writes for a byte sequence.
pub uninterp spec fn zlib_of(b: Seq<u8>) -> Seq<u8>;

/// What zlib decompression of a byte stream gives, read to its end; `None` when
/// the stream is not valid zlib data.
pub uninterp spec fn inflate_of(c: Seq<u8>) -> Option<Seq<u8>>;

/// The name of content: its SHA-1 digest in lowercase hexadecimal.
pub open spec fn hash_text(b: Seq<u8>) -> Seq<char> {
    hex_of(sha1_of(b))
}

/// The word that names a kind in an envelope header.
pub open spec fn kind_name(k: ObjectType) -> Seq<u8> {
    match k {
        ObjectType::Blob => seq![98u8, 108, 111, 98],
        ObjectType::Tree => seq![116u8, 114, 101, 101],
        ObjectType::Commit => seq![99u8, 111, 109, 109, 105, 116],
    }
}

pub open spec fn is_digit(c: u8) -> bool {
    48 <= c && c <= 57
}

pub open spec fn all_digits(s: Seq<u8>) -> bool {
    forall|i: int| 0 <= i < s.len() ==> is_digit(#[trigger] s[i])
}

/// Decimal rendering of a number, without leading zeros.
pub open spec fn dec_of(n: nat) -> Seq<u8>
    decreases n,
{
    if n < 10 {
        seq![(48 + n) as u8]
    } else {
        dec_of(n / 10).push((48 + n % 10) as u8)
    }
}

/// The number that a string of decimal digits spells.
pub open spec fn dec_value(s: Seq<u8>) -> nat
    decreases s.len(),
{
    if s.len() == 0 {
        0
    } else {
        dec_value(s.drop_last()) * 10 + (s.last() - 48) as nat
    }
}

/// The bytes that are hashed and compressed for an object.
pub open spec fn envelope(k: ObjectType, payload: Seq<u8>) -> Seq<u8> {
    kind_name(k) + seq![32u8] + dec_of(payload.len()) + seq![0u8] + payload
}

/// `p` is the position of the first NUL byte.
pub open spec fn first_nul(d: Seq<u8>, p: int) -> bool {
    0 <= p < d.len() && d[p] == 0 && forall|i: int| 0 <= i < p ==> d[i] != 0
}

/// A header `<kind> <digits>` that announces a payload of `n` bytes.
pub open spec fn header_fits(h: Seq<u8>, k: ObjectType, n: nat) -> bool {
    let w: int = kind_name(k).len() as int + 1;
    h.len() > w && h.subrange(0, w - 1) == kind_name(k) && h[w - 1] == 32 && all_digits(
        h.subrange(w, h.len() as int),
    ) && dec_value(h.subrange(w, h.len() as int)) == n
}

/// What a decompressed object holds: its kind and payload, or `None` when the
/// envelope is malformed.
pub open spec fn decode_envelope(d: Seq<u8>) -> Option<(ObjectType, Seq<u8>)> {
    if exists|p: int| first_nul(d, p) {
        let p = choose|p: int| first_nul(d, p);
        let h = d.subrange(0, p);
        let payload = d.subrange(p + 1, d.len() as int);
        if header_fits(h, ObjectType::Blob, payload.len()) {
            Some((ObjectType::Blob, payload))
        } else if header_fits(h, ObjectType::Tree, payload.len()) {
            Some((ObjectType::Tree, payload))
        } else if header_fits(h, ObjectType::Commit, payload.len()) {
            Some((ObjectType::Commit, payload))
        } else {
            None
        }
    } else {
        None
    }
}

pub proof fn lemma_dec_of(n: nat)
    ensures
        dec_of(n).len() > 0,
        all_digits(dec_of(n)),
        dec_value(dec_of(n)) == n,
    decreases n,
{
    if n >= 10 {
        lemma_dec_of(n / 10);
        let d = dec_of(n);
        assert(d.drop_last() =~= dec_of(n / 10));
        assert(n % 10 < 10);
        assert(d.last() == (48 + n % 10) as u8);
        assert((d.last() - 48) as nat == n % 10);
        assert(n == (n / 10) * 10 + n % 10);
        assert(dec_value(d) == dec_value(d.drop_last()) * 10 + (d.last() - 48) as nat);
        assert(all_digits(d)) by {
            assert forall|i: int| 0 <= i < d.len() implies is_digit(#[trigger] d[i]) by {
                if i < d.len() - 1 {
                    assert(d[i] == dec_of(n / 10)[i]);
                }
            }
        }
    } else {
        assert(dec_of(n).drop_last() =~= Seq::<u8>::empty());
        assert(dec_of(n).last() == (48 + n) as u8);
        assert(dec_value(dec_of(n).drop_last()) == 0);
        assert(dec_value(dec_of(n)) == dec_value(dec_of(n).drop_last()) * 10 + (dec_of(n).last() - 48) as nat);
    }
}

proof fn lemma_first_nul_unique(d: Seq<u8>, p: int, q: int)
    requires
        first_nul(d, p),
        first_nul(d, q),
    ensures
        p == q,
{
    if p < q {
        assert(d[p] != 0);
    } else if q < p {
        assert(d[q] != 0);
    }
}

/// An envelope reads back as the kind and payload it was built from.
pub proof fn lemma_decode_envelope(k: ObjectType, payload: Seq<u8>)
    ensures
        decode_envelope(envelope(k, payload)) == Some((k, payload)),
{
    let d = envelope(k, payload);
    let w: int = kind_name(k).len() as int + 1;
    let digits = dec_of(payload.len());
    lemma_dec_of(payload.len());
    let p: int = w + digits.len();
    assert(first_nul(d, p)) by {
        assert forall|i: int| 0 <= i < p implies d[i] != 0 by {
            if i >= w {
                assert(d[i] == digits[i - w]);
            }
        }
    }
    let q = choose|q: int| first_nul(d, q);
    lemma_first_nul_unique(d, p, q);
    let h = d.subrange(0, p);
    assert(h.subrange(0, w - 1) =~= kind_name(k));
    assert(h.subrange(w, h.len() as int) =~= digits);
    assert(d.subrange(p + 1, d.len() as int) =~= payload);
    assert(header_fits(h, k, payload.len()));
    match k {
        ObjectType::Blob => {},
        ObjectType::Tree => {
            assert(h[0] != 98);
        },
        ObjectType::Commit => {
            assert(h[0] != 98);
            assert(h[0] != 116);
        },
    }
}

/// Relies on `sha1::Sha1::digest`: the twenty-byte digest of the input.
#[verifier::external_body]
fn sha1_digest(b: &[u8]) -> (r: Vec<u8>)
    ensures
        r@ == sha1_of(b@),
        r@.len() == 20,
{
    <sha1::Sha1 as sha1::Digest>::digest(b).to_vec()
}

/// Relies on `flate2::write::ZlibEncoder` at `Compression::default()`, writing into
/// a `Vec`, which cannot fail.
#[verifier::external_body]
fn zlib_compress(b: &[u8]) -> (r: Vec<u8>)
    ensures
        r@ == zlib_of(b@),
{
    let mut e = flate2::write::ZlibEncoder::new(Vec::new(), flate2::Compression::default());
    std::io::Write::write_all(&mut e, b).unwrap();
    e.finish().unwrap()
}

/// Relies on `flate2::bufread::ZlibDecoder`, read to the end: the result depends
/// on the input bytes alone, and for a stream the encoder wrote it is exactly
/// what the encoder was given.
#[verifier::external_body]
pub(crate) fn zlib_decompress(c: &[u8]) -> (r: Option<Vec<u8>>)
    ensures
        r is Some <==> inflate_of(c@) is Some,
        r is Some ==> inflate_of(c@) == Some(r->0@),
        forall|b: Seq<u8>| #[trigger] zlib_of(b) == c@ ==> r is Some && r->0@ == b,
{
    let mut d = flate2::bufread::ZlibDecoder::new(c);
    let mut out = Vec::new();
    match std::io::Read::read_to_end(&mut d, &mut out) {
        Ok(_) => Some(out),
        Err(_) => None,
    }
}

/// Lowercase hexadecimal SHA-1 of the bytes.
pub fn hash(data: &Vec<u8>) -> (r: Result<String, FluxError>)
    ensures
        r is Ok,
        r->Ok_0@ == hash_text(data@),
        is_object_hash(r->Ok_0@),
{
    let d = sha1_digest(data.as_slice());
    let h = to_hex(d.as_slice());
    proof {
        lemma_hex_of_len(d@);
        lemma_hex_of_lower(d@);
    }
    Ok(h)
}

/// Naming is deterministic: equal content always gets the equal hash.
pub proof fn lemma_hash_deterministic(a: Seq<u8>, b: Seq<u8>)
    requires
        a == b,
    ensures
        hash_text(a) == hash_text(b),
        hash_text(envelope(ObjectType::Blob, a)) == hash_text(envelope(ObjectType::Blob, b)),
{
}

/// zlib compression at the default level.
pub fn compress(data: &Vec<u8>) -> (r: Result<Vec<u8>, FluxError>)
    ensures
        r is Ok,
        r->Ok_0@ == zlib_of(data@),
{
    Ok(zlib_compress(data.as_slice()))
}

/// zlib decompression; gives back exactly what was compressed.
pub fn decompress(compressed: Vec<u8>) -> (r: Result<Vec<u8>, FluxError>)
    ensures
        forall|b: Seq<u8>| #[trigger] zlib_of(b) == compressed@ ==> r is Ok && r->Ok_0@ == b,
        match r {
            Ok(v) => inflate_of(compressed@) == Some(v@),
            Err(e) => inflate_of(compressed@) is None && e == FluxError::CorruptObject,
        },
{
    match zlib_decompress(compressed.as_slice()) {
        Some(v) => Ok(v),
        None => Err(FluxError::CorruptObject),
    }
}

/// Decimal digits of a number.
pub fn decimal(n: u64) -> (r: Vec<u8>)
    ensures
        r@ == dec_of(n as nat),
    decreases n,
{
    if n < 10 {
        let mut v: Vec<u8> = Vec::new();
        v.push(48 + n as u8);
        v
    } else {
        let mut v = decimal(n / 10);
        v.push(48 + (n % 10) as u8);
        v
    }
}

fn push_all(v: &mut Vec<u8>, s: &[u8])
    ensures
        final(v)@ == old(v)@ + s@,
{
    let mut i: usize = 0;
    while i < s.len()
        invariant
            i <= s@.len(),
            v@ == old(v)@ + s@.subrange(0, i as int),
        decreases s@.len() - i,
    {
        v.push(s[i]);
        proof {
            assert(s@.subrange(0, i + 1) =~= s@.subrange(0, i as int).push(s@[i as int]));
        }
        i = i + 1;
    }
    proof {
        assert(s@.subrange(0, s@.len() as int) =~= s@);
    }
}

fn kind_word(k: ObjectType) -> (r: &'static [u8])
    ensures
        r@ == kind_name(k),
{
    let r: &'static [u8] = match k {
        ObjectType::Blob => &[98u8, 108, 111, 98],
        ObjectType::Tree => &[116u8, 114, 101, 101],
        ObjectType::Commit => &[99u8, 111, 109, 109, 105, 116],
    };
    r
}

/// The envelope of a payload: `<kind> <payload length>\0<payload>`.
pub fn make_envelope(k: ObjectType, payload: &[u8]) -> (r: Vec<u8>)
    ensures
        r@ == envelope(k, payload@),
{
    let mut v: Vec<u8> = Vec::new();
    push_all(&mut v, kind_word(k));
    v.push(32);
    let digits = decimal(payload.len() as u64);
    push_all(&mut v, digits.as_slice());
    v.push(0);
    push_all(&mut v, payload);
    proof {
        assert(v@ =~= envelope(k, payload@));
    }
    v
}

/// Encodes a payload as an object of the given kind: its name and compressed envelope.
pub fn hash_object_bytes(k: ObjectType, payload: &[u8]) -> (r: HashResult)
    ensures
        r.object_hash@ == hash_text(envelope(k, payload@)),
        is_object_hash(r.object_hash@),
        r.compressed_content@ == zlib_of(envelope(k, payload@)),
{
    let store = make_envelope(k, payload);
    let object_hash = hash(&store).unwrap();
    let compressed_content = compress(&store).unwrap();
    HashResult { object_hash, compressed_content }
}

/// Encodes file content as a blob, byte for byte.
pub fn hash_blob(content: Vec<u8>) -> (r: HashResult)
    ensures
        r.object_hash@ == hash_text(envelope(ObjectType::Blob, content@)),
        is_object_hash(r.object_hash@),
        r.compressed_content@ == zlib_of(envelope(ObjectType::Blob, content@)),
{
    hash_object_bytes(ObjectType::Blob, content.as_slice())
}

proof fn lemma_dec_value_grows(s: Seq<u8>, j: int)
    requires
        0 <= j <= s.len(),
    ensures
        dec_value(s) >= dec_value(s.subrange(0, j)),
    decreases s.len(),
{
    if j < s.len() {
        assert(s.drop_last() =~= s.subrange(0, s.len() - 1));
        assert(s.subrange(0, s.len() - 1).subrange(0, j) =~= s.subrange(0, j));
        lemma_dec_value_grows(s.drop_last(), j);
    } else {
        assert(s.subrange(0, j) =~= s);
    }
}

/// The value of the decimal digits `d[start..end]`, when they are all digits
/// and spell at most `bound`.
fn digits_value(d: &[u8], start: usize, end: usize, bound: usize) -> (r: Option<usize>)
    requires
        start <= end <= d@.len(),
    ensures
        match r {
            Some(n) => all_digits(d@.subrange(start as int, end as int)) && dec_value(
                d@.subrange(start as int, end as int),
            ) == n && n <= bound,
            None => !all_digits(d@.subrange(start as int, end as int)) || dec_value(
                d@.subrange(start as int, end as int),
            ) > bound,
        },
{
    let mut v: u128 = 0;
    let mut j: usize = start;
    while j < end
        invariant
            start <= j <= end <= d@.len(),
            all_digits(d@.subrange(start as int, j as int)),
            v == dec_value(d@.subrange(start as int, j as int)),
            v <= bound,
        decreases end - j,
    {
        let c = d[j];
        let ghost pre = d@.subrange(start as int, j + 1);
        proof {
            assert(pre.drop_last() =~= d@.subrange(start as int, j as int));
            assert(d@.subrange(start as int, end as int).subrange(0, j + 1 - start) =~= pre);
        }
        if c < 48 || c > 57 {
            proof {
                assert(d@.subrange(start as int, end as int)[j - start] == c);
            }
            return None;
        }
        v = v * 10 + (c - 48) as u128;
        if v > bound as u128 {
            proof {
                if all_digits(d@.subrange(start as int, end as int)) {
                    lemma_dec_value_grows(d@.subrange(start as int, end as int), j + 1 - start);
                }
            }
            return None;
        }
        j = j + 1;
        proof {
            assert(all_digits(pre)) by {
                assert forall|i: int| 0 <= i < pre.len() implies is_digit(#[trigger] pre[i]) by {
                    if i < pre.len() - 1 {
                        assert(pre[i] == d@.subrange(start as int, j - 1)[i]);
                    }
                }
            }
        }
    }
    Some(v as usize)
}

/// `d` begins with `word`.
fn starts_with_bytes(d: &[u8], word: &[u8]) -> (r: bool)
    requires
        word@.len() <= d@.len(),
    ensures
        r == (d@.subrange(0, word@.len() as int) == word@),
{
    let mut i: usize = 0;
    while i < word.len()
        invariant
            i <= word@.len() <= d@.len(),
            forall|j: int| 0 <= j < i ==> d@[j] == word@[j],
        decreases word@.len() - i,
    {
        if d[i] != word[i] {
            proof {
                assert(d@.subrange(0, word@.len() as int)[i as int] != word@[i as int]);
            }
            return false;
        }
        i = i + 1;
    }
    proof {
        assert(d@.subrange(0, word@.len() as int) =~= word@);
    }
    true
}

proof fn lemma_header_kind(h: Seq<u8>, k2: ObjectType, n: nat)
    requires
        header_fits(h, k2, n),
    ensures
        h[0] == kind_name(k2)[0],
{
    let w: int = kind_name(k2).len() as int + 1;
    assert(h.subrange(0, w - 1)[0] == h[0]);
}

/// Once the first NUL is found, only the kind that the first byte points at can fit.
proof fn lemma_decode_at(d: Seq<u8>, p: int, k: ObjectType)
    requires
        first_nul(d, p),
        d[0] == 98 ==> k == ObjectType::Blob,
        d[0] == 116 ==> k == ObjectType::Tree,
        d[0] != 98 && d[0] != 116 ==> k == ObjectType::Commit,
    ensures
        decode_envelope(d) == if header_fits(
            d.subrange(0, p),
            k,
            (d.len() - p - 1) as nat,
        ) {
            Some((k, d.subrange(p + 1, d.len() as int)))
        } else {
            None::<(ObjectType, Seq<u8>)>
        },
{
    let q = choose|q: int| first_nul(d, q);
    lemma_first_nul_unique(d, p, q);
    let h = d.subrange(0, p);
    let n = (d.len() - p - 1) as nat;
    assert(d.subrange(p + 1, d.len() as int).len() == n);
    assert forall|k2: ObjectType| header_fits(h, k2, n) implies k2 == k by {
        lemma_header_kind(h, k2, n);
        assert(h[0] == d[0]);
    }
}

/// Reads an envelope back: kind, announced size and payload.
pub fn parse_object(d: &[u8]) -> (r: Result<GenericObject, FluxError>)
    ensures
        match r {
            Ok(o) => decode_envelope(d@) == Some((o.object_type, o.decompressed_content@))
                && o.size == o.decompressed_content@.len(),
            Err(e) => decode_envelope(d@) is None && e == FluxError::MalformedObject,
        },
{
    let mut p: usize = 0;
    while p < d.len() && d[p] != 0
        invariant
            p <= d@.len(),
            forall|i: int| 0 <= i < p ==> d@[i] != 0,
        decreases d@.len() - p,
    {
        p = p + 1;
    }
    if p == d.len() {
        proof {
            assert forall|q: int| !first_nul(d@, q) by {
                if 0 <= q < d@.len() {
                    assert(d@[q] != 0);
                }
            }
        }
        return Err(FluxError::MalformedObject);
    }
    let plen: usize = d.len() - p - 1;
    let k = if d[0] == 98 {
        ObjectType::Blob
    } else if d[0] == 116 {
        ObjectType::Tree
    } else {
        ObjectType::Commit
    };
    let ghost h = d@.subrange(0, p as int);
    proof {
        assert(first_nul(d@, p as int));
        lemma_decode_at(d@, p as int, k);
    }
    let word = kind_word(k);
    let w = word.len() + 1;
    if p <= w {
        return Err(FluxError::MalformedObject);
    }
    if !starts_with_bytes(d, word) {
        proof {
            assert(h.subrange(0, w - 1) =~= d@.subrange(0, w - 1));
        }
        return Err(FluxError::MalformedObject);
    }
    if d[w - 1] != 32 {
        return Err(FluxError::MalformedObject);
    }
    proof {
        assert(h.subrange(0, w - 1) =~= d@.subrange(0, w - 1));
        assert(h.subrange(w as int, h.len() as int) =~= d@.subrange(w as int, p as int));
    }
    match digits_value(d, w, p, plen) {
        Some(n) => {
            if n != plen {
                return Err(FluxError::MalformedObject);
            }
            let mut content: Vec<u8> = Vec::new();
            let mut i: usize = p + 1;
            while i < d.len()
                invariant
                    p + 1 <= i <= d@.len(),
                    content@ == d@.subrange(p + 1, i as int),
                decreases d@.len() - i,
            {
                content.push(d[i]);
                proof {
                    assert(d@.subrange(p + 1, i + 1) =~= d@.subrange(p + 1, i as int).push(d@[i as int]));
                }
                i = i + 1;
            }
            Ok(GenericObject { object_type: k, size: plen, decompressed_content: content })
        },
        None => Err(FluxError::MalformedObject),
    }
}

} // verus!
