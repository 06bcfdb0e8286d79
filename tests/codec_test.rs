use flux_core::codec::{decimal, hash_blob, make_envelope, parse_object, ObjectType};
use flux_core::error::FluxError;
use flux_core::text::{from_hex, to_hex};

#[test]
fn blob_hash_matches_git_hash_object() {
    let r = hash_blob(b"Read this file before running the project".to_vec());
    assert_eq!(r.object_hash, "b9f48847101813276d90377eda657a2daf0d78cd");
    let a = hash_blob(b"A".to_vec());
    assert_eq!(a.object_hash, "8c7e5a667f1b771847fe88c01c3de34413a1b220");
}

#[test]
fn blob_compressed_content_is_the_envelope() {
    let r = hash_blob(b"abc".to_vec());
    let d = flux_core::codec::decompress(r.compressed_content).unwrap();
    assert_eq!(d, b"blob 3\0abc".to_vec());
}

#[test]
fn envelope_layout() {
    assert_eq!(make_envelope(ObjectType::Tree, b""), b"tree 0\0".to_vec());
    assert_eq!(make_envelope(ObjectType::Commit, b"xy"), b"commit 2\0xy".to_vec());
    assert_eq!(decimal(0), b"0".to_vec());
    assert_eq!(decimal(1234), b"1234".to_vec());
}

#[test]
fn parse_object_reads_envelope() {
    let o = parse_object(b"blob 5\0hello").unwrap();
    assert_eq!(o.object_type, ObjectType::Blob);
    assert_eq!(o.size, 5);
    assert_eq!(o.decompressed_content, b"hello".to_vec());
    let t = parse_object(b"tree 0\0").unwrap();
    assert_eq!(t.object_type, ObjectType::Tree);
    assert_eq!(t.size, 0);
    let c = parse_object(b"commit 010\0aaaaaaaaaa").unwrap();
    assert_eq!(c.object_type, ObjectType::Commit);
}

#[test]
fn parse_object_errors() {
    for bad in [
        &b"blob 5hello"[..],
        &b"blob 4\0hello"[..],
        &b"blob 6\0hello"[..],
        &b"blob\0"[..],
        &b"blob 5 5\0hello"[..],
        &b"tag 5\0hello"[..],
        &b"blob x\0hello"[..],
        &b"blob \0"[..],
        &b""[..],
    ] {
        assert_eq!(parse_object(bad).err(), Some(FluxError::MalformedObject));
    }
}

#[test]
fn hex_round_trip() {
    assert_eq!(to_hex(&[0x00, 0xab, 0xff]), "00abff");
    assert_eq!(from_hex("00ABff"), Some(vec![0x00, 0xab, 0xff]));
    assert_eq!(from_hex("abc"), None);
    assert_eq!(from_hex("zz"), None);
}
