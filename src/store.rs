//! The object store: compressed envelopes keyed by their hash.
use crate::codec::{inflate_of, decode_envelope, envelope, lemma_decode_envelope, parse_object, zlib_decompress, zlib_of, GenericObject, HashResult, ObjectType};
use crate::error::FluxError;
use crate::textmap::TextMap;
use vstd::prelude::*;

verus! {

/// Stored objects: hash text to compressed envelope.
pub type ObjectStore = TextMap<Vec<u8>>;

/// The store holds, under `h`, the compressed envelope of `payload` as a `k` object.
pub open spec fn holds(objects: Map<Seq<char>, Vec<u8>>, h: Seq<char>, k: ObjectType, payload: Seq<u8>) -> bool {
    objects.contains_key(h) && objects[h]@ == zlib_of(envelope(k, payload))
}

/// What reading the object stored under `h` gives: its kind and payload, or
/// why it cannot be read.
pub open spec fn read_result(objects: Map<Seq<char>, Vec<u8>>, h: Seq<char>) -> Result<(ObjectType, Seq<u8>), FluxError> {
    if !objects.contains_key(h) {
        Err(FluxError::ObjectNotFound)
    } else {
        match inflate_of(objects[h]@) {
            None => Err(FluxError::CorruptObject),
            Some(d) => match decode_envelope(d) {
                None => Err(FluxError::MalformedObject),
                Some(kp) => Ok(kp),
            },
        }
    }
}

/// Writes an encoded object under its hash; writing the same object again changes nothing.
pub fn store_object(store: &mut ObjectStore, result: HashResult) -> (r: String)
    requires
        old(store).wf(),
    ensures
        final(store).wf(),
        final(store)@ == old(store)@.insert(result.object_hash@, result.compressed_content),
        r@ == result.object_hash@,
{
    let h = result.object_hash.clone();
    store.insert(result.object_hash, result.compressed_content);
    h
}

/// Reads an object back: decompresses it and checks its envelope.
pub fn read_object(store: &ObjectStore, object_hash: &str) -> (r: Result<GenericObject, FluxError>)
    requires
        store.wf(),
    ensures
        !store@.contains_key(object_hash@) ==> r == Err::<GenericObject, FluxError>(FluxError::ObjectNotFound),
        forall|k: ObjectType, p: Seq<u8>| #[trigger] holds(store@, object_hash@, k, p) ==> (r is Ok && r->Ok_0.object_type == k
            && r->Ok_0.decompressed_content@ == p && r->Ok_0.size == p.len()),
        r is Err ==> (r->Err_0 == FluxError::ObjectNotFound || r->Err_0 == FluxError::CorruptObject
            || r->Err_0 == FluxError::MalformedObject),
        r is Ok ==> store@.contains_key(object_hash@) && r->Ok_0.size == r->Ok_0.decompressed_content@.len(),
        match r {
            Ok(o) => read_result(store@, object_hash@) == Ok::<(ObjectType, Seq<u8>), FluxError>((o.object_type, o.decompressed_content@)),
            Err(e) => read_result(store@, object_hash@) == Err::<(ObjectType, Seq<u8>), FluxError>(e),
        },
        forall|d: Seq<u8>| store@.contains_key(object_hash@) && #[trigger] zlib_of(d) == store@[object_hash@]@ ==> inflate_of(store@[object_hash@]@) == Some(d),
        forall|d: Seq<u8>| store@.contains_key(object_hash@) && #[trigger] zlib_of(d) == store@[object_hash@]@ && decode_envelope(d) is None
            ==> r == Err::<GenericObject, FluxError>(FluxError::MalformedObject),
{
    let c = match store.get(object_hash) {
        Some(c) => c,
        None => return Err(FluxError::ObjectNotFound),
    };
    let d = match zlib_decompress(c.as_slice()) {
        Some(d) => d,
        None => return Err(FluxError::CorruptObject),
    };
    proof {
        assert forall|k: ObjectType, p: Seq<u8>| #[trigger] holds(store@, object_hash@, k, p) implies d@ == envelope(k, p) && decode_envelope(d@) == Some((k, p)) by {
            assert(zlib_of(envelope(k, p)) == c@);
            lemma_decode_envelope(k, p);
        }
    }
    parse_object(d.as_slice())
}

} // verus!
