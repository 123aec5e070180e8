//! Blob objects: an opaque byte payload with no internal structure.

use vstd::prelude::*;
use crate::store::{
    store_object, concat_of, digest_of, deflate_of, object_bytes, tag_of, ObjectType, StoredObject,
};

verus! {

/// Prepares a blob object for storage. The payload is the concatenation of
/// the given fragments, exactly as given; there is nothing to validate and
/// the call cannot fail.
pub fn encode_blob(fragments: &Vec<Vec<u8>>) -> (r: StoredObject)
    requires
        object_bytes(tag_of(ObjectType::Blob), concat_of(fragments@)).len() <= usize::MAX,
    ensures
        r.digest.bytes() == digest_of(tag_of(ObjectType::Blob), concat_of(fragments@)),
        r.compressed@ == deflate_of(object_bytes(tag_of(ObjectType::Blob), concat_of(fragments@))),
{
    store_object(ObjectType::Blob, fragments)
}

} // verus!
