//! Tree objects: an ordered list of directory entries, each naming a mode,
//! a name, and a child object's digest.

use vstd::prelude::*;
use crate::digest::Digest;
use crate::store::{
    append_bytes, store_object, concat_of, digest_of, deflate_of, object_bytes, tag_of, ObjectType,
    StoreError, StoredObject,
};

verus! {

/// One directory entry of a tree object.
pub struct TreeEntry {
    /// The file mode, short ASCII such as `100644` (file) or `40000`
    /// (directory).
    pub mode: Vec<u8>,
    /// The entry's name within the directory.
    pub name: Vec<u8>,
    /// The digest of the child object the entry points at.
    pub child: Digest,
}

/// A structurally valid entry: the mode holds neither space nor NUL, and
/// the name holds no NUL -- those bytes are the framing delimiters.
pub open spec fn entry_valid(e: TreeEntry) -> bool {
    &&& forall|j: int| 0 <= j < e.mode@.len() ==> e.mode@[j] != 0 && e.mode@[j] != 32
    &&& forall|j: int| 0 <= j < e.name@.len() ==> e.name@[j] != 0
}

/// The binary frame of one entry: the mode bytes, one space, the name
/// bytes, one NUL, then the child digest's raw bytes (not their
/// hexadecimal rendering).
pub open spec fn entry_bytes(e: TreeEntry) -> Seq<u8> {
    e.mode@ + seq![32u8] + e.name@ + seq![0u8] + e.child.bytes()
}

/// The payload of a tree object: each entry's frame in the given order,
/// with nothing between or after them.
pub open spec fn tree_payload(es: Seq<TreeEntry>) -> Seq<u8>
    decreases es.len(),
{
    if es.len() == 0 {
        Seq::empty()
    } else {
        tree_payload(es.drop_last()) + entry_bytes(es.last())
    }
}

/// Law: tree framing is order-sensitive. Appending an entry appends its
/// frame at the end of the payload, so the caller-supplied entry order is
/// part of the canonical encoding, and reordering entries reorders the
/// encoded bytes.
pub proof fn lemma_tree_payload_push(es: Seq<TreeEntry>, e: TreeEntry)
    ensures
        tree_payload(es.push(e)) == tree_payload(es) + entry_bytes(e),
{
    assert(es.push(e).drop_last() =~= es);
    assert(es.push(e).last() == e);
}

/// Taking one more entry extends the payload by that entry's frame.
pub proof fn lemma_tree_payload_step(es: Seq<TreeEntry>, i: int)
    requires
        0 <= i < es.len(),
    ensures
        tree_payload(es.take(i + 1)) == tree_payload(es.take(i)) + entry_bytes(es[i]),
{
    assert(es.take(i + 1).drop_last() =~= es.take(i));
    assert(es.take(i + 1).last() == es[i]);
}

fn no_nul(v: &Vec<u8>) -> (r: bool)
    ensures
        r == (forall|j: int| 0 <= j < v@.len() ==> v@[j] != 0),
{
    let mut i: usize = 0;
    while i < v.len()
        invariant
            i <= v@.len(),
            forall|j: int| 0 <= j < i ==> v@[j] != 0,
        decreases v@.len() - i,
    {
        if v[i] == 0 {
            return false;
        }
        i += 1;
    }
    true
}

fn no_space_nul(v: &Vec<u8>) -> (r: bool)
    ensures
        r == (forall|j: int| 0 <= j < v@.len() ==> v@[j] != 0 && v@[j] != 32),
{
    let mut i: usize = 0;
    while i < v.len()
        invariant
            i <= v@.len(),
            forall|j: int| 0 <= j < i ==> v@[j] != 0 && v@[j] != 32,
        decreases v@.len() - i,
    {
        if v[i] == 0 || v[i] == 32 {
            return false;
        }
        i += 1;
    }
    true
}

/// Prepares a tree object for storage. The entries are framed in exactly
/// the given order. Fails with a validation error -- before anything is
/// hashed or compressed -- if and only if some entry's mode holds a space
/// or NUL, or some entry's name holds a NUL.
pub fn encode_tree(entries: &Vec<TreeEntry>) -> (r: Result<StoredObject, StoreError>)
    requires
        object_bytes(tag_of(ObjectType::Tree), tree_payload(entries@)).len() <= usize::MAX,
    ensures
        (r is Ok <==> forall|i: int| 0 <= i < entries@.len() ==> entry_valid(
            #[trigger] entries@[i],
        )),
        (r matches Ok(rec) ==> {
            &&& rec.digest.bytes() == digest_of(tag_of(ObjectType::Tree), tree_payload(entries@))
            &&& rec.compressed@ == deflate_of(
                object_bytes(tag_of(ObjectType::Tree), tree_payload(entries@)),
            )
        }),
        (r matches Err(e) ==> e == StoreError::Validation),
{
    let mut i: usize = 0;
    while i < entries.len()
        invariant
            i <= entries@.len(),
            forall|k: int| 0 <= k < i ==> entry_valid(#[trigger] entries@[k]),
        decreases entries@.len() - i,
    {
        if !no_space_nul(&entries[i].mode) || !no_nul(&entries[i].name) {
            proof {
                assert(!entry_valid(entries@[i as int]));
            }
            return Err(StoreError::Validation);
        }
        i += 1;
    }
    let mut buf: Vec<u8> = Vec::new();
    i = 0;
    while i < entries.len()
        invariant
            i <= entries@.len(),
            buf@ == tree_payload(entries@.take(i as int)),
        decreases entries@.len() - i,
    {
        append_bytes(&mut buf, &entries[i].mode);
        buf.push(32);
        append_bytes(&mut buf, &entries[i].name);
        buf.push(0);
        append_bytes(&mut buf, entries[i].child.raw());
        proof {
            lemma_tree_payload_step(entries@, i as int);
            assert(buf@ =~= tree_payload(entries@.take(i as int + 1)));
        }
        i += 1;
    }
    proof {
        assert(entries@.take(entries@.len() as int) =~= entries@);
    }
    let mut fragments: Vec<Vec<u8>> = Vec::new();
    fragments.push(buf);
    proof {
        assert(fragments@.drop_last() =~= Seq::<Vec<u8>>::empty());
        assert(concat_of(Seq::<Vec<u8>>::empty()) =~= Seq::<u8>::empty());
        assert(concat_of(fragments@) =~= tree_payload(entries@));
    }
    Ok(store_object(ObjectType::Tree, &fragments))
}

} // verus!
