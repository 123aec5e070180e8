//! Canonical object framing, digesting, and preparation of the compressed,
//! hash-addressed record.
//!
//! An object is framed as `"<type> <decimal payload length>\0<payload>"`;
//! the digest of those bytes addresses the object, and the stored file holds
//! their zlib-compressed form. Writing the file (and the check whether it
//! already exists) is plain I/O and stays with the caller; everything that
//! determines the digest and the file contents is computed here.

use vstd::prelude::*;
use crate::digest::Digest;
use crate::sha::{sha256_of, sha_fed, sha256_new, sha256_update, sha256_finalize};

verus! {

/// The three content-addressed object kinds.
#[derive(Clone, Copy, PartialEq, Eq, Structural, Debug)]
pub enum ObjectType {
    Blob,
    Tree,
    Commit,
}

/// The ASCII type tag of an object kind: `blob`, `tree` or `commit`.
pub open spec fn tag_of(t: ObjectType) -> Seq<u8> {
    match t {
        ObjectType::Blob => seq![98u8, 108u8, 111u8, 98u8],
        ObjectType::Tree => seq![116u8, 114u8, 101u8, 101u8],
        ObjectType::Commit => seq![99u8, 111u8, 109u8, 109u8, 105u8, 116u8],
    }
}

/// The shortest decimal ASCII rendering of a natural number.
pub open spec fn dec_of(n: nat) -> Seq<u8>
    decreases n,
{
    if n < 10 {
        seq![(48 + n) as u8]
    } else {
        dec_of(n / 10) + seq![(48 + n % 10) as u8]
    }
}

/// Every byte of a decimal rendering is an ASCII digit.
pub proof fn lemma_dec_of_digits(n: nat)
    ensures
        dec_of(n).len() >= 1,
        forall|j: int| 0 <= j < dec_of(n).len() ==> 48 <= #[trigger] dec_of(n)[j] <= 57,
    decreases n,
{
    if n >= 10 {
        lemma_dec_of_digits(n / 10);
    }
}

/// The object header: the type tag, one space, the decimal payload length,
/// and one NUL byte. This exact framing is what the digest is computed over.
pub open spec fn header_of(tag: Seq<u8>, len: nat) -> Seq<u8> {
    tag + seq![32u8] + dec_of(len) + seq![0u8]
}

/// The canonical encoding of a whole object: its header followed by its
/// payload bytes.
pub open spec fn object_bytes(tag: Seq<u8>, payload: Seq<u8>) -> Seq<u8> {
    header_of(tag, payload.len()) + payload
}

/// The digest that addresses an object: the SHA-256 hash of its canonical
/// encoding.
pub open spec fn digest_of(tag: Seq<u8>, payload: Seq<u8>) -> Seq<u8> {
    sha256_of(object_bytes(tag, payload))
}

/// The concatenation of a sequence of byte fragments, in order.
pub open spec fn concat_of(fs: Seq<Vec<u8>>) -> Seq<u8>
    decreases fs.len(),
{
    if fs.len() == 0 {
        Seq::empty()
    } else {
        concat_of(fs.drop_last()) + fs.last()@
    }
}

/// Taking one more fragment extends the concatenation by that fragment.
pub proof fn lemma_concat_take_step(fs: Seq<Vec<u8>>, i: int)
    requires
        0 <= i < fs.len(),
    ensures
        concat_of(fs.take(i + 1)) == concat_of(fs.take(i)) + fs[i]@,
{
    assert(fs.take(i + 1).drop_last() =~= fs.take(i));
    assert(fs.take(i + 1).last() == fs[i]);
}

/// The concatenation of a prefix is never longer than the whole.
pub proof fn lemma_concat_take_le(fs: Seq<Vec<u8>>, i: int)
    requires
        0 <= i <= fs.len(),
    ensures
        concat_of(fs.take(i)).len() <= concat_of(fs).len(),
    decreases fs.len() - i,
{
    if i == fs.len() {
        assert(fs.take(i) =~= fs);
    } else {
        lemma_concat_take_step(fs, i);
        lemma_concat_take_le(fs, i + 1);
    }
}

/// Law: the digest is a function of the type tag and the concatenated
/// payload bytes alone. Two fragmentations of the same content, under the
/// same tag, always yield the same digest.
pub proof fn lemma_digest_deterministic(t: ObjectType, f1: Seq<Vec<u8>>, f2: Seq<Vec<u8>>)
    requires
        concat_of(f1) == concat_of(f2),
    ensures
        digest_of(tag_of(t), concat_of(f1)) == digest_of(tag_of(t), concat_of(f2)),
{
}

/// Law: domain separation. The canonical encodings of the same payload
/// under two different type tags are never equal: the header's first byte
/// already tells the tags apart, so the hashed bytes differ.
pub proof fn lemma_domain_separation(t1: ObjectType, t2: ObjectType, payload: Seq<u8>)
    requires
        t1 != t2,
    ensures
        object_bytes(tag_of(t1), payload) != object_bytes(tag_of(t2), payload),
{
    let b1 = object_bytes(tag_of(t1), payload);
    let b2 = object_bytes(tag_of(t2), payload);
    assert(b1[0] == tag_of(t1)[0]);
    assert(b2[0] == tag_of(t2)[0]);
    assert(tag_of(t1)[0] != tag_of(t2)[0]);
}

/// The type tag of an object kind, as bytes.
pub fn tag_bytes(t: ObjectType) -> (r: Vec<u8>)
    ensures
        r@ == tag_of(t),
{
    let mut out: Vec<u8> = Vec::new();
    match t {
        ObjectType::Blob => {
            out.push(98);
            out.push(108);
            out.push(111);
            out.push(98);
        },
        ObjectType::Tree => {
            out.push(116);
            out.push(114);
            out.push(101);
            out.push(101);
        },
        ObjectType::Commit => {
            out.push(99);
            out.push(111);
            out.push(109);
            out.push(109);
            out.push(105);
            out.push(116);
        },
    }
    proof {
        assert(out@ =~= tag_of(t));
    }
    out
}

/// Appends the decimal ASCII rendering of `n`.
fn push_dec(n: usize, out: &mut Vec<u8>)
    ensures
        final(out)@ == old(out)@ + dec_of(n as nat),
    decreases n,
{
    if n < 10 {
        out.push(48 + n as u8);
        proof {
            assert(out@ =~= old(out)@ + dec_of(n as nat));
        }
    } else {
        push_dec(n / 10, out);
        out.push(48 + (n % 10) as u8);
        proof {
            assert(out@ =~= old(out)@ + dec_of(n as nat));
        }
    }
}

/// The object header for a given kind and payload length, as bytes.
pub fn header_bytes(t: ObjectType, len: usize) -> (r: Vec<u8>)
    ensures
        r@ == header_of(tag_of(t), len as nat),
{
    let mut out = tag_bytes(t);
    out.push(32);
    push_dec(len, &mut out);
    out.push(0);
    proof {
        assert(out@ =~= header_of(tag_of(t), len as nat));
    }
    out
}

/// The total length of a sequence of payload fragments.
fn sum_lens(fragments: &Vec<Vec<u8>>) -> (r: usize)
    requires
        concat_of(fragments@).len() <= usize::MAX,
    ensures
        r == concat_of(fragments@).len(),
{
    let mut total: usize = 0;
    let mut i: usize = 0;
    while i < fragments.len()
        invariant
            i <= fragments@.len(),
            concat_of(fragments@).len() <= usize::MAX,
            total == concat_of(fragments@.take(i as int)).len(),
        decreases fragments@.len() - i,
    {
        proof {
            lemma_concat_take_step(fragments@, i as int);
            lemma_concat_take_le(fragments@, i as int + 1);
        }
        total += fragments[i].len();
        i += 1;
    }
    proof {
        assert(fragments@.take(fragments@.len() as int) =~= fragments@);
    }
    total
}

/// The content hasher: digests a header followed by each payload fragment
/// in order. The bytes are fed into the hash incrementally, so the payload
/// is never concatenated into one buffer; hashing cannot fail.
pub fn hash_with_header(header: &Vec<u8>, fragments: &Vec<Vec<u8>>) -> (r: Digest)
    ensures
        r.bytes() == sha256_of(header@ + concat_of(fragments@)),
{
    let mut h = sha256_new();
    sha256_update(&mut h, header.as_slice());
    proof {
        assert(sha_fed(h) =~= header@ + concat_of(fragments@.take(0)));
    }
    let mut i: usize = 0;
    while i < fragments.len()
        invariant
            i <= fragments@.len(),
            sha_fed(h) == header@ + concat_of(fragments@.take(i as int)),
        decreases fragments@.len() - i,
    {
        sha256_update(&mut h, fragments[i].as_slice());
        proof {
            lemma_concat_take_step(fragments@, i as int);
            assert(sha_fed(h) =~= header@ + concat_of(fragments@.take(i as int + 1)));
        }
        i += 1;
    }
    proof {
        assert(fragments@.take(fragments@.len() as int) =~= fragments@);
    }
    let raw = sha256_finalize(h);
    Digest::from_raw(raw)
}

/// Computes the digest that addresses an object: the header for the given
/// kind and total payload length, then the fragments, all hashed in order.
pub fn hash_object(t: ObjectType, fragments: &Vec<Vec<u8>>) -> (r: Digest)
    requires
        concat_of(fragments@).len() <= usize::MAX,
    ensures
        r.bytes() == digest_of(tag_of(t), concat_of(fragments@)),
{
    let len = sum_lens(fragments);
    let header = header_bytes(t, len);
    let r = hash_with_header(&header, fragments);
    proof {
        assert(header@ + concat_of(fragments@) =~= object_bytes(tag_of(t), concat_of(fragments@)));
    }
    r
}

/// The zlib (deflate) compression of a byte sequence at the default level.
/// A pure function of the input bytes alone.
pub uninterp spec fn deflate_of(data: Seq<u8>) -> Seq<u8>;

/// Relies on `flate2::write::ZlibEncoder` over a `Vec<u8>` sink at the
/// default compression level: the collected output is the zlib stream for
/// exactly the written bytes. With a `Vec` sink the write path cannot
/// fail: writes into a `Vec` never error, and the compressor accepts
/// arbitrary data, so compression cannot fail on any input.
#[verifier::external_body]
fn compress_zlib(data: &[u8]) -> (r: Vec<u8>)
    ensures
        r@ == deflate_of(data@),
{
    let mut enc = flate2::write::ZlibEncoder::new(Vec::new(), flate2::Compression::default());
    std::io::Write::write_all(&mut enc, data).expect("writing into a Vec cannot fail");
    enc.finish().expect("writing into a Vec cannot fail")
}

/// Relies on `flate2::read::ZlibDecoder`: decompression inverts compression,
/// so a stream that the compressor produced for some input decompresses
/// back to exactly that input.
#[verifier::external_body]
fn decompress_zlib(data: &[u8]) -> (r: Option<Vec<u8>>)
    ensures
        (r is None ==> forall|x: Seq<u8>| data@ != deflate_of(x)),
        (r matches Some(v) ==> forall|x: Seq<u8>| data@ == deflate_of(x) ==> v@ == x),
{
    let mut dec = flate2::read::ZlibDecoder::new(data);
    let mut out = Vec::new();
    match std::io::Read::read_to_end(&mut dec, &mut out) {
        Ok(_) => Some(out),
        Err(_) => None,
    }
}

/// Why a store operation failed. Hashing and compression cannot fail, so
/// the only error is structurally invalid input.
#[derive(Clone, Copy, PartialEq, Eq, Structural, Debug)]
pub enum StoreError {
    /// A tree entry's mode or name held a framing delimiter byte.
    Validation,
}

/// A fully prepared object record: the digest that addresses it and the
/// compressed bytes of its canonical encoding, ready to be written at
/// `<root>/objects/<shard_dir>/<file_name>` of the digest.
pub struct StoredObject {
    pub digest: Digest,
    pub compressed: Vec<u8>,
}

/// Appends all of `src` to `out`.
pub(crate) fn append_bytes(out: &mut Vec<u8>, src: &Vec<u8>)
    ensures
        final(out)@ == old(out)@ + src@,
{
    let mut i: usize = 0;
    while i < src.len()
        invariant
            i <= src@.len(),
            out@ == old(out)@ + src@.take(i as int),
        decreases src@.len() - i,
    {
        out.push(src[i]);
        i += 1;
        proof {
            assert(out@ =~= old(out)@ + src@.take(i as int));
        }
    }
    proof {
        assert(old(out)@ + src@.take(src@.len() as int) =~= old(out)@ + src@);
    }
}

/// Prepares an object for storage: digests its canonical encoding and
/// compresses that same encoding. Neither hashing nor compression can
/// fail, so every call returns a complete record; beyond fitting in
/// memory, nothing is asked of the caller.
pub fn store_object(t: ObjectType, fragments: &Vec<Vec<u8>>) -> (r: StoredObject)
    requires
        object_bytes(tag_of(t), concat_of(fragments@)).len() <= usize::MAX,
    ensures
        r.digest.bytes() == digest_of(tag_of(t), concat_of(fragments@)),
        r.compressed@ == deflate_of(object_bytes(tag_of(t), concat_of(fragments@))),
{
    let ghost payload = concat_of(fragments@);
    proof {
        assert(object_bytes(tag_of(t), payload).len() == header_of(tag_of(t), payload.len()).len()
            + payload.len());
    }
    let digest = hash_object(t, fragments);
    let len = sum_lens(fragments);
    let mut buf = header_bytes(t, len);
    let mut i: usize = 0;
    while i < fragments.len()
        invariant
            i <= fragments@.len(),
            buf@ == header_of(tag_of(t), concat_of(fragments@).len() as nat)
                + concat_of(fragments@.take(i as int)),
        decreases fragments@.len() - i,
    {
        append_bytes(&mut buf, &fragments[i]);
        proof {
            lemma_concat_take_step(fragments@, i as int);
        }
        i += 1;
    }
    proof {
        assert(fragments@.take(fragments@.len() as int) =~= fragments@);
        assert(buf@ =~= object_bytes(tag_of(t), payload));
    }
    let compressed = compress_zlib(buf.as_slice());
    StoredObject { digest, compressed }
}

/// The header of every canonical encoding ends in its only NUL byte.
proof fn lemma_header_no_nul(t: ObjectType, len: nat)
    ensures
        header_of(tag_of(t), len).len() >= 6,
        header_of(tag_of(t), len).last() == 0,
        forall|j: int|
            0 <= j < header_of(tag_of(t), len).len() - 1 ==> #[trigger] header_of(tag_of(t), len)[j]
                != 0,
{
    lemma_dec_of_digits(len);
    let h = header_of(tag_of(t), len);
    let tag = tag_of(t);
    let d = dec_of(len);
    assert forall|j: int| 0 <= j < h.len() - 1 implies #[trigger] h[j] != 0 by {
        if j < tag.len() {
            assert(h[j] == tag[j]);
        } else if j == tag.len() {
            assert(h[j] == 32);
        } else {
            assert(h[j] == d[j - tag.len() - 1]);
        }
    }
}

/// The index of the first NUL byte, if any.
fn find_nul(bytes: &Vec<u8>) -> (r: Option<usize>)
    ensures
        (r matches Some(z) ==> z < bytes@.len() && bytes@[z as int] == 0 && (forall|j: int|
            0 <= j < z ==> bytes@[j] != 0)),
        (r is None ==> forall|j: int| 0 <= j < bytes@.len() ==> bytes@[j] != 0),
{
    let mut i: usize = 0;
    while i < bytes.len()
        invariant
            i <= bytes@.len(),
            forall|j: int| 0 <= j < i ==> bytes@[j] != 0,
        decreases bytes@.len() - i,
    {
        if bytes[i] == 0 {
            return Some(i);
        }
        i += 1;
    }
    None
}

/// Whether `pre` is a prefix of `bytes`.
fn is_prefix(bytes: &Vec<u8>, pre: &Vec<u8>) -> (r: bool)
    ensures
        r == (pre@.len() <= bytes@.len() && bytes@.take(pre@.len() as int) == pre@),
{
    if pre.len() > bytes.len() {
        return false;
    }
    let mut i: usize = 0;
    while i < pre.len()
        invariant
            i <= pre@.len() <= bytes@.len(),
            forall|j: int| 0 <= j < i ==> bytes@[j] == pre@[j],
        decreases pre@.len() - i,
    {
        if bytes[i] != pre[i] {
            proof {
                assert(bytes@.take(pre@.len() as int)[i as int] != pre@[i as int]);
            }
            return false;
        }
        i += 1;
    }
    proof {
        assert(bytes@.take(pre@.len() as int) =~= pre@);
    }
    true
}

/// The bytes from `start` to the end, as a fresh vector.
fn copy_tail(bytes: &Vec<u8>, start: usize) -> (r: Vec<u8>)
    requires
        start <= bytes@.len(),
    ensures
        r@ == bytes@.skip(start as int),
{
    let mut out: Vec<u8> = Vec::new();
    let mut i: usize = start;
    while i < bytes.len()
        invariant
            start <= i <= bytes@.len(),
            out@ == bytes@.subrange(start as int, i as int),
        decreases bytes@.len() - i,
    {
        out.push(bytes[i]);
        i += 1;
        proof {
            assert(out@ =~= bytes@.subrange(start as int, i as int));
        }
    }
    proof {
        assert(bytes@.subrange(start as int, bytes@.len() as int) =~= bytes@.skip(start as int));
    }
    out
}

/// Splits a canonical object encoding back into its kind and payload.
/// Exactly the canonical encodings are accepted: the result is `Some` if
/// and only if the bytes are `object_bytes` of some kind and payload, and
/// then the parsed payload length in the header necessarily equals the
/// payload's byte length.
pub fn parse_object(bytes: &Vec<u8>) -> (r: Option<(ObjectType, Vec<u8>)>)
    ensures
        (r matches Some(p) ==> bytes@ == object_bytes(tag_of(p.0), p.1@)),
        forall|t: ObjectType, pl: Seq<u8>| bytes@ == object_bytes(tag_of(t), pl) ==> (r matches Some(
            p,
        ) && p.0 == t && p.1@ == pl),
{
    let z_opt = find_nul(bytes);
    let z: usize;
    match z_opt {
        Some(found) => {
            z = found;
        },
        None => {
            proof {
                assert forall|t: ObjectType, pl: Seq<u8>|
                    bytes@ == object_bytes(tag_of(t), pl) implies false by {
                    lemma_header_no_nul(t, pl.len());
                    let h = header_of(tag_of(t), pl.len());
                    assert(bytes@[h.len() - 1] == h[h.len() - 1]);
                }
            }
            return None;
        },
    }
    let t: ObjectType;
    let first = bytes[0];
    if first == 98 {
        t = ObjectType::Blob;
    } else if first == 116 {
        t = ObjectType::Tree;
    } else if first == 99 {
        t = ObjectType::Commit;
    } else {
        proof {
            assert forall|t0: ObjectType, pl: Seq<u8>|
                bytes@ == object_bytes(tag_of(t0), pl) implies false by {
                assert(bytes@[0] == tag_of(t0)[0]);
            }
        }
        return None;
    }
    let n = bytes.len();
    proof {
        assert(z < n);
    }
    let payload = copy_tail(bytes, z + 1);
    let expected = header_bytes(t, payload.len());
    if expected.len() == z + 1 && is_prefix(bytes, &expected) {
        proof {
            assert(bytes@ =~= bytes@.take(z + 1 as int) + bytes@.skip(z + 1 as int));
            assert(bytes@ == object_bytes(tag_of(t), payload@));
            assert forall|t0: ObjectType, pl: Seq<u8>|
                bytes@ == object_bytes(tag_of(t0), pl) implies t0 == t && pl == payload@ by {
                lemma_encoding_unique(t, payload@, t0, pl);
            }
        }
        Some((t, payload))
    } else {
        proof {
            assert forall|t0: ObjectType, pl: Seq<u8>|
                bytes@ == object_bytes(tag_of(t0), pl) implies false by {
                lemma_header_no_nul(t0, pl.len());
                let h = header_of(tag_of(t0), pl.len());
                // the first NUL is the header's last byte
                assert(bytes@[h.len() - 1] == h[h.len() - 1]);
                if z < h.len() - 1 {
                    assert(bytes@[z as int] == h[z as int]);
                    assert(false);
                }
                if z > h.len() - 1 {
                    assert(false);
                }
                assert(z == h.len() - 1);
                // the first byte picks the kind
                assert(bytes@[0] == tag_of(t0)[0]);
                assert(t0 == t);
                // so the payload and the re-rendered header match after all
                assert(payload@ =~= pl);
                assert(expected@ == h);
                assert(bytes@.take(expected@.len() as int) =~= expected@);
                assert(false);
            }
        }
        None
    }
}

/// Law: a byte sequence is the canonical encoding of at most one object.
/// The kind is fixed by the header's first byte and the payload by the
/// header's single NUL terminator, so equal encodings mean equal objects.
pub proof fn lemma_encoding_unique(t1: ObjectType, p1: Seq<u8>, t2: ObjectType, p2: Seq<u8>)
    requires
        object_bytes(tag_of(t1), p1) == object_bytes(tag_of(t2), p2),
    ensures
        t1 == t2,
        p1 == p2,
{
    let b = object_bytes(tag_of(t1), p1);
    assert(b[0] == tag_of(t1)[0]);
    assert(b[0] == tag_of(t2)[0]);
    if t1 != t2 {
        assert(false);
    }
    lemma_header_no_nul(t1, p1.len());
    lemma_header_no_nul(t2, p2.len());
    let h1 = header_of(tag_of(t1), p1.len());
    let h2 = header_of(tag_of(t2), p2.len());
    if h1.len() < h2.len() {
        assert(b[h1.len() - 1] == h1[h1.len() - 1]);
        assert(b[h1.len() - 1] == h2[h1.len() - 1]);
        assert(false);
    }
    if h2.len() < h1.len() {
        assert(b[h2.len() - 1] == h2[h2.len() - 1]);
        assert(b[h2.len() - 1] == h1[h2.len() - 1]);
        assert(false);
    }
    assert(p1 =~= b.skip(h1.len() as int));
    assert(p2 =~= b.skip(h1.len() as int));
}

/// Reads a stored object file back: decompresses it and splits the
/// canonical encoding into its kind and payload. Whatever the store
/// prepared for an object, reading it yields that object's kind and exact
/// payload bytes again.
pub fn read_object(file: &Vec<u8>) -> (r: Option<(ObjectType, Vec<u8>)>)
    ensures
        forall|t: ObjectType, pl: Seq<u8>|
            file@ == deflate_of(object_bytes(tag_of(t), pl)) ==> (r matches Some(p) && p.0 == t
                && p.1@ == pl),
{
    match decompress_zlib(file.as_slice()) {
        Some(raw) => {
            let r = parse_object(&raw);
            proof {
                assert forall|t: ObjectType, pl: Seq<u8>|
                    file@ == deflate_of(object_bytes(tag_of(t), pl)) implies (r matches Some(p)
                    && p.0 == t && p.1@ == pl) by {
                    assert(raw@ == object_bytes(tag_of(t), pl));
                }
            }
            r
        },
        None => {
            proof {
                assert forall|t: ObjectType, pl: Seq<u8>|
                    file@ == deflate_of(object_bytes(tag_of(t), pl)) implies false by {}
            }
            None
        },
    }
}

} // verus!
