//! Trusted boundary around the SHA-256 implementation of the `sha2` crate.
//!
//! The hasher is fed the object header and then each payload fragment in
//! order, so that large payloads never have to be concatenated into one
//! buffer before hashing. The hasher state is modelled as the sequence of
//! bytes fed so far; the digest of a byte sequence is given a name,
//! `sha256_of`, since no short specification can state its value.

use vstd::prelude::*;

verus! {

/// The SHA-256 digest of a byte sequence. The digest is a pure function of
/// the input bytes alone; its 32-byte width is stated where it is produced.
pub uninterp spec fn sha256_of(data: Seq<u8>) -> Seq<u8>;

/// The bytes fed so far into a SHA-256 hasher.
pub uninterp spec fn sha_fed(h: sha2::Sha256) -> Seq<u8>;

#[verifier::external_type_specification]
#[verifier::external_body]
pub struct ExSha256(sha2::Sha256);

/// Relies on `sha2::Sha256::new` (via the `Digest` trait): a fresh hasher
/// has been fed nothing.
#[verifier::external_body]
pub(crate) fn sha256_new() -> (h: sha2::Sha256)
    ensures
        sha_fed(h) == Seq::<u8>::empty(),
{
    <sha2::Sha256 as sha2::Digest>::new()
}

/// Relies on `sha2::Sha256::update` (via the `Digest` trait): updating
/// appends the given bytes to what the hasher has been fed.
#[verifier::external_body]
pub(crate) fn sha256_update(h: &mut sha2::Sha256, data: &[u8])
    ensures
        sha_fed(*final(h)) == sha_fed(*old(h)) + data@,
{
    <sha2::Sha256 as sha2::Digest>::update(h, data)
}

/// Relies on `sha2::Sha256::finalize` (via the `Digest` trait): the result
/// is the 32-byte SHA-256 digest of exactly the bytes fed, in order.
#[verifier::external_body]
pub(crate) fn sha256_finalize(h: sha2::Sha256) -> (r: Vec<u8>)
    ensures
        r@ == sha256_of(sha_fed(h)),
        r@.len() == 32,
{
    <sha2::Sha256 as sha2::Digest>::finalize(h).to_vec()
}

} // verus!
