//! A minimal content-addressable object store modelled on a version-control
//! object database that uses a 32-byte content hash.
//!
//! Content (blobs), directory listings (trees) and commit records are framed
//! into a canonical byte encoding, hashed under a domain-separating header,
//! and prepared for storage as a zlib-compressed file under a two-level
//! sharded path derived from the digest. All framing and path derivation is
//! verified; the hash and the compressor are outside crates, relied on
//! through narrow trusted wrappers.

pub mod hex;
pub mod sha;
pub mod digest;
pub mod store;
pub mod blob;
pub mod tree;
pub mod commit;
