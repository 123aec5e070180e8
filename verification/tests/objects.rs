use objstore::blob::encode_blob;
use objstore::commit::{encode_commit, Authorship, Identity};
use objstore::store::{
    header_bytes, parse_object, read_object, store_object, ObjectType, StoreError, StoredObject,
};
use objstore::tree::{encode_tree, TreeEntry};

use sha2::Digest as _;
use std::io::Read as _;

fn blob_hello() -> StoredObject {
    encode_blob(&vec![b"Hello, world!\n".to_vec()])
}

fn decompress(data: &[u8]) -> Vec<u8> {
    let mut out = Vec::new();
    flate2::read::ZlibDecoder::new(data)
        .read_to_end(&mut out)
        .unwrap();
    out
}

#[test]
fn blob_digest_matches_reference_hash() {
    // The digest must be the SHA-256 of the framed encoding, computed here
    // independently of the library's own hashing path.
    let rec = blob_hello();
    let mut h = sha2::Sha256::new();
    h.update(b"blob 14\0Hello, world!\n");
    let expected: Vec<u8> = h.finalize().to_vec();
    assert_eq!(rec.digest.raw().clone(), expected);
    // and its cached hex rendering matches an independent rendering
    let expected_hex: String = expected.iter().map(|b| format!("{b:02x}")).collect();
    assert_eq!(String::from_utf8(rec.digest.hex().clone()).unwrap(), expected_hex);
}

#[test]
fn hashing_agrees_with_storing() {
    let d = objstore::store::hash_object(ObjectType::Blob, &vec![b"Hello, world!\n".to_vec()]);
    assert!(d.equals(&blob_hello().digest));
}

#[test]
fn blob_header_is_exact() {
    assert_eq!(header_bytes(ObjectType::Blob, 14), b"blob 14\0".to_vec());
    assert_eq!(header_bytes(ObjectType::Tree, 55), b"tree 55\0".to_vec());
    assert_eq!(header_bytes(ObjectType::Commit, 0), b"commit 0\0".to_vec());
    assert_eq!(
        header_bytes(ObjectType::Blob, 1234567890),
        b"blob 1234567890\0".to_vec()
    );
}

#[test]
fn store_is_deterministic() {
    let a = blob_hello();
    let b = blob_hello();
    assert!(a.digest.equals(&b.digest));
    assert_eq!(a.compressed, b.compressed);
}

#[test]
fn fragmentation_does_not_matter() {
    let split = encode_blob(&vec![b"Hello, ".to_vec(), b"world!\n".to_vec()]);
    let whole = blob_hello();
    assert!(split.digest.equals(&whole.digest));
    assert_eq!(split.compressed, whole.compressed);
}

#[test]
fn domain_separation_blob_vs_tree() {
    let x = vec![b"payload".to_vec()];
    let as_blob = store_object(ObjectType::Blob, &x);
    let as_tree = store_object(ObjectType::Tree, &x);
    assert!(!as_blob.digest.equals(&as_tree.digest));
    let as_commit = store_object(ObjectType::Commit, &x);
    assert!(!as_blob.digest.equals(&as_commit.digest));
    assert!(!as_tree.digest.equals(&as_commit.digest));
}

#[test]
fn stored_file_round_trips() {
    let rec = blob_hello();
    // Independent decompression reproduces header and payload exactly.
    assert_eq!(decompress(&rec.compressed), b"blob 14\0Hello, world!\n".to_vec());
    // The library's own reader agrees.
    let (kind, payload) = read_object(&rec.compressed).unwrap();
    assert_eq!(kind, ObjectType::Blob);
    assert_eq!(payload, b"Hello, world!\n".to_vec());
}

#[test]
fn parser_accepts_only_canonical_encodings() {
    let (kind, payload) = parse_object(&b"blob 3\0abc".to_vec()).unwrap();
    assert_eq!(kind, ObjectType::Blob);
    assert_eq!(payload, b"abc".to_vec());
    // wrong length field
    assert!(parse_object(&b"blob 4\0abc".to_vec()).is_none());
    // leading zero is not the canonical decimal rendering
    assert!(parse_object(&b"blob 03\0abc".to_vec()).is_none());
    // unknown tag, missing NUL, empty input
    assert!(parse_object(&b"tag 3\0abc".to_vec()).is_none());
    assert!(parse_object(&b"blob 3 abc".to_vec()).is_none());
    assert!(parse_object(&Vec::new()).is_none());
    // not a zlib stream at all
    assert!(read_object(&b"not compressed".to_vec()).is_none());
}

#[test]
fn digest_hex_width_and_case() {
    let rec = blob_hello();
    let hex = rec.digest.hex().clone();
    assert_eq!(hex.len(), 64);
    assert_eq!(hex.len(), 2 * rec.digest.raw().len());
    assert!(hex
        .iter()
        .all(|b| (b'0'..=b'9').contains(b) || (b'a'..=b'f').contains(b)));
    let shard = rec.digest.shard_dir();
    let file = rec.digest.file_name();
    assert_eq!(shard.len(), 2);
    assert_eq!(file.len(), 62);
    let mut joined = shard.clone();
    joined.extend_from_slice(&file);
    assert_eq!(joined, hex);
}

fn entry(mode: &[u8], name: &[u8], child: &objstore::digest::Digest) -> TreeEntry {
    TreeEntry {
        mode: mode.to_vec(),
        name: name.to_vec(),
        child: child.clone(),
    }
}

#[test]
fn tree_scenario_single_entry() {
    let blob = blob_hello();
    let tree = encode_tree(&vec![entry(b"100644", b"hello-world.txt", &blob.digest)]).unwrap();
    // payload: "100644" " " "hello-world.txt" "\0" digest bytes
    let mut expected_payload = b"100644 hello-world.txt\0".to_vec();
    expected_payload.extend_from_slice(blob.digest.raw());
    assert_eq!(expected_payload.len(), 55);
    let mut expected_file = b"tree 55\0".to_vec();
    expected_file.extend_from_slice(&expected_payload);
    assert_eq!(decompress(&tree.compressed), expected_file);
    let (kind, payload) = read_object(&tree.compressed).unwrap();
    assert_eq!(kind, ObjectType::Tree);
    assert_eq!(payload, expected_payload);
}

#[test]
fn tree_order_changes_digest() {
    let d1 = blob_hello().digest;
    let d2 = encode_blob(&vec![b"other\n".to_vec()]).digest;
    let one = encode_tree(&vec![entry(b"100644", b"a.txt", &d1)]).unwrap();
    let two = encode_tree(&vec![
        entry(b"100644", b"b.txt", &d2),
        entry(b"100644", b"a.txt", &d1),
    ])
    .unwrap();
    assert!(!one.digest.equals(&two.digest));
    // order alone changes the encoding and so the digest
    let swapped = encode_tree(&vec![
        entry(b"100644", b"a.txt", &d1),
        entry(b"100644", b"b.txt", &d2),
    ])
    .unwrap();
    assert!(!two.digest.equals(&swapped.digest));
}

#[test]
fn tree_validation_rejects_delimiters() {
    let d = blob_hello().digest;
    let bad_mode = encode_tree(&vec![entry(b"100 644", b"a.txt", &d)]);
    assert_eq!(bad_mode.err().unwrap(), StoreError::Validation);
    let bad_mode_nul = encode_tree(&vec![entry(b"100\0644", b"a.txt", &d)]);
    assert_eq!(bad_mode_nul.err().unwrap(), StoreError::Validation);
    let bad_name = encode_tree(&vec![entry(b"100644", b"a\0.txt", &d)]);
    assert_eq!(bad_name.err().unwrap(), StoreError::Validation);
    // a space in the name is allowed
    assert!(encode_tree(&vec![entry(b"100644", b"a b.txt", &d)]).is_ok());
}

fn computer() -> Identity {
    Identity::utc(
        b"computer".to_vec(),
        b"computer@example.com".to_vec(),
        b"0".to_vec(),
    )
}

#[test]
fn commit_with_no_parents_has_no_parent_line() {
    let blob = blob_hello();
    let tree = encode_tree(&vec![entry(b"100644", b"hello-world.txt", &blob.digest)]).unwrap();
    let commit = encode_commit(
        &tree.digest,
        &Vec::new(),
        &vec![
            Authorship { role: b"author".to_vec(), identity: computer() },
            Authorship { role: b"committer".to_vec(), identity: computer() },
        ],
        &b"create demo\n".to_vec(),
    );
    let (kind, payload) = read_object(&commit.compressed).unwrap();
    assert_eq!(kind, ObjectType::Commit);
    let mut expected = b"tree ".to_vec();
    expected.extend_from_slice(&tree.digest.hex());
    expected.extend_from_slice(b"\n");
    expected.extend_from_slice(b"author computer <computer@example.com> 0 +0000\n");
    expected.extend_from_slice(b"committer computer <computer@example.com> 0 +0000\n");
    expected.extend_from_slice(b"\n");
    expected.extend_from_slice(b"create demo\n");
    assert_eq!(payload, expected);
    assert_eq!(
        payload.windows(7).filter(|w| **w == b"parent "[..]).count(),
        0
    );
}

#[test]
fn commit_with_two_parents_emits_both_lines_in_order() {
    let blob = blob_hello();
    let tree = encode_tree(&vec![entry(b"100644", b"hello-world.txt", &blob.digest)]).unwrap();
    let p1 = encode_commit(
        &tree.digest,
        &Vec::new(),
        &vec![Authorship { role: b"author".to_vec(), identity: computer() }],
        &b"first\n".to_vec(),
    );
    let p2 = encode_commit(
        &tree.digest,
        &Vec::new(),
        &vec![Authorship { role: b"author".to_vec(), identity: computer() }],
        &b"second\n".to_vec(),
    );
    let merge = encode_commit(
        &tree.digest,
        &vec![p1.digest.clone(), p2.digest.clone()],
        &vec![Authorship { role: b"committer".to_vec(), identity: computer() }],
        &b"merge\n".to_vec(),
    );
    let (_, payload) = read_object(&merge.compressed).unwrap();
    let mut expected = b"tree ".to_vec();
    expected.extend_from_slice(&tree.digest.hex());
    expected.extend_from_slice(b"\nparent ");
    expected.extend_from_slice(&p1.digest.hex());
    expected.extend_from_slice(b"\nparent ");
    expected.extend_from_slice(&p2.digest.hex());
    expected.extend_from_slice(b"\ncommitter computer <computer@example.com> 0 +0000\n\nmerge\n");
    assert_eq!(payload, expected);
    assert_eq!(
        payload.windows(7).filter(|w| **w == b"parent "[..]).count(),
        2
    );
}

#[test]
fn identity_default_timezone() {
    let id = computer();
    assert_eq!(id.tz, b"+0000".to_vec());
    assert_eq!(id.name, b"computer".to_vec());
    assert_eq!(id.email, b"computer@example.com".to_vec());
    assert_eq!(id.date_seconds, b"0".to_vec());
}

#[test]
fn empty_blob() {
    let rec = encode_blob(&Vec::new());
    let mut h = sha2::Sha256::new();
    h.update(b"blob 0\0");
    let expected: Vec<u8> = h.finalize().to_vec();
    assert_eq!(rec.digest.raw().clone(), expected);
    let (kind, payload) = read_object(&rec.compressed).unwrap();
    assert_eq!(kind, ObjectType::Blob);
    assert!(payload.is_empty());
}

#[test]
fn empty_tree() {
    let rec = encode_tree(&Vec::new()).unwrap();
    assert_eq!(decompress(&rec.compressed), b"tree 0\0".to_vec());
}
