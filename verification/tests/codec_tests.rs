//! Tests of the hashing and compression primitives and of the object
//! codec: payload layout, tree encoding and decoding, canonical
//! ordering, and commit payloads.

use sgit::canon::canonical_tree_payload;
use sgit::codec::{decode_tree, encode_blob, encode_tree, hash_blob, TreeEntry};
use sgit::commit::{encode_commit, is_valid_name};
use sgit::compress::{compress_data, decompress_buffer};
use sgit::digest::fingerprint;
use sgit::errors::GitError;
use sgit::tree::build_tree_entry;

fn entry(mode: &str, name: &str, hash: &str) -> TreeEntry {
    build_tree_entry(mode.as_bytes().to_vec(), name.as_bytes().to_vec(), hash).unwrap()
}

fn strip_header(payload: &[u8]) -> Vec<u8> {
    let nul = payload.iter().position(|&b| b == 0).unwrap();
    payload[nul + 1..].to_vec()
}

#[test]
fn compress_roundtrip() {
    let payload: Vec<u8> = b"the quick brown fox jumps over the lazy dog".to_vec();
    let compressed = compress_data(&payload);
    let decompressed = decompress_buffer(&compressed).unwrap();
    assert_eq!(decompressed, payload);
}

#[test]
fn compress_roundtrip_empty() {
    let payload: Vec<u8> = Vec::new();
    let compressed = compress_data(&payload);
    let decompressed = decompress_buffer(&compressed).unwrap();
    assert_eq!(decompressed, payload);
}

#[test]
fn decompress_rejects_garbage() {
    let garbage: Vec<u8> = vec![1, 2, 3, 4];
    assert_eq!(decompress_buffer(&garbage), Err(GitError::CorruptObject));
}

#[test]
fn fingerprint_deterministic() {
    let a: Vec<u8> = b"some payload".to_vec();
    let b: Vec<u8> = b"another payload".to_vec();
    assert_eq!(fingerprint(&a), fingerprint(&a));
    assert_ne!(fingerprint(&a), fingerprint(&b));
}

#[test]
fn fingerprint_reference_values() {
    let empty: Vec<u8> = Vec::new();
    assert_eq!(fingerprint(&empty), "da39a3ee5e6b4b0d3255bfef95601890afd80709");
    let hello_payload: Vec<u8> = b"blob 5\x00hello".to_vec();
    assert_eq!(fingerprint(&hello_payload), "b6fc4c620b67d95f953a5c1c1230aaab5db5a1b0");
}

#[test]
fn blob_hello_payload_and_fingerprint() {
    let data: Vec<u8> = b"hello".to_vec();
    assert_eq!(encode_blob(&data), b"blob 5\x00hello".to_vec());
    let (payload, hash) = hash_blob(&data);
    assert_eq!(payload, b"blob 5\x00hello".to_vec());
    assert_eq!(hash, "b6fc4c620b67d95f953a5c1c1230aaab5db5a1b0");
}

#[test]
fn blob_empty_payload() {
    let data: Vec<u8> = Vec::new();
    let (payload, hash) = hash_blob(&data);
    assert_eq!(payload, b"blob 0\x00".to_vec());
    assert_eq!(hash, "e69de29bb2d1d6434b8b29ae775ad8c2e48c5391");
}

#[test]
fn tree_roundtrip_entries() {
    let entries = vec![
        entry("100644", "a.txt", "c1b0730e0133447badcfd47fd144e254807b06e1"),
        entry("40000", "sub", "4b825dc642cb6eb9a060e54bf8d69288fbee4904"),
        entry("100755", "tool", "b6fc4c620b67d95f953a5c1c1230aaab5db5a1b0"),
    ];
    let payload = encode_tree(&entries);
    let body = strip_header(&payload);
    let decoded = decode_tree(&body).unwrap();
    assert_eq!(decoded.len(), 3);
    for (d, e) in decoded.iter().zip(entries.iter()) {
        assert_eq!(d.mode, e.mode);
        assert_eq!(d.name, e.name);
        assert_eq!(d.hash, e.hash);
    }
}

#[test]
fn tree_decode_rejects_malformed() {
    // No NUL terminator at all.
    let no_nul: Vec<u8> = b"100644 a.txt".to_vec();
    assert_eq!(decode_tree(&no_nul).err(), Some(GitError::MalformedTreeEntry));
    // Header with a single token.
    let mut one_token: Vec<u8> = b"100644\x00".to_vec();
    one_token.extend(std::iter::repeat(0xabu8).take(20));
    assert_eq!(decode_tree(&one_token).err(), Some(GitError::MalformedTreeEntry));
    // Header with three tokens.
    let mut three_tokens: Vec<u8> = b"100644 a b\x00".to_vec();
    three_tokens.extend(std::iter::repeat(0xabu8).take(20));
    assert_eq!(decode_tree(&three_tokens).err(), Some(GitError::MalformedTreeEntry));
    // Fewer than 20 bytes of fingerprint after the header.
    let mut short_hash: Vec<u8> = b"100644 a.txt\x00".to_vec();
    short_hash.extend(std::iter::repeat(0xabu8).take(19));
    assert_eq!(decode_tree(&short_hash).err(), Some(GitError::MalformedTreeEntry));
}

#[test]
fn tree_decode_empty_body() {
    let body: Vec<u8> = Vec::new();
    let decoded = decode_tree(&body).unwrap();
    assert_eq!(decoded.len(), 0);
}

#[test]
fn tree_encoding_order_independent() {
    let one = vec![
        entry("100644", "b.txt", "c1b0730e0133447badcfd47fd144e254807b06e1"),
        entry("40000", "a", "4b825dc642cb6eb9a060e54bf8d69288fbee4904"),
        entry("100644", "c.txt", "b6fc4c620b67d95f953a5c1c1230aaab5db5a1b0"),
    ];
    let other = vec![
        entry("100644", "c.txt", "b6fc4c620b67d95f953a5c1c1230aaab5db5a1b0"),
        entry("100644", "b.txt", "c1b0730e0133447badcfd47fd144e254807b06e1"),
        entry("40000", "a", "4b825dc642cb6eb9a060e54bf8d69288fbee4904"),
    ];
    assert_eq!(canonical_tree_payload(&one), canonical_tree_payload(&other));
}

#[test]
fn tree_two_entries_sorted_scenario() {
    // A directory holding the empty subdirectory `empty` and the file
    // `a.txt` containing `x`: two entries, `a.txt` ordered first.
    let (_, blob_hash) = hash_blob(&b"x".to_vec());
    assert_eq!(blob_hash, "c1b0730e0133447badcfd47fd144e254807b06e1");
    let empty_entries: Vec<TreeEntry> = Vec::new();
    let empty_tree_payload = canonical_tree_payload(&empty_entries);
    assert_eq!(empty_tree_payload, b"tree 0\x00".to_vec());
    let empty_tree_hash = fingerprint(&empty_tree_payload);
    assert_eq!(empty_tree_hash, "4b825dc642cb6eb9a060e54bf8d69288fbee4904");

    let entries = vec![
        entry("40000", "empty", empty_tree_hash.as_str()),
        entry("100644", "a.txt", blob_hash.as_str()),
    ];
    let payload = canonical_tree_payload(&entries);
    assert_eq!(fingerprint(&payload), "2720010918dfe16a29a8db101f809645897614a6");
    let decoded = decode_tree(&strip_header(&payload)).unwrap();
    assert_eq!(decoded.len(), 2);
    assert_eq!(decoded[0].name, b"a.txt".to_vec());
    assert_eq!(decoded[1].name, b"empty".to_vec());
}

#[test]
fn build_tree_entry_rejects_bad_hash() {
    let r = build_tree_entry(b"100644".to_vec(), b"a.txt".to_vec(), "abc");
    assert_eq!(r.err(), Some(GitError::InvalidFingerprint));
}

#[test]
fn name_validation() {
    assert!(is_valid_name("Ada Lovelace"));
    assert!(is_valid_name("J. O'Neill-Smith_2"));
    assert!(!is_valid_name(""));
    assert!(!is_valid_name("line\nbreak"));
}

#[test]
fn commit_payload_layout() {
    let payload = encode_commit(
        "2720010918dfe16a29a8db101f809645897614a6",
        "Ada",
        "ada@example.com",
        "first",
    )
    .unwrap();
    let body = b"tree 2720010918dfe16a29a8db101f809645897614a6\nauthor Ada <ada@example.com>\n\nfirst\n";
    let mut expected: Vec<u8> = format!("commit {}\x00", body.len()).into_bytes();
    expected.extend_from_slice(body);
    assert_eq!(payload, expected);
}

#[test]
fn commit_rejects_invalid_identity() {
    let bad_name = encode_commit("a", "", "ada@example.com", "msg");
    assert_eq!(bad_name.err(), Some(GitError::InvalidIdentity));
    let bad_email = encode_commit("a", "Ada", "not-an-email", "msg");
    assert_eq!(bad_email.err(), Some(GitError::InvalidIdentity));
    let empty_email = encode_commit("a", "Ada", "", "msg");
    assert_eq!(empty_email.err(), Some(GitError::InvalidIdentity));
}
