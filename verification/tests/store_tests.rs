//! Tests of the object store: idempotent writes, fingerprint
//! validation boundaries, object reads, materialization planning, and
//! a builder/materializer round trip over the store.

use sgit::codec::{hash_blob, TreeEntry};
use sgit::digest::fingerprint;
use sgit::errors::GitError;
use sgit::store::{
    create_obj_write_payload, read_object, read_payload_from_hash, split_fingerprint,
    write_object, ObjectStore,
};
use sgit::snapshot::{build_node, FsNode};
use sgit::tree::{build_tree_entry, parse_git_mode, plan_materialize, write_tree_object,
    MaterializeStep};

#[test]
fn write_is_idempotent() {
    let mut store = ObjectStore::new();
    let payload: Vec<u8> = b"blob 5\x00hello".to_vec();
    let h1 = write_object(&mut store, &payload);
    assert_eq!(store.object_count(), 1);
    let h2 = write_object(&mut store, &payload);
    assert_eq!(h1, h2);
    assert_eq!(store.object_count(), 1);
    let (read, _) = read_payload_from_hash(&store, h1.as_str()).unwrap();
    assert_eq!(read, payload);
}

#[test]
fn read_fingerprint_boundaries() {
    let store = ObjectStore::new();
    let thirty_nine = "b6fc4c620b67d95f953a5c1c1230aaab5db5a1b";
    assert_eq!(thirty_nine.len(), 39);
    assert_eq!(
        read_payload_from_hash(&store, thirty_nine).err(),
        Some(GitError::InvalidFingerprint)
    );
    let forty_one = "b6fc4c620b67d95f953a5c1c1230aaab5db5a1b00";
    assert_eq!(forty_one.len(), 41);
    assert_eq!(
        read_payload_from_hash(&store, forty_one).err(),
        Some(GitError::InvalidFingerprint)
    );
    let not_hex = "g6fc4c620b67d95f953a5c1c1230aaab5db5a1b0";
    assert_eq!(
        read_payload_from_hash(&store, not_hex).err(),
        Some(GitError::InvalidFingerprint)
    );
    let unknown = "b6fc4c620b67d95f953a5c1c1230aaab5db5a1b0";
    assert_eq!(
        read_payload_from_hash(&store, unknown).err(),
        Some(GitError::ObjectNotFound)
    );
}

#[test]
fn read_object_splits_header_and_body() {
    let mut store = ObjectStore::new();
    let payload: Vec<u8> = b"blob 5\x00hello".to_vec();
    let hash = write_object(&mut store, &payload);
    let (raw, nul_pos) = read_payload_from_hash(&store, hash.as_str()).unwrap();
    assert_eq!(raw, payload);
    assert_eq!(nul_pos, 6);
    let (header, body) = read_object(&store, hash.as_str()).unwrap();
    assert_eq!(header, "blob 5");
    assert_eq!(body, b"hello".to_vec());
}

#[test]
fn read_rejects_payload_without_header() {
    let mut store = ObjectStore::new();
    // A payload with no NUL byte is stored, then refused on read.
    let payload: Vec<u8> = b"junk".to_vec();
    let hash = fingerprint(&payload);
    create_obj_write_payload(&mut store, &payload, hash.as_str()).unwrap();
    assert_eq!(
        read_payload_from_hash(&store, hash.as_str()).err(),
        Some(GitError::CorruptObject)
    );
}

#[test]
fn write_rejects_bad_fingerprint() {
    let mut store = ObjectStore::new();
    let payload: Vec<u8> = b"blob 0\x00".to_vec();
    assert_eq!(
        create_obj_write_payload(&mut store, &payload, "123").err(),
        Some(GitError::InvalidFingerprint)
    );
    assert_eq!(store.object_count(), 0);
}

#[test]
fn fingerprint_shard_split() {
    let (shard, rest) = split_fingerprint("b6fc4c620b67d95f953a5c1c1230aaab5db5a1b0").unwrap();
    assert_eq!(shard, "b6");
    assert_eq!(rest, "fc4c620b67d95f953a5c1c1230aaab5db5a1b0");
    assert_eq!(split_fingerprint("b6fc").err(), Some(GitError::InvalidFingerprint));
}

#[test]
fn mode_classification() {
    assert_eq!(parse_git_mode(true, false, 0).unwrap(), b"40000".to_vec());
    assert_eq!(parse_git_mode(false, true, 0o755).unwrap(), b"100755".to_vec());
    assert_eq!(parse_git_mode(false, true, 0o744).unwrap(), b"100755".to_vec());
    assert_eq!(parse_git_mode(false, true, 0o644).unwrap(), b"100644".to_vec());
    assert_eq!(parse_git_mode(false, false, 0).err(), Some(GitError::UnsupportedFileType));
}

#[test]
fn plan_rejects_unknown_mode() {
    let mut body: Vec<u8> = b"777 weird\x00".to_vec();
    body.extend(std::iter::repeat(0xabu8).take(20));
    assert_eq!(plan_materialize(&body).err(), Some(GitError::InvalidTreeMode));
}

#[test]
fn plan_rejects_malformed_body() {
    let body: Vec<u8> = b"100644 nameonly".to_vec();
    assert_eq!(plan_materialize(&body).err(), Some(GitError::MalformedTreeEntry));
}

#[test]
fn error_descriptions_cover_all_kinds() {
    assert_eq!(GitError::RepositoryNotFound.describe(), "repository not found");
    assert_eq!(GitError::ObjectNotFound.describe(), "object not found");
    assert_eq!(GitError::CorruptObject.describe(), "corrupt object");
    assert_eq!(GitError::MalformedTreeEntry.describe(), "malformed tree entry");
    assert_eq!(GitError::InvalidTreeMode.describe(), "invalid tree mode");
    assert_eq!(GitError::InvalidIdentity.describe(), "invalid identity");
    assert_eq!(GitError::UnsupportedFileType.describe(), "unsupported file type");
    assert_eq!(GitError::InvalidFingerprint.describe(), "invalid fingerprint");
}

/// A directory tree held in memory, for exercising the builder and
/// materializer against the store.
enum Node {
    File { executable: bool, data: Vec<u8> },
    Dir { children: Vec<(String, Node)> },
}

fn build(store: &mut ObjectStore, node: &Node) -> String {
    match node {
        Node::File { data, .. } => {
            let (payload, hash) = hash_blob(data);
            create_obj_write_payload(store, &payload, hash.as_str()).unwrap();
            hash
        }
        Node::Dir { children } => {
            let mut entries: Vec<TreeEntry> = Vec::new();
            for (name, child) in children {
                let hash = build(store, child);
                let mode = match child {
                    Node::Dir { .. } => parse_git_mode(true, false, 0).unwrap(),
                    Node::File { executable, .. } => {
                        parse_git_mode(false, true, if *executable { 1 } else { 0 }).unwrap()
                    }
                };
                let entry =
                    build_tree_entry(mode, name.as_bytes().to_vec(), hash.as_str()).unwrap();
                entries.push(entry);
            }
            write_tree_object(store, &entries)
        }
    }
}

fn materialize(store: &ObjectStore, hash: &str) -> Node {
    let (header, body) = read_object(store, hash).unwrap();
    if header.starts_with("tree") {
        let steps = plan_materialize(&body).unwrap();
        let mut children: Vec<(String, Node)> = Vec::new();
        for step in steps {
            match step {
                MaterializeStep::EnterDir { name, hash } => {
                    let child = materialize(store, hash.as_str());
                    children.push((String::from_utf8(name).unwrap(), child));
                }
                MaterializeStep::WriteFile { name, hash } => {
                    let (child_header, child_body) = read_object(store, hash.as_str()).unwrap();
                    assert!(child_header.starts_with("blob"));
                    children.push((
                        String::from_utf8(name).unwrap(),
                        Node::File { executable: false, data: child_body },
                    ));
                }
            }
        }
        Node::Dir { children }
    } else {
        Node::File { executable: false, data: body }
    }
}

fn assert_same_shape(a: &Node, b: &Node) {
    match (a, b) {
        (Node::File { data: da, .. }, Node::File { data: db, .. }) => assert_eq!(da, db),
        (Node::Dir { children: ca }, Node::Dir { children: cb }) => {
            assert_eq!(ca.len(), cb.len());
            for ((na, a), (nb, b)) in ca.iter().zip(cb.iter()) {
                assert_eq!(na, nb);
                assert_same_shape(a, b);
            }
        }
        _ => panic!("tree shapes differ"),
    }
}

#[test]
fn builder_materializer_roundtrip() {
    // Build a two-level directory into the store, then reconstruct it
    // from the root fingerprint alone and compare.
    let original = Node::Dir {
        children: vec![
            (
                "a.txt".to_string(),
                Node::File { executable: false, data: b"hello".to_vec() },
            ),
            (
                "sub".to_string(),
                Node::Dir {
                    children: vec![(
                        "inner.txt".to_string(),
                        Node::File { executable: false, data: b"abc".to_vec() },
                    )],
                },
            ),
        ],
    };
    let mut store = ObjectStore::new();
    let root = build(&mut store, &original);
    let rebuilt = materialize(&store, root.as_str());
    assert_same_shape(&original, &rebuilt);
    // Building the reconstructed tree writes no new objects and yields
    // the same root fingerprint.
    let count = store.object_count();
    let root_again = build(&mut store, &rebuilt);
    assert_eq!(root, root_again);
    assert_eq!(store.object_count(), count);
}

#[test]
fn snapshot_builder_matches_reference_fingerprint() {
    // The same two-entry directory as the sorted-scenario test, built
    // by the recursive snapshot builder; entries arrive unsorted.
    let snap = FsNode::Dir {
        children: vec![
            (b"empty".to_vec(), FsNode::Dir { children: vec![] }),
            (
                b"a.txt".to_vec(),
                FsNode::File { executable: false, data: b"x".to_vec() },
            ),
        ],
    };
    let mut store = ObjectStore::new();
    let root = build_node(&mut store, &snap);
    assert_eq!(root, "2720010918dfe16a29a8db101f809645897614a6");
    // blob, empty tree, root tree
    assert_eq!(store.object_count(), 3);
    // Building the unchanged snapshot again writes nothing new and
    // returns the identical fingerprint.
    let root_again = build_node(&mut store, &snap);
    assert_eq!(root, root_again);
    assert_eq!(store.object_count(), 3);
}

#[test]
fn snapshot_builder_roundtrips_through_materializer() {
    let snap = FsNode::Dir {
        children: vec![
            (
                b"tool".to_vec(),
                FsNode::File { executable: true, data: b"#!run".to_vec() },
            ),
            (
                b"sub".to_vec(),
                FsNode::Dir {
                    children: vec![(
                        b"inner.txt".to_vec(),
                        FsNode::File { executable: false, data: b"abc".to_vec() },
                    )],
                },
            ),
        ],
    };
    let mut store = ObjectStore::new();
    let root = build_node(&mut store, &snap);
    let rebuilt = materialize(&store, root.as_str());
    match &rebuilt {
        Node::Dir { children } => {
            assert_eq!(children.len(), 2);
            assert_eq!(children[0].0, "sub");
            assert_eq!(children[1].0, "tool");
            match &children[1].1 {
                Node::File { data, .. } => assert_eq!(data, &b"#!run".to_vec()),
                _ => panic!("expected a file"),
            }
            match &children[0].1 {
                Node::Dir { children: sub } => {
                    assert_eq!(sub.len(), 1);
                    assert_eq!(sub[0].0, "inner.txt");
                    match &sub[0].1 {
                        Node::File { data, .. } => assert_eq!(data, &b"abc".to_vec()),
                        _ => panic!("expected a file"),
                    }
                }
                _ => panic!("expected a directory"),
            }
        }
        _ => panic!("expected a directory"),
    }
}
