//! Tree building and materialization logic: classifying filesystem
//! modes, assembling tree entries, persisting a directory level as a
//! tree object, and planning the steps that reconstruct a directory
//! from a decoded tree. Walking the real filesystem is the caller's;
//! every decision about modes, ordering and encodings is made here.

use vstd::prelude::*;

use crate::canon::canonical_tree_payload;
use crate::codec::{
    dec_digits, decode_tree, entries_sorted, entries_view, entry_wf, lemma_tree_roundtrip,
    parse_tree_body, spec_tree_kind, tree_body_of, tree_payload_of, TreeEntry, TreeEntryV,
};
use crate::digest::fp_chars_of;
use crate::errors::GitError;
use crate::compress::{deflate_of, inflate_of};
use crate::hexutil::{hex_encode, hex_decode, hex_of, hex_val_bytes, is_fingerprint,
    is_valid_fingerprint};
use crate::store::{lemma_split_payload, split_payload, store_after, write_object, ObjectStore};

verus! {

/// The mode token of a directory entry: `40000`.
pub open spec fn spec_mode_dir() -> Seq<u8> {
    seq![52u8, 48u8, 48u8, 48u8, 48u8]
}

/// The mode token of a regular file entry: `100644`.
pub open spec fn spec_mode_file() -> Seq<u8> {
    seq![49u8, 48u8, 48u8, 54u8, 52u8, 52u8]
}

/// The mode token of an executable file entry: `100755`.
pub open spec fn spec_mode_exec() -> Seq<u8> {
    seq![49u8, 48u8, 48u8, 55u8, 53u8, 53u8]
}

/// Classifies a filesystem entry into its tree mode token: `40000` for
/// a directory, `100755` for a regular file with any execute
/// permission bit set, else `100644`. Fails with `UnsupportedFileType`
/// exactly when the entry is neither a directory nor a regular file.
/// The caller supplies what it read from the entry's metadata.
pub fn parse_git_mode(is_dir: bool, is_file: bool, mode_bits: u32) -> (r: Result<
    Vec<u8>,
    GitError,
>)
    ensures
        match r {
            Ok(m) => (is_dir || is_file) && m@ == (if is_dir {
                spec_mode_dir()
            } else if mode_bits & 0o111 != 0 {
                spec_mode_exec()
            } else {
                spec_mode_file()
            }),
            Err(e) => e == GitError::UnsupportedFileType && !is_dir && !is_file,
        },
{
    if is_dir {
        let m: Vec<u8> = vec![52, 48, 48, 48, 48];
        proof {
            assert(m@ =~= spec_mode_dir());
        }
        Ok(m)
    } else if is_file {
        if mode_bits & 0o111 != 0 {
            let m: Vec<u8> = vec![49, 48, 48, 55, 53, 53];
            proof {
                assert(m@ =~= spec_mode_exec());
            }
            Ok(m)
        } else {
            let m: Vec<u8> = vec![49, 48, 48, 54, 52, 52];
            proof {
                assert(m@ =~= spec_mode_file());
            }
            Ok(m)
        }
    } else {
        Err(GitError::UnsupportedFileType)
    }
}

/// Assembles one tree entry from a mode token, an entry name, and the
/// referenced object's fingerprint string, storing the fingerprint as
/// its 20 raw bytes. Fails with `InvalidFingerprint` exactly when the
/// string is not 40 hexadecimal characters.
pub fn build_tree_entry(mode: Vec<u8>, name: Vec<u8>, hash: &str) -> (r: Result<
    TreeEntry,
    GitError,
>)
    ensures
        match r {
            Ok(e) => is_fingerprint(hash@) && e@.mode == mode@ && e@.name == name@ && e@.hash
                == hex_val_bytes(hash@),
            Err(er) => er == GitError::InvalidFingerprint && !is_fingerprint(hash@),
        },
{
    if !is_valid_fingerprint(hash) {
        return Err(GitError::InvalidFingerprint);
    }
    let raw = hex_decode(hash);
    match raw {
        None => {
            proof {
                assert(false);
            }
            Err(GitError::InvalidFingerprint)
        },
        Some(h) => Ok(TreeEntry { mode, name, hash: h }),
    }
}

/// Sorts a directory level's entries, encodes them as a tree object,
/// and stores it under its fingerprint, which is returned. Together
/// with the ordering lemmas, the fingerprint does not depend on the
/// order in which the caller collected the entries.
pub fn write_tree_object(store: &mut ObjectStore, entries: &Vec<TreeEntry>) -> (r: String)
    requires
        old(store).wf(),
    ensures
        final(store).wf(),
        is_fingerprint(r@),
        exists|s: Seq<TreeEntryV>|
            {
                &&& entries_sorted(s)
                &&& s.to_multiset() == entries_view(entries@).to_multiset()
                &&& r@ == fp_chars_of(tree_payload_of(s))
                &&& final(store)@ == store_after(old(store)@, tree_payload_of(s))
                &&& inflate_of(deflate_of(tree_payload_of(s))) == Some(tree_payload_of(s))
            },
{
    let payload = canonical_tree_payload(entries);
    let ghost s = choose|s: Seq<TreeEntryV>|
        entries_sorted(s) && s.to_multiset() == entries_view(entries@).to_multiset() && payload@
            == tree_payload_of(s);
    let hash = write_object(store, &payload);
    proof {
        assert(entries_sorted(s) && s.to_multiset() == entries_view(entries@).to_multiset() && hash@
            == fp_chars_of(tree_payload_of(s)) && store@ == store_after(
            old(store)@,
            tree_payload_of(s),
        ));
    }
    hash
}

/// One step of materializing a tree into a directory.
pub enum MaterializeStep {
    /// Remove whatever sits at `name`, recreate it as a directory, and
    /// recurse into it with `hash`.
    EnterDir { name: Vec<u8>, hash: String },
    /// Read the blob under `hash` and write its body to the file
    /// `name`, overwriting it.
    WriteFile { name: Vec<u8>, hash: String },
}

/// The mathematical value of a materialization step.
#[verifier::ext_equal]
pub ghost enum MaterializeStepV {
    EnterDir { name: Seq<u8>, hash: Seq<char> },
    WriteFile { name: Seq<u8>, hash: Seq<char> },
}

impl View for MaterializeStep {
    type V = MaterializeStepV;

    open spec fn view(&self) -> MaterializeStepV {
        match self {
            MaterializeStep::EnterDir { name, hash } => MaterializeStepV::EnterDir {
                name: name@,
                hash: hash@,
            },
            MaterializeStep::WriteFile { name, hash } => MaterializeStepV::WriteFile {
                name: name@,
                hash: hash@,
            },
        }
    }
}

/// The values of a sequence of steps.
pub open spec fn steps_view(s: Seq<MaterializeStep>) -> Seq<MaterializeStepV> {
    s.map_values(|st: MaterializeStep| st@)
}

/// Whether an entry's mode is one of the three recognized tokens.
pub open spec fn mode_recognized(e: TreeEntryV) -> bool {
    e.mode == spec_mode_dir() || e.mode == spec_mode_file() || e.mode == spec_mode_exec()
}

/// The step a recognized entry calls for: directories are entered,
/// files are written; the fingerprint is rendered in hexadecimal.
pub open spec fn step_of(e: TreeEntryV) -> MaterializeStepV {
    if e.mode == spec_mode_dir() {
        MaterializeStepV::EnterDir { name: e.name, hash: hex_of(e.hash) }
    } else {
        MaterializeStepV::WriteFile { name: e.name, hash: hex_of(e.hash) }
    }
}

/// Compares two byte vectors.
fn bytes_eq(a: &Vec<u8>, b: &Vec<u8>) -> (r: bool)
    ensures
        r == (a@ == b@),
{
    if a.len() != b.len() {
        proof {
            assert(a@.len() != b@.len());
        }
        return false;
    }
    let mut i: usize = 0;
    while i < a.len()
        invariant
            0 <= i <= a@.len() == b@.len(),
            forall|j: int| 0 <= j < i ==> a@[j] == b@[j],
        decreases a@.len() - i,
    {
        if a[i] != b[i] {
            return false;
        }
        i += 1;
    }
    proof {
        assert(a@ =~= b@);
    }
    true
}

/// Plans the materialization of a decoded tree body: one step per
/// entry, in the entries' order. Fails with `MalformedTreeEntry`
/// exactly when the body does not parse, and with `InvalidTreeMode`
/// exactly when it parses but some entry's mode token is none of the
/// three recognized values.
pub fn plan_materialize(body: &Vec<u8>) -> (r: Result<Vec<MaterializeStep>, GitError>)
    ensures
        match r {
            Ok(steps) => {
                &&& parse_tree_body(body@) is Some
                &&& {
                    let es = parse_tree_body(body@)->Some_0;
                    &&& steps@.len() == es.len()
                    &&& forall|i: int| 0 <= i < es.len() ==> mode_recognized(#[trigger] es[i])
                    &&& forall|i: int|
                        0 <= i < es.len() ==> steps_view(steps@)[i] == step_of(#[trigger] es[i])
                }
            },
            Err(e) => if parse_tree_body(body@) is None {
                e == GitError::MalformedTreeEntry
            } else {
                let es = parse_tree_body(body@)->Some_0;
                e == GitError::InvalidTreeMode && (exists|i: int|
                    0 <= i < es.len() && !mode_recognized(#[trigger] es[i]))
            },
        },
{
    let decoded = decode_tree(body);
    match decoded {
        Err(e) => Err(e),
        Ok(entries) => {
            let ghost es = entries_view(entries@);
            let mode_dir: Vec<u8> = vec![52, 48, 48, 48, 48];
            let mode_file: Vec<u8> = vec![49, 48, 48, 54, 52, 52];
            let mode_exec: Vec<u8> = vec![49, 48, 48, 55, 53, 53];
            proof {
                assert(mode_dir@ =~= spec_mode_dir());
                assert(mode_file@ =~= spec_mode_file());
                assert(mode_exec@ =~= spec_mode_exec());
            }
            let mut steps: Vec<MaterializeStep> = Vec::new();
            let mut i: usize = 0;
            while i < entries.len()
                invariant
                    0 <= i <= entries@.len(),
                    es == entries_view(entries@),
                    parse_tree_body(body@) == Some(es),
                    mode_dir@ == spec_mode_dir(),
                    mode_file@ == spec_mode_file(),
                    mode_exec@ == spec_mode_exec(),
                    steps@.len() == i,
                    forall|j: int| 0 <= j < i ==> mode_recognized(#[trigger] es[j]),
                    forall|j: int| 0 <= j < i ==> steps_view(steps@)[j] == step_of(#[trigger] es[j]),
                decreases entries@.len() - i,
            {
                let e = &entries[i];
                proof {
                    assert(es[i as int] == e@);
                }
                let is_dir = bytes_eq(&e.mode, &mode_dir);
                let is_file = bytes_eq(&e.mode, &mode_file);
                let is_exec = bytes_eq(&e.mode, &mode_exec);
                if !is_dir && !is_file && !is_exec {
                    proof {
                        assert(!mode_recognized(es[i as int]));
                        assert(exists|j: int|
                            0 <= j < es.len() && !mode_recognized(#[trigger] es[j]));
                    }
                    return Err(GitError::InvalidTreeMode);
                }
                let hash = hex_encode(&e.hash);
                let mut name: Vec<u8> = Vec::new();
                let mut k: usize = 0;
                while k < e.name.len()
                    invariant
                        0 <= k <= e.name@.len(),
                        name@ =~= e.name@.subrange(0, k as int),
                    decreases e.name@.len() - k,
                {
                    name.push(e.name[k]);
                    k += 1;
                }
                proof {
                    assert(name@ =~= e.name@);
                }
                let step = if is_dir {
                    MaterializeStep::EnterDir { name, hash }
                } else {
                    MaterializeStep::WriteFile { name, hash }
                };
                proof {
                    assert(step@ =~= step_of(es[i as int]));
                    assert(steps_view(steps@.push(step)) =~= steps_view(steps@).push(step@));
                }
                steps.push(step);
                i += 1;
            }
            Ok(steps)
        },
    }
}


/// Round trip across builder and materializer, one directory level:
/// the payload a directory level is stored under splits into its tree
/// header and the encoded body, and that body decodes back to exactly
/// the level's entries, with modes, names and fingerprints unchanged.
pub proof fn lemma_level_roundtrip(s: Seq<TreeEntryV>)
    requires
        forall|i: int| 0 <= i < s.len() ==> entry_wf(#[trigger] s[i]),
    ensures
        split_payload(tree_payload_of(s)) == Some(
            (
                spec_tree_kind() + seq![32u8] + dec_digits(tree_body_of(s).len()),
                tree_body_of(s),
            ),
        ),
        parse_tree_body(tree_body_of(s)) == Some(s),
{
    assert(forall|i: int| 0 <= i < spec_tree_kind().len() ==> (#[trigger] spec_tree_kind()[i]) != 0);
    lemma_split_payload(spec_tree_kind(), tree_body_of(s));
    lemma_tree_roundtrip(s);
}

} // verus!
