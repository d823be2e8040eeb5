//! Directory snapshots as values: the tree builder walks a snapshot of
//! a directory held in memory and persists every blob and subtree into
//! the object store, returning the root tree's fingerprint. The
//! fingerprint is proved to be a function of the snapshot alone, so
//! building an unchanged snapshot twice writes identical objects and
//! returns the identical fingerprint.

use vstd::multiset::Multiset;
use vstd::prelude::*;

use crate::canon::unique_names;
use crate::codec::{
    blob_payload_of, encode_blob, entries_sorted, entries_view, entry_wf, is_ws,
    lemma_tree_roundtrip, lex_leq, parse_tree_body, token_wf, tree_body_of, tree_payload_of,
    TreeEntry, TreeEntryV,
};
use crate::compress::{deflate_of, inflate_of};
use crate::digest::{fp_chars_of, sha1_of};
use crate::hexutil::{is_fingerprint, lemma_hex_of_roundtrip};
use crate::store::{write_object, ObjectStore};
use crate::tree::{build_tree_entry, parse_git_mode, spec_mode_dir, spec_mode_exec,
    spec_mode_file, write_tree_object};

verus! {

/// One directory level or file of a snapshot.
pub enum FsNode {
    /// A file's contents, and whether its execute bit is set.
    File { executable: bool, data: Vec<u8> },
    /// A directory's children: name and node of each entry.
    Dir { children: Vec<(Vec<u8>, FsNode)> },
}

/// The mathematical value of a snapshot.
#[verifier::ext_equal]
pub ghost enum NodeV {
    File { executable: bool, data: Seq<u8> },
    Dir { children: Seq<(Seq<u8>, NodeV)> },
}

/// The value of a snapshot node.
pub open spec fn node_view(n: FsNode) -> NodeV
    decreases n,
{
    match n {
        FsNode::File { executable, data } => NodeV::File { executable, data: data@ },
        FsNode::Dir { children } => NodeV::Dir { children: children_view(children@) },
    }
}

/// The values of a directory's children, in order.
pub open spec fn children_view(cs: Seq<(Vec<u8>, FsNode)>) -> Seq<(Seq<u8>, NodeV)>
    decreases cs,
{
    if cs.len() == 0 {
        Seq::empty()
    } else {
        seq![(cs.first().0@, node_view(cs.first().1))] + children_view(cs.drop_first())
    }
}

impl View for FsNode {
    type V = NodeV;

    open spec fn view(&self) -> NodeV {
        node_view(*self)
    }
}

/// A well-formed snapshot: every name is a well-formed token, no two
/// children of one directory share a name.
pub open spec fn node_wf(n: NodeV) -> bool
    decreases n,
{
    match n {
        NodeV::File { .. } => true,
        NodeV::Dir { children } => {
            &&& forall|i: int| 0 <= i < children.len() ==> token_wf((#[trigger] children[i]).0)
            &&& forall|i: int, j: int|
                0 <= i < j < children.len() ==> (#[trigger] children[i]).0 != (
                #[trigger] children[j]).0
            &&& forall|i: int| 0 <= i < children.len() ==> node_wf((#[trigger] children[i]).1)
        },
    }
}

/// The mode token a child is recorded under.
pub open spec fn child_mode(n: NodeV) -> Seq<u8> {
    match n {
        NodeV::Dir { .. } => spec_mode_dir(),
        NodeV::File { executable, .. } => if executable {
            spec_mode_exec()
        } else {
            spec_mode_file()
        },
    }
}

/// Sorted insertion of an entry by ascending byte-wise name order.
pub open spec fn insert_entry(s: Seq<TreeEntryV>, e: TreeEntryV) -> Seq<TreeEntryV>
    decreases s.len(),
{
    if s.len() == 0 {
        seq![e]
    } else if lex_leq(e.name, s.first().name) {
        seq![e] + s
    } else {
        seq![s.first()] + insert_entry(s.drop_first(), e)
    }
}

/// The name-sorted arrangement of an entry list.
pub open spec fn sorted_entries_of(s: Seq<TreeEntryV>) -> Seq<TreeEntryV>
    decreases s.len(),
{
    if s.len() == 0 {
        Seq::empty()
    } else {
        insert_entry(sorted_entries_of(s.drop_first()), s.first())
    }
}

/// The payload of the object a snapshot node is stored as: a blob
/// payload for a file, and for a directory the tree payload over its
/// children's entries, sorted by name, each child hashed recursively.
pub open spec fn node_payload(n: NodeV) -> Seq<u8>
    decreases n,
{
    match n {
        NodeV::File { data, .. } => blob_payload_of(data),
        NodeV::Dir { children } => tree_payload_of(sorted_entries_of(child_entries(children))),
    }
}

/// The unsorted entry list of a directory's children: each child's
/// mode, its name, and the raw digest of its own object payload.
pub open spec fn child_entries(cs: Seq<(Seq<u8>, NodeV)>) -> Seq<TreeEntryV>
    decreases cs,
{
    if cs.len() == 0 {
        Seq::empty()
    } else {
        seq![
            TreeEntryV {
                mode: child_mode(cs.first().1),
                name: cs.first().0,
                hash: sha1_of(node_payload(cs.first().1)),
            },
        ] + child_entries(cs.drop_first())
    }
}

/// The fingerprint a snapshot node is stored under.
pub open spec fn node_fp(n: NodeV) -> Seq<char> {
    fp_chars_of(node_payload(n))
}


/// The children's values, element by element.
pub proof fn lemma_children_view(cs: Seq<(Vec<u8>, FsNode)>)
    ensures
        children_view(cs).len() == cs.len(),
        forall|i: int|
            0 <= i < cs.len() ==> #[trigger] children_view(cs)[i] == (
                cs[i].0@,
                node_view(cs[i].1),
            ),
    decreases cs,
{
    if cs.len() > 0 {
        lemma_children_view(cs.drop_first());
        assert(forall|i: int| 0 < i < cs.len() ==> cs.drop_first()[i - 1] == cs[i]);
    }
}

/// The children's entry list, element by element.
pub proof fn lemma_child_entries(cs: Seq<(Seq<u8>, NodeV)>)
    ensures
        child_entries(cs).len() == cs.len(),
        forall|i: int|
            0 <= i < cs.len() ==> #[trigger] child_entries(cs)[i] == (TreeEntryV {
                mode: child_mode(cs[i].1),
                name: cs[i].0,
                hash: sha1_of(node_payload(cs[i].1)),
            }),
    decreases cs,
{
    if cs.len() > 0 {
        lemma_child_entries(cs.drop_first());
        assert(forall|i: int| 0 < i < cs.len() ==> cs.drop_first()[i - 1] == cs[i]);
    }
}

/// Sorted insertion keeps the list sorted and adds exactly the entry.
pub proof fn lemma_insert_entry(s: Seq<TreeEntryV>, e: TreeEntryV)
    requires
        entries_sorted(s),
    ensures
        entries_sorted(insert_entry(s, e)),
        insert_entry(s, e).to_multiset() == s.to_multiset().insert(e),
        insert_entry(s, e).len() == s.len() + 1,
    decreases s.len(),
{
    broadcast use vstd::multiset::group_multiset_axioms;
    broadcast use vstd::seq_lib::group_to_multiset_ensures;

    let r = insert_entry(s, e);
    if s.len() == 0 {
        assert(r =~= Seq::<TreeEntryV>::empty().push(e));
        assert(Seq::<TreeEntryV>::empty().to_multiset() =~= Multiset::<TreeEntryV>::empty());
    } else if lex_leq(e.name, s.first().name) {
        assert(r == seq![e] + s);
        assert forall|i: int, j: int| 0 <= i < j < r.len() implies lex_leq(
            #[trigger] r[i].name,
            #[trigger] r[j].name,
        ) by {
            if i == 0 {
                if j == 1 {
                    assert(r[j] == s[0]);
                } else {
                    assert(r[j] == s[j - 1]);
                    assert(lex_leq(s[0].name, s[j - 1].name));
                    crate::canon::lemma_lex_trans(e.name, s[0].name, s[j - 1].name);
                }
            } else {
                assert(r[i] == s[i - 1] && r[j] == s[j - 1]);
            }
        }
        assert(r =~= s.insert(0, e));
        vstd::seq_lib::to_multiset_insert(s, 0, e);
    } else {
        crate::canon::lemma_lex_connected(e.name, s.first().name);
        let rest = insert_entry(s.drop_first(), e);
        assert(forall|i: int| 0 < i < s.len() ==> s.drop_first()[i - 1] == s[i]);
        assert(entries_sorted(s.drop_first()));
        lemma_insert_entry(s.drop_first(), e);
        assert(r == seq![s.first()] + rest);
        assert forall|i: int, j: int| 0 <= i < j < r.len() implies lex_leq(
            #[trigger] r[i].name,
            #[trigger] r[j].name,
        ) by {
            if i == 0 {
                let x = rest[j - 1];
                assert(rest.to_multiset().contains(x));
                assert(s.drop_first().to_multiset().insert(e).contains(x));
                if x == e {
                    assert(lex_leq(s.first().name, e.name));
                } else {
                    assert(s.drop_first().to_multiset().contains(x));
                    vstd::seq_lib::to_multiset_contains(s.drop_first(), x);
                    let k = choose|k: int|
                        0 <= k < s.drop_first().len() && s.drop_first()[k] == x;
                    assert(s[k + 1] == x);
                    assert(lex_leq(s[0].name, s[k + 1].name));
                }
            } else {
                assert(r[i] == rest[i - 1] && r[j] == rest[j - 1]);
            }
        }
        // Multiset bookkeeping for the front element.
        assert(s =~= seq![s.first()] + s.drop_first());
        vstd::seq_lib::lemma_multiset_commutative(seq![s.first()], s.drop_first());
        vstd::seq_lib::lemma_multiset_commutative(seq![s.first()], rest);
        assert(seq![s.first()].to_multiset() =~= Seq::<TreeEntryV>::empty().push(
            s.first(),
        ).to_multiset());
        assert forall|x: TreeEntryV|
            r.to_multiset().count(x) == s.to_multiset().insert(e).count(x) by {}
        assert(r.to_multiset() =~= s.to_multiset().insert(e));
    }
}

/// Sorting arranges exactly the entries given, in sorted order.
pub proof fn lemma_sorted_entries_of(s: Seq<TreeEntryV>)
    ensures
        entries_sorted(sorted_entries_of(s)),
        sorted_entries_of(s).to_multiset() == s.to_multiset(),
    decreases s.len(),
{
    broadcast use vstd::multiset::group_multiset_axioms;
    broadcast use vstd::seq_lib::group_to_multiset_ensures;

    if s.len() > 0 {
        lemma_sorted_entries_of(s.drop_first());
        lemma_insert_entry(sorted_entries_of(s.drop_first()), s.first());
        assert(s =~= seq![s.first()] + s.drop_first());
        vstd::seq_lib::lemma_multiset_commutative(seq![s.first()], s.drop_first());
        assert(seq![s.first()].to_multiset() =~= Seq::<TreeEntryV>::empty().push(
            s.first(),
        ).to_multiset());
        assert forall|x: TreeEntryV|
            sorted_entries_of(s).to_multiset().count(x) == s.to_multiset().count(x) by {}
        assert(sorted_entries_of(s).to_multiset() =~= s.to_multiset());
    }
}

/// Height of a snapshot, for the builder's termination measure.
pub open spec fn node_height(n: FsNode) -> nat
    decreases n,
{
    match n {
        FsNode::File { .. } => 0,
        FsNode::Dir { children } => 1 + children_height(children@),
    }
}

/// Largest height among a directory's children.
pub open spec fn children_height(cs: Seq<(Vec<u8>, FsNode)>) -> nat
    decreases cs,
{
    if cs.len() == 0 {
        0
    } else {
        let h1 = node_height(cs.first().1);
        let h2 = children_height(cs.drop_first());
        if h1 > h2 {
            h1
        } else {
            h2
        }
    }
}

/// Every child is at most as high as the directory's children bound.
proof fn lemma_children_height(cs: Seq<(Vec<u8>, FsNode)>, i: int)
    requires
        0 <= i < cs.len(),
    ensures
        node_height(cs[i].1) <= children_height(cs),
    decreases cs,
{
    if i > 0 {
        lemma_children_height(cs.drop_first(), i - 1);
        assert(cs.drop_first()[i - 1] == cs[i]);
    }
}

/// The mode token a snapshot child is recorded under.
fn mode_of_child(child: &FsNode) -> (r: Vec<u8>)
    ensures
        r@ == child_mode(child@),
{
    match child {
        FsNode::Dir { .. } => {
            proof {
                assert(child@ is Dir);
            }
            let m = parse_git_mode(true, false, 0);
            match m {
                Ok(m) => m,
                Err(_) => {
                    proof {
                        assert(false);
                    }
                    Vec::new()
                },
            }
        },
        FsNode::File { executable, .. } => {
            proof {
                assert(child@ is File);
                assert((1u32 & 0o111u32) != 0u32) by (bit_vector);
                assert((0u32 & 0o111u32) == 0u32) by (bit_vector);
            }
            let m = parse_git_mode(
                false,
                true,
                if *executable {
                    1
                } else {
                    0
                },
            );
            match m {
                Ok(m) => m,
                Err(_) => {
                    proof {
                        assert(false);
                    }
                    Vec::new()
                },
            }
        },
    }
}

/// Persists a snapshot into the object store, children before parents:
/// files become blob objects, directories become tree objects over
/// their children's sorted entries. Returns the root's fingerprint,
/// which is a function of the snapshot alone: building an unchanged
/// snapshot twice writes identical objects and returns the identical
/// fingerprint.
pub fn build_node(store: &mut ObjectStore, n: &FsNode) -> (r: String)
    requires
        old(store).wf(),
        node_wf(n@),
    ensures
        final(store).wf(),
        r@ == node_fp(n@),
        is_fingerprint(r@),
        final(store)@.contains_key(node_fp(n@)),
        final(store)@[node_fp(n@)] == deflate_of(node_payload(n@)),
        inflate_of(deflate_of(node_payload(n@))) == Some(node_payload(n@)),
    decreases node_height(*n),
{
    match n {
        FsNode::File { executable, data } => {
            let payload = encode_blob(data);
            proof {
                assert(n@ == NodeV::File { executable: *executable, data: data@ });
            }
            write_object(store, &payload)
        },
        FsNode::Dir { children } => {
            let ghost cs = children_view(children@);
            proof {
                assert(n@ == NodeV::Dir { children: cs });
                lemma_children_view(children@);
                lemma_child_entries(cs);
            }
            let mut entries: Vec<TreeEntry> = Vec::new();
            let mut i: usize = 0;
            proof {
                assert(entries_view(entries@) =~= child_entries(cs).subrange(0, 0));
                assert(node_height(*n) == 1 + children_height(children@));
            }
            while i < children.len()
                invariant
                    0 <= i <= children@.len(),
                    store.wf(),
                    node_wf(n@),
                    node_height(*n) == 1 + children_height(children@),
                    n@ == (NodeV::Dir { children: cs }),
                    cs == children_view(children@),
                    cs.len() == children@.len(),
                    child_entries(cs).len() == cs.len(),
                    forall|j: int|
                        0 <= j < cs.len() ==> #[trigger] cs[j] == (
                            children@[j].0@,
                            node_view(children@[j].1),
                        ),
                    forall|j: int|
                        0 <= j < cs.len() ==> #[trigger] child_entries(cs)[j] == (TreeEntryV {
                            mode: child_mode(cs[j].1),
                            name: cs[j].0,
                            hash: sha1_of(node_payload(cs[j].1)),
                        }),
                    entries_view(entries@) =~= child_entries(cs).subrange(0, i as int),
                decreases children@.len() - i,
            {
                let child = &children[i].1;
                proof {
                    let dv = NodeV::Dir { children: cs };
                    assert(node_wf(dv));
                    assert(dv is Dir);
                    assert(dv->Dir_children == cs);
                    assert(forall|j: int|
                        0 <= j < cs.len() ==> node_wf((#[trigger] cs[j]).1));
                    assert(node_wf(cs[i as int].1));
                    assert(node_view(*child) == cs[i as int].1);
                    assert(node_height(*n) == 1 + children_height(children@));
                    lemma_children_height(children@, i as int);
                    assert(node_height(children@[i as int].1) < node_height(*n));
                }
                let child_fp = build_node(store, child);
                let mode = mode_of_child(child);
                proof {
                    assert(mode@ == child_mode(cs[i as int].1));
                }
                let name = crate::canon::copy_bytes(&children[i].0);
                let entry_result = build_tree_entry(mode, name, child_fp.as_str());
                let entry = match entry_result {
                    Ok(e) => e,
                    Err(_) => {
                        proof {
                            assert(false);
                        }
                        return child_fp;
                    },
                };
                proof {
                    let p = node_payload(cs[i as int].1);
                    lemma_hex_of_roundtrip(sha1_of(p));
                    assert(entry@.hash == sha1_of(p));
                    assert(entry@ =~= child_entries(cs)[i as int]);
                    assert(entries_view(entries@.push(entry)) =~= entries_view(entries@).push(
                        entry@,
                    ));
                    assert(child_entries(cs).subrange(0, i as int).push(entry@)
                        =~= child_entries(cs).subrange(0, i as int + 1));
                }
                entries.push(entry);
                i += 1;
            }
            proof {
                assert(child_entries(cs).subrange(0, cs.len() as int) =~= child_entries(cs));
                assert(entries_view(entries@) =~= child_entries(cs));
            }
            let ghost pre = store@;
            let hash = write_tree_object(store, &entries);
            proof {
                let s = choose|s: Seq<TreeEntryV>|
                    {
                        &&& entries_sorted(s)
                        &&& s.to_multiset() == entries_view(entries@).to_multiset()
                        &&& hash@ == fp_chars_of(tree_payload_of(s))
                        &&& store@ == crate::store::store_after(pre, tree_payload_of(s))
                        &&& inflate_of(deflate_of(tree_payload_of(s))) == Some(
                            tree_payload_of(s),
                        )
                    };
                let sorted = sorted_entries_of(child_entries(cs));
                lemma_sorted_entries_of(child_entries(cs));
                assert(unique_names(child_entries(cs))) by {
                    assert(forall|a: int, b: int|
                        0 <= a < b < cs.len() ==> (#[trigger] cs[a]).0 != (#[trigger] cs[b]).0);
                }
                crate::canon::lemma_unique_names_permutation(child_entries(cs), s);
                crate::canon::lemma_sorted_entries_unique(s, sorted);
                assert(tree_payload_of(s) == node_payload(n@));
            }
            hash
        },
    }
}


/// A list already sorted by name, with no duplicate names, is its own
/// sorted arrangement.
pub proof fn lemma_sorted_identity(s: Seq<TreeEntryV>)
    requires
        entries_sorted(s),
        unique_names(s),
    ensures
        sorted_entries_of(s) == s,
{
    lemma_sorted_entries_of(s);
    crate::canon::lemma_unique_names_permutation(s, sorted_entries_of(s));
    crate::canon::lemma_sorted_entries_unique(sorted_entries_of(s), s);
}

/// Round trip across builder and materializer for one directory level
/// of a snapshot: a canonical directory's object payload is the tree
/// payload over its children's entries in order, and its body decodes
/// back to exactly those entries — each child's mode, name and
/// fingerprint unchanged.
pub proof fn lemma_node_level_roundtrip(children: Seq<(Seq<u8>, NodeV)>)
    requires
        forall|i: int| 0 <= i < children.len() ==> token_wf((#[trigger] children[i]).0),
        forall|i: int, j: int|
            0 <= i < j < children.len() ==> (#[trigger] children[i]).0 != (
            #[trigger] children[j]).0,
        forall|i: int, j: int|
            0 <= i < j < children.len() ==> lex_leq(
                (#[trigger] children[i]).0,
                (#[trigger] children[j]).0,
            ),
        forall|i: int|
            0 <= i < children.len() ==> sha1_of(
                node_payload((#[trigger] children[i]).1),
            ).len() == 20,
    ensures
        node_payload(NodeV::Dir { children }) == tree_payload_of(child_entries(children)),
        parse_tree_body(tree_body_of(child_entries(children))) == Some(child_entries(children)),
{
    lemma_child_entries(children);
    let es = child_entries(children);
    assert(token_wf(spec_mode_dir())) by {
        assert(forall|i: int|
            0 <= i < spec_mode_dir().len() ==> !is_ws(#[trigger] spec_mode_dir()[i])
                && spec_mode_dir()[i] != 0);
    }
    assert(token_wf(spec_mode_file())) by {
        assert(forall|i: int|
            0 <= i < spec_mode_file().len() ==> !is_ws(#[trigger] spec_mode_file()[i])
                && spec_mode_file()[i] != 0);
    }
    assert(token_wf(spec_mode_exec())) by {
        assert(forall|i: int|
            0 <= i < spec_mode_exec().len() ==> !is_ws(#[trigger] spec_mode_exec()[i])
                && spec_mode_exec()[i] != 0);
    }
    assert forall|i: int| 0 <= i < es.len() implies entry_wf(#[trigger] es[i]) by {
        assert(es[i].mode == child_mode(children[i].1));
        assert(es[i].name == children[i].0);
    }
    assert(entries_sorted(es));
    assert(unique_names(es));
    lemma_sorted_identity(es);
    lemma_tree_roundtrip(es);
}

} // verus!
