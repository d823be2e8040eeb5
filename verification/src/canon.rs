//! Canonical ordering of tree entries: byte-wise comparison of names,
//! a verified sort, and the proof that the canonical encoding does not
//! depend on the order in which entries were presented.

use vstd::prelude::*;

use crate::codec::{
    encode_tree, entries_sorted, entries_view, lex_leq, tree_payload_of, TreeEntry, TreeEntryV,
};

verus! {

/// Byte-wise order is connected: one of the two directions holds.
pub proof fn lemma_lex_connected(x: Seq<u8>, y: Seq<u8>)
    ensures
        lex_leq(x, y) || lex_leq(y, x),
    decreases x.len(),
{
    if x.len() == 0 || y.len() == 0 {
    } else if x.first() == y.first() {
        lemma_lex_connected(x.drop_first(), y.drop_first());
    }
}

/// Byte-wise order is antisymmetric: names ordered both ways are equal.
pub proof fn lemma_lex_antisym(x: Seq<u8>, y: Seq<u8>)
    requires
        lex_leq(x, y),
        lex_leq(y, x),
    ensures
        x =~= y,
    decreases x.len(),
{
    if x.len() == 0 {
        assert(y.len() == 0);
    } else {
        assert(y.len() > 0);
        assert(x.first() == y.first());
        let xr = x.drop_first();
        let yr = y.drop_first();
        lemma_lex_antisym(xr, yr);
        assert(x.len() == y.len());
        assert forall|k: int| 0 <= k < x.len() implies x[k] == y[k] by {
            if k > 0 {
                assert(x[k] == xr[k - 1]);
                assert(y[k] == yr[k - 1]);
            } else {
                assert(x[0] == x.first());
            }
        }
        assert(x =~= y);
    }
}

/// Byte-wise order is transitive.
pub proof fn lemma_lex_trans(x: Seq<u8>, y: Seq<u8>, z: Seq<u8>)
    requires
        lex_leq(x, y),
        lex_leq(y, z),
    ensures
        lex_leq(x, z),
    decreases x.len(),
{
    if x.len() == 0 {
    } else {
        assert(y.len() > 0);
        assert(z.len() > 0);
        if x.first() == y.first() && y.first() == z.first() {
            lemma_lex_trans(x.drop_first(), y.drop_first(), z.drop_first());
        }
    }
}

/// Equal prefixes do not affect the comparison of what follows them.
proof fn lemma_lex_skip(x: Seq<u8>, y: Seq<u8>, i: int)
    requires
        0 <= i <= x.len(),
        i <= y.len(),
        forall|j: int| 0 <= j < i ==> x[j] == y[j],
    ensures
        lex_leq(x, y) == lex_leq(x.skip(i), y.skip(i)),
    decreases i,
{
    if i == 0 {
        assert(x.skip(0) =~= x);
        assert(y.skip(0) =~= y);
    } else {
        assert(x.first() == y.first());
        assert(forall|j: int| 0 <= j < i - 1 ==> x.drop_first()[j] == y.drop_first()[j]);
        lemma_lex_skip(x.drop_first(), y.drop_first(), i - 1);
        assert(x.drop_first().skip(i - 1) =~= x.skip(i));
        assert(y.drop_first().skip(i - 1) =~= y.skip(i));
    }
}

/// Compares two names byte-wise, deciding `lex_leq`.
pub fn name_lex_leq(a: &Vec<u8>, b: &Vec<u8>) -> (r: bool)
    ensures
        r == lex_leq(a@, b@),
{
    let mut i: usize = 0;
    loop
        invariant
            i <= a@.len(),
            i <= b@.len(),
            forall|j: int| 0 <= j < i ==> a@[j] == b@[j],
        decreases a@.len() - i,
    {
        proof {
            lemma_lex_skip(a@, b@, i as int);
        }
        if i >= a.len() {
            proof {
                assert(a@.skip(i as int).len() == 0);
            }
            return true;
        }
        if i >= b.len() {
            proof {
                assert(b@.skip(i as int).len() == 0);
                assert(a@.skip(i as int).len() > 0);
            }
            return false;
        }
        let x = a[i];
        let y = b[i];
        proof {
            assert(a@.skip(i as int).first() == a@[i as int]);
            assert(b@.skip(i as int).first() == b@[i as int]);
        }
        if x < y {
            return true;
        }
        if x > y {
            return false;
        }
        i += 1;
    }
}

/// Inserts an entry into a name-sorted list, keeping it sorted.
#[verifier::rlimit(50)]
fn insert_sorted(out: &mut Vec<TreeEntry>, e: TreeEntry)
    requires
        entries_sorted(entries_view(old(out)@)),
    ensures
        entries_sorted(entries_view(final(out)@)),
        entries_view(final(out)@).to_multiset() == entries_view(old(out)@).to_multiset().insert(
            e@,
        ),
{
    let ghost v0 = entries_view(out@);
    let mut k: usize = 0;
    loop
        invariant
            k <= out@.len(),
            out@ == old(out)@,
            forall|j: int| 0 <= j < k ==> lex_leq(#[trigger] entries_view(out@)[j].name, e@.name),
        ensures
            k <= out@.len(),
            out@ == old(out)@,
            forall|j: int| 0 <= j < k ==> lex_leq(#[trigger] entries_view(out@)[j].name, e@.name),
            k < out@.len() ==> !lex_leq(entries_view(out@)[k as int].name, e@.name),
        decreases out@.len() - k,
    {
        if k >= out.len() {
            break;
        }
        if !name_lex_leq(&out[k].name, &e.name) {
            proof {
                assert(entries_view(out@)[k as int] == out@[k as int]@);
            }
            break;
        }
        proof {
            assert(entries_view(out@)[k as int] == out@[k as int]@);
        }
        k += 1;
    }
    proof {
        if k < out@.len() {
            assert(entries_view(out@)[k as int] == out@[k as int]@);
            lemma_lex_connected(out@[k as int]@.name, e@.name);
        }
    }
    let ghost kk = k as int;
    out.insert(k, e);
    proof {
        let v1 = entries_view(out@);
        assert(v1 =~= v0.insert(kk, e@));
        // Sortedness of the extended list.
        assert forall|i: int, j: int| 0 <= i < j < v1.len() implies lex_leq(
            #[trigger] v1[i].name,
            #[trigger] v1[j].name,
        ) by {
            if j < kk {
                assert(v1[i] == v0[i] && v1[j] == v0[j]);
            } else if j == kk {
                assert(v1[i] == v0[i]);
                assert(lex_leq(v0[i].name, e@.name));
            } else if i < kk {
                assert(v1[i] == v0[i] && v1[j] == v0[j - 1]);
                if i == j - 1 {
                    assert(false);
                }
            } else if i == kk {
                assert(v1[j] == v0[j - 1]);
                assert(kk <= j - 1 < v0.len());
                assert(lex_leq(e@.name, v0[kk].name));
                if j - 1 > kk {
                    assert(lex_leq(v0[kk].name, v0[j - 1].name));
                    lemma_lex_trans(e@.name, v0[kk].name, v0[j - 1].name);
                }
            } else {
                assert(v1[i] == v0[i - 1] && v1[j] == v0[j - 1]);
            }
        }
        // Multiset content of the extended list.
        vstd::seq_lib::to_multiset_insert(v0, kk, e@);
    }
}

/// Copies a byte vector.
pub(crate) fn copy_bytes(src: &Vec<u8>) -> (r: Vec<u8>)
    ensures
        r@ == src@,
{
    let mut out: Vec<u8> = Vec::new();
    let mut i: usize = 0;
    while i < src.len()
        invariant
            0 <= i <= src@.len(),
            out@ =~= src@.subrange(0, i as int),
        decreases src@.len() - i,
    {
        out.push(src[i]);
        i += 1;
    }
    proof {
        assert(src@.subrange(0, src@.len() as int) =~= src@);
    }
    out
}

/// Sorts entries by ascending byte-wise comparison of their names. The
/// result holds exactly the entries given, as a multiset.
pub fn sort_entries(entries: &Vec<TreeEntry>) -> (r: Vec<TreeEntry>)
    ensures
        entries_sorted(entries_view(r@)),
        entries_view(r@).to_multiset() == entries_view(entries@).to_multiset(),
{
    let mut out: Vec<TreeEntry> = Vec::new();
    let mut i: usize = 0;
    proof {
        assert(entries_view(out@) =~= entries_view(entries@.subrange(0, 0)));
    }
    while i < entries.len()
        invariant
            0 <= i <= entries@.len(),
            entries_sorted(entries_view(out@)),
            entries_view(out@).to_multiset() == entries_view(
                entries@.subrange(0, i as int),
            ).to_multiset(),
        decreases entries@.len() - i,
    {
        let e = &entries[i];
        let copy = TreeEntry {
            mode: copy_bytes(&e.mode),
            name: copy_bytes(&e.name),
            hash: copy_bytes(&e.hash),
        };
        proof {
            assert(copy@ =~= entries@[i as int]@);
            let pre = entries_view(entries@.subrange(0, i as int));
            let pre1 = entries_view(entries@.subrange(0, i as int + 1));
            assert(pre1 =~= pre.push(entries@[i as int]@));
            vstd::seq_lib::to_multiset_build(pre, entries@[i as int]@);
        }
        insert_sorted(&mut out, copy);
        i += 1;
    }
    proof {
        assert(entries@.subrange(0, entries@.len() as int) =~= entries@);
    }
    out
}

/// No two entries share a name.
pub open spec fn unique_names(s: Seq<TreeEntryV>) -> bool {
    forall|i: int, j: int| 0 <= i < j < s.len() ==> (#[trigger] s[i].name) != (#[trigger] s[j].name)
}

/// Two name-sorted entry lists holding the same entries, with no
/// duplicate names, are identical.
pub proof fn lemma_sorted_entries_unique(x: Seq<TreeEntryV>, y: Seq<TreeEntryV>)
    requires
        entries_sorted(x),
        entries_sorted(y),
        unique_names(x),
        x.to_multiset() == y.to_multiset(),
    ensures
        x == y,
    decreases x.len(),
{
    broadcast use vstd::multiset::group_multiset_axioms;
    broadcast use vstd::seq_lib::group_to_multiset_ensures;

    if x.len() == 0 {
        assert(y.to_multiset().len() == 0);
        assert(x =~= y);
    } else {
        assert(y.to_multiset().len() == x.len());
        assert(y.len() == x.len());
        assert(x.contains(x[0]));
        vstd::seq_lib::to_multiset_contains(x, x[0]);
        vstd::seq_lib::to_multiset_contains(y, x[0]);
        assert(y.contains(x[0]));
        let j = choose|j: int| 0 <= j < y.len() && y[j] == x[0];
        assert(y.contains(y[0]));
        vstd::seq_lib::to_multiset_contains(y, y[0]);
        vstd::seq_lib::to_multiset_contains(x, y[0]);
        assert(x.contains(y[0]));
        let i = choose|i: int| 0 <= i < x.len() && x[i] == y[0];
        // The two heads carry the least name on both sides.
        if i == 0 {
            assert(x[0] == y[0]);
        } else if j == 0 {
            assert(x[0] == y[0]);
        } else {
            assert(lex_leq(x[0].name, x[i].name));
            assert(lex_leq(y[0].name, y[j].name));
            lemma_lex_antisym(x[0].name, y[0].name);
            assert(x[i].name == x[0].name);
            assert(false);
        }
        assert(x[0] == y[0]);
        let xr = x.drop_first();
        let yr = y.drop_first();
        assert(xr.to_multiset() =~= x.to_multiset().remove(x[0])) by {
            assert(x.remove(0) =~= xr);
            vstd::seq_lib::to_multiset_remove(x, 0);
        }
        assert(yr.to_multiset() =~= y.to_multiset().remove(y[0])) by {
            assert(y.remove(0) =~= yr);
            vstd::seq_lib::to_multiset_remove(y, 0);
        }
        assert(entries_sorted(xr)) by {
            assert(forall|a: int| 0 <= a < xr.len() ==> xr[a] == x[a + 1]);
        }
        assert(entries_sorted(yr)) by {
            assert(forall|a: int| 0 <= a < yr.len() ==> yr[a] == y[a + 1]);
        }
        assert(unique_names(xr)) by {
            assert(forall|a: int| 0 <= a < xr.len() ==> xr[a] == x[a + 1]);
        }
        lemma_sorted_entries_unique(xr, yr);
        assert forall|k: int| 0 <= k < x.len() implies x[k] == y[k] by {
            if k > 0 {
                assert(x[k] == xr[k - 1]);
                assert(y[k] == yr[k - 1]);
            }
        }
        assert(x =~= y);
    }
}

/// Uniqueness of names carries across any reordering of the entries.
pub proof fn lemma_unique_names_permutation(x: Seq<TreeEntryV>, y: Seq<TreeEntryV>)
    requires
        x.to_multiset() == y.to_multiset(),
        unique_names(x),
    ensures
        unique_names(y),
{
    broadcast use vstd::multiset::group_multiset_axioms;
    broadcast use vstd::seq_lib::group_to_multiset_ensures;

    assert forall|i: int, j: int| 0 <= i < j < y.len() implies (#[trigger] y[i].name)
        != (#[trigger] y[j].name) by {
        if y[i].name == y[j].name {
            if y[i] == y[j] {
                // The same entry occurs twice in y, hence twice in x.
                let e = y[i];
                assert(y.remove(i).to_multiset() == y.to_multiset().remove(e)) by {
                    vstd::seq_lib::to_multiset_remove(y, i);
                }
                assert(y.remove(i)[j - 1] == e);
                assert(y.remove(i).contains(e));
                vstd::seq_lib::to_multiset_contains(y.remove(i), e);
                assert(y.to_multiset().remove(e).contains(e));
                assert(x.to_multiset().count(e) >= 2);
                vstd::seq_lib::to_multiset_contains(x, e);
                assert(x.contains(e));
                let a = choose|a: int| 0 <= a < x.len() && x[a] == e;
                assert(x.remove(a).to_multiset() == x.to_multiset().remove(e)) by {
                    vstd::seq_lib::to_multiset_remove(x, a);
                }
                assert(x.remove(a).to_multiset().contains(e));
                vstd::seq_lib::to_multiset_contains(x.remove(a), e);
                assert(x.remove(a).contains(e));
                let b = choose|b: int| 0 <= b < x.remove(a).len() && x.remove(a)[b] == e;
                if b < a {
                    assert(x[b] == e);
                    assert(x[b].name == x[a].name);
                } else {
                    assert(x[b + 1] == e);
                    assert(x[a].name == x[b + 1].name);
                }
            } else {
                // Two distinct entries of y sharing a name both occur in x.
                let e1 = y[i];
                let e2 = y[j];
                assert(y.contains(e1) && y.contains(e2));
                vstd::seq_lib::to_multiset_contains(y, e1);
                vstd::seq_lib::to_multiset_contains(y, e2);
                vstd::seq_lib::to_multiset_contains(x, e1);
                vstd::seq_lib::to_multiset_contains(x, e2);
                assert(x.contains(e1) && x.contains(e2));
                let a = choose|a: int| 0 <= a < x.len() && x[a] == e1;
                let b = choose|b: int| 0 <= b < x.len() && x[b] == e2;
                assert(a != b);
                assert(x[a].name == x[b].name);
            }
        }
    }
}

/// Ordering invariant: the canonical tree payloads built from two
/// presentations of the same entries (equal as multisets, names unique)
/// are byte-identical, whatever order each presentation used.
pub proof fn lemma_tree_encoding_order_independent(
    a: Seq<TreeEntryV>,
    b: Seq<TreeEntryV>,
    sa: Seq<TreeEntryV>,
    sb: Seq<TreeEntryV>,
)
    requires
        a.to_multiset() == b.to_multiset(),
        unique_names(a),
        entries_sorted(sa),
        sa.to_multiset() == a.to_multiset(),
        entries_sorted(sb),
        sb.to_multiset() == b.to_multiset(),
    ensures
        tree_payload_of(sa) == tree_payload_of(sb),
{
    lemma_unique_names_permutation(a, sa);
    lemma_sorted_entries_unique(sa, sb);
}

/// Sorts a directory's entries by name and encodes them as a tree
/// object payload: the canonical encoding, independent of the order in
/// which the entries were collected.
pub fn canonical_tree_payload(entries: &Vec<TreeEntry>) -> (r: Vec<u8>)
    ensures
        exists|s: Seq<TreeEntryV>|
            entries_sorted(s) && s.to_multiset() == entries_view(entries@).to_multiset() && r@
                == tree_payload_of(s),
{
    let ghost orig = entries_view(entries@);
    let sorted = sort_entries(entries);
    let r = encode_tree(&sorted);
    proof {
        let s = entries_view(sorted@);
        assert(entries_sorted(s) && s.to_multiset() == orig.to_multiset() && r@
            == tree_payload_of(s));
    }
    r
}

} // verus!
