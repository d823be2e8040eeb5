//! The object codec: canonical byte payloads for the three object kinds
//! (content blob, directory tree, commit), and the tree entry
//! encoder/decoder.
//!
//! An object payload is `<kind> SP <decimal body length> NUL <body>`.
//! A tree body is a concatenation of entries, each
//! `<mode> SP <name> NUL <20 raw fingerprint bytes>`, ordered by
//! ascending byte-wise comparison of the names.

use vstd::prelude::*;

use crate::digest::{fingerprint, fp_chars_of};
use crate::errors::GitError;

verus! {

/// Decimal digit bytes of `n`, most significant first, no leading
/// zeros (a single `0` digit for zero).
pub open spec fn dec_digits(n: nat) -> Seq<u8>
    decreases n,
{
    if n < 10 {
        seq![(n + 48) as u8]
    } else {
        dec_digits(n / 10).push((n % 10 + 48) as u8)
    }
}

/// The byte tag of a content blob: `blob`.
pub open spec fn spec_blob_kind() -> Seq<u8> {
    seq![98u8, 108u8, 111u8, 98u8]
}

/// The byte tag of a directory tree: `tree`.
pub open spec fn spec_tree_kind() -> Seq<u8> {
    seq![116u8, 114u8, 101u8, 101u8]
}

/// The byte tag of a commit: `commit`.
pub open spec fn spec_commit_kind() -> Seq<u8> {
    seq![99u8, 111u8, 109u8, 109u8, 105u8, 116u8]
}

/// The payload header: kind tag, space, decimal body length, NUL.
pub open spec fn header_of(kind: Seq<u8>, len: nat) -> Seq<u8> {
    kind + seq![32u8] + dec_digits(len) + seq![0u8]
}

/// A full object payload: header followed by the body bytes.
pub open spec fn payload_of(kind: Seq<u8>, body: Seq<u8>) -> Seq<u8> {
    header_of(kind, body.len()) + body
}

/// The canonical payload of a content blob.
pub open spec fn blob_payload_of(data: Seq<u8>) -> Seq<u8> {
    payload_of(spec_blob_kind(), data)
}

/// Appends every byte of `src` to `out`.
fn push_bytes(out: &mut Vec<u8>, src: &Vec<u8>)
    ensures
        final(out)@ == old(out)@ + src@,
{
    let mut i: usize = 0;
    while i < src.len()
        invariant
            0 <= i <= src@.len(),
            out@ =~= old(out)@ + src@.subrange(0, i as int),
        decreases src@.len() - i,
    {
        out.push(src[i]);
        i += 1;
    }
    proof {
        assert(src@.subrange(0, src@.len() as int) =~= src@);
        assert(out@ =~= old(out)@ + src@);
    }
}

/// Renders `n` in decimal, most significant digit first.
fn u64_to_dec(n: u64) -> (r: Vec<u8>)
    ensures
        r@ == dec_digits(n as nat),
{
    let mut rev: Vec<u8> = Vec::new();
    let mut m: u64 = n;
    rev.push((m % 10) as u8 + 48);
    m = m / 10;
    while m > 0
        invariant
            rev@.len() > 0,
            m > 0 ==> dec_digits(n as nat) =~= dec_digits(m as nat) + rev@.reverse(),
            m == 0 ==> dec_digits(n as nat) =~= rev@.reverse(),
        decreases m,
    {
        let d: u8 = (m % 10) as u8 + 48;
        proof {
            assert(rev@.push(d).reverse() =~= seq![d] + rev@.reverse());
            if m >= 10 {
                assert(dec_digits(m as nat) == dec_digits(m as nat / 10).push(
                    (m as nat % 10 + 48) as u8,
                ));
                assert(dec_digits(m as nat / 10) + (seq![d] + rev@.reverse()) =~= dec_digits(
                    m as nat,
                ) + rev@.reverse());
            } else {
                assert(dec_digits(m as nat) =~= seq![d]);
                assert(seq![d] + rev@.reverse() =~= dec_digits(m as nat) + rev@.reverse());
            }
        }
        rev.push(d);
        m = m / 10;
    }
    let mut out: Vec<u8> = Vec::new();
    let mut i: usize = rev.len();
    while i > 0
        invariant
            0 <= i <= rev@.len(),
            out@ =~= rev@.subrange(i as int, rev@.len() as int).reverse(),
            dec_digits(n as nat) =~= rev@.reverse(),
        decreases i,
    {
        i -= 1;
        proof {
            assert(rev@.subrange(i as int, rev@.len() as int).reverse() =~= out@.push(
                rev@[i as int],
            ));
        }
        out.push(rev[i]);
    }
    proof {
        assert(rev@.subrange(0, rev@.len() as int) =~= rev@);
        assert(out@ =~= dec_digits(n as nat));
    }
    out
}

/// Builds the payload of an object of the given kind around a body.
pub(crate) fn encode_object(kind: &Vec<u8>, body: &Vec<u8>) -> (r: Vec<u8>)
    ensures
        r@ == payload_of(kind@, body@),
{
    let mut out: Vec<u8> = Vec::new();
    push_bytes(&mut out, kind);
    out.push(32);
    let len_digits = u64_to_dec(body.len() as u64);
    push_bytes(&mut out, &len_digits);
    out.push(0);
    push_bytes(&mut out, body);
    proof {
        assert(out@ =~= payload_of(kind@, body@));
    }
    out
}

/// Encodes a file's raw contents as a blob payload:
/// `blob SP <length> NUL <data>`.
pub fn encode_blob(data: &Vec<u8>) -> (r: Vec<u8>)
    ensures
        r@ == blob_payload_of(data@),
{
    let kind: Vec<u8> = vec![98, 108, 111, 98];
    proof {
        assert(kind@ =~= spec_blob_kind());
    }
    encode_object(&kind, data)
}

/// Builds the blob payload for a file's contents together with its
/// fingerprint. The original reads the file itself; here the caller
/// supplies the bytes.
pub fn hash_blob(data: &Vec<u8>) -> (r: (Vec<u8>, String))
    ensures
        r.0@ == blob_payload_of(data@),
        r.1@ == fp_chars_of(blob_payload_of(data@)),
{
    let payload = encode_blob(data);
    let hash = fingerprint(&payload);
    (payload, hash)
}

/// One directory entry of a tree object: a mode token, a file or
/// directory name, and the raw 20-byte fingerprint of the entry's
/// object.
pub struct TreeEntry {
    pub mode: Vec<u8>,
    pub name: Vec<u8>,
    pub hash: Vec<u8>,
}

/// The mathematical value of a tree entry.
#[verifier::ext_equal]
pub ghost struct TreeEntryV {
    pub mode: Seq<u8>,
    pub name: Seq<u8>,
    pub hash: Seq<u8>,
}

impl View for TreeEntry {
    type V = TreeEntryV;

    open spec fn view(&self) -> TreeEntryV {
        TreeEntryV { mode: self.mode@, name: self.name@, hash: self.hash@ }
    }
}

/// The values of a sequence of tree entries.
pub open spec fn entries_view(s: Seq<TreeEntry>) -> Seq<TreeEntryV> {
    s.map_values(|e: TreeEntry| e@)
}

/// An ASCII whitespace byte, as used to separate the two tokens of an
/// entry header.
pub open spec fn is_ws(b: u8) -> bool {
    b == 9 || b == 10 || b == 12 || b == 13 || b == 32
}

/// A well-formed header token: non-empty, with no whitespace and no NUL
/// byte, so that the token survives an encode/decode round trip.
pub open spec fn token_wf(t: Seq<u8>) -> bool {
    t.len() > 0 && (forall|i: int| 0 <= i < t.len() ==> !is_ws(#[trigger] t[i]) && t[i] != 0)
}

/// A well-formed tree entry: both header tokens well formed, and a raw
/// fingerprint of exactly 20 bytes.
pub open spec fn entry_wf(e: TreeEntryV) -> bool {
    token_wf(e.mode) && token_wf(e.name) && e.hash.len() == 20
}

/// The byte encoding of one tree entry.
pub open spec fn entry_bytes(e: TreeEntryV) -> Seq<u8> {
    e.mode + seq![32u8] + e.name + seq![0u8] + e.hash
}

/// The body of a tree object: the concatenated entry encodings.
pub open spec fn tree_body_of(es: Seq<TreeEntryV>) -> Seq<u8>
    decreases es.len(),
{
    if es.len() == 0 {
        Seq::empty()
    } else {
        entry_bytes(es.first()) + tree_body_of(es.drop_first())
    }
}

/// The full payload of a tree object.
pub open spec fn tree_payload_of(es: Seq<TreeEntryV>) -> Seq<u8> {
    payload_of(spec_tree_kind(), tree_body_of(es))
}

/// Appending an entry to a list extends the tree body by that entry's
/// encoding.
pub proof fn lemma_tree_body_push(es: Seq<TreeEntryV>, e: TreeEntryV)
    ensures
        tree_body_of(es.push(e)) =~= tree_body_of(es) + entry_bytes(e),
    decreases es.len(),
{
    if es.len() == 0 {
        assert(es.push(e).drop_first() =~= Seq::<TreeEntryV>::empty());
        assert(es.push(e).first() == e);
        assert(tree_body_of(es.push(e)) == entry_bytes(e) + tree_body_of(
            Seq::<TreeEntryV>::empty(),
        ));
        assert(entry_bytes(e) + Seq::<u8>::empty() =~= entry_bytes(e));
    } else {
        assert(es.push(e).drop_first() =~= es.drop_first().push(e));
        assert(es.push(e).first() == es.first());
        lemma_tree_body_push(es.drop_first(), e);
    }
}

/// Encodes one tree entry onto the end of `out`.
fn push_entry(out: &mut Vec<u8>, e: &TreeEntry)
    ensures
        final(out)@ == old(out)@ + entry_bytes(e@),
{
    push_bytes(out, &e.mode);
    out.push(32);
    push_bytes(out, &e.name);
    out.push(0);
    push_bytes(out, &e.hash);
    proof {
        assert(out@ =~= old(out)@ + entry_bytes(e@));
    }
}

/// Encodes a directory's entries as a full tree object payload:
/// `tree SP <length> NUL <entries>`. The entries must already be sorted
/// by ascending byte-wise comparison of their names.
pub fn encode_tree(entries: &Vec<TreeEntry>) -> (r: Vec<u8>)
    requires
        entries_sorted(entries_view(entries@)),
    ensures
        r@ == tree_payload_of(entries_view(entries@)),
{
    let mut body: Vec<u8> = Vec::new();
    let mut i: usize = 0;
    while i < entries.len()
        invariant
            0 <= i <= entries@.len(),
            body@ =~= tree_body_of(entries_view(entries@).subrange(0, i as int)),
        decreases entries@.len() - i,
    {
        proof {
            let pre = entries_view(entries@).subrange(0, i as int);
            lemma_tree_body_push(pre, entries@[i as int]@);
            assert(pre.push(entries@[i as int]@) =~= entries_view(entries@).subrange(
                0,
                i as int + 1,
            ));
        }
        push_entry(&mut body, &entries[i]);
        i += 1;
    }
    proof {
        assert(entries_view(entries@).subrange(0, entries@.len() as int) =~= entries_view(
            entries@,
        ));
    }
    let kind: Vec<u8> = vec![116, 114, 101, 101];
    proof {
        assert(kind@ =~= spec_tree_kind());
    }
    encode_object(&kind, &body)
}

/// Byte-wise lexicographic order on names, the ordering of entries
/// within one tree object.
pub open spec fn lex_leq(x: Seq<u8>, y: Seq<u8>) -> bool
    decreases x.len(),
{
    if x.len() == 0 {
        true
    } else if y.len() == 0 {
        false
    } else if x.first() < y.first() {
        true
    } else if x.first() > y.first() {
        false
    } else {
        lex_leq(x.drop_first(), y.drop_first())
    }
}

/// Entries ordered by ascending byte-wise comparison of their names.
pub open spec fn entries_sorted(s: Seq<TreeEntryV>) -> bool {
    forall|i: int, j: int| 0 <= i < j < s.len() ==> lex_leq(#[trigger] s[i].name, #[trigger] s[j].name)
}

/// Index of the first NUL byte, if any.
pub open spec fn first_nul(d: Seq<u8>) -> Option<nat>
    decreases d.len(),
{
    if d.len() == 0 {
        None
    } else if d.first() == 0 {
        Some(0)
    } else {
        match first_nul(d.drop_first()) {
            None => None,
            Some(i) => Some(i + 1),
        }
    }
}

/// What `first_nul` returns: the position of a NUL byte with none
/// before it, or `None` when there is no NUL byte at all.
pub proof fn lemma_first_nul(d: Seq<u8>)
    ensures
        match first_nul(d) {
            Some(i) => i < d.len() && d[i as int] == 0 && (forall|j: int| 0 <= j < i ==> d[j] != 0),
            None => forall|j: int| 0 <= j < d.len() ==> d[j] != 0,
        },
    decreases d.len(),
{
    if d.len() == 0 {
    } else if d.first() == 0 {
    } else {
        lemma_first_nul(d.drop_first());
        assert(forall|j: int| 0 < j < d.len() ==> d[j] == d.drop_first()[j - 1]);
    }
}

/// A NUL byte with none before it is exactly where `first_nul` points.
pub proof fn lemma_first_nul_at(d: Seq<u8>, i: int)
    requires
        0 <= i < d.len(),
        d[i] == 0,
        forall|j: int| 0 <= j < i ==> d[j] != 0,
    ensures
        first_nul(d) == Some(i as nat),
{
    lemma_first_nul(d);
    match first_nul(d) {
        None => {
            assert(d[i] != 0);
        },
        Some(k) => {
            if k < i {
                assert(d[k as int] != 0);
            } else if k > i {
                assert(d[i] != 0);
            }
        },
    }
}

/// Length of the leading run of non-whitespace bytes.
pub open spec fn run_len(s: Seq<u8>) -> nat
    decreases s.len(),
{
    if s.len() == 0 || is_ws(s.first()) {
        0
    } else {
        run_len(s.drop_first()) + 1
    }
}

/// What `run_len` returns: the longest prefix free of whitespace.
pub proof fn lemma_run_len(s: Seq<u8>)
    ensures
        run_len(s) <= s.len(),
        forall|j: int| 0 <= j < run_len(s) ==> !is_ws(#[trigger] s[j]),
        run_len(s) < s.len() ==> is_ws(s[run_len(s) as int]),
    decreases s.len(),
{
    if s.len() == 0 || is_ws(s.first()) {
    } else {
        lemma_run_len(s.drop_first());
        assert(forall|j: int| 0 < j < s.len() ==> s[j] == s.drop_first()[j - 1]);
    }
}

/// A boundary position bounding a whitespace-free prefix is exactly
/// where `run_len` points.
pub proof fn lemma_run_len_at(s: Seq<u8>, k: int)
    requires
        0 <= k <= s.len(),
        forall|j: int| 0 <= j < k ==> !is_ws(#[trigger] s[j]),
        k < s.len() ==> is_ws(s[k]),
    ensures
        run_len(s) == k,
{
    lemma_run_len(s);
    if run_len(s) < k {
        assert(!is_ws(s[run_len(s) as int]));
    } else if run_len(s) > k {
        assert(!is_ws(s[k]));
    }
}

/// The whitespace-separated tokens of a byte sequence.
pub open spec fn tokens_of(s: Seq<u8>) -> Seq<Seq<u8>>
    decreases s.len(),
{
    if s.len() == 0 {
        Seq::empty()
    } else if is_ws(s.first()) {
        tokens_of(s.drop_first())
    } else if run_len(s) <= s.len() {
        seq![s.take(run_len(s) as int)] + tokens_of(s.skip(run_len(s) as int))
    } else {
        // unreachable: the leading run never extends past the end
        Seq::empty()
    }
}

/// The result of parsing a tree body: `None` on malformed input, else
/// the decoded entries.
pub open spec fn parse_tree_body(d: Seq<u8>) -> Option<Seq<TreeEntryV>>
    decreases d.len(),
{
    if d.len() == 0 {
        Some(Seq::empty())
    } else {
        match first_nul(d) {
            None => None,
            Some(p) => {
                let toks = tokens_of(d.take(p as int));
                if toks.len() != 2 {
                    None
                } else if d.len() < p + 21 {
                    None
                } else {
                    let e = TreeEntryV {
                        mode: toks[0],
                        name: toks[1],
                        hash: d.subrange(p as int + 1, p as int + 21),
                    };
                    match parse_tree_body(d.skip(p as int + 21)) {
                        None => None,
                        Some(rest) => Some(seq![e] + rest),
                    }
                }
            },
        }
    }
}

/// The values of a sequence of byte vectors.
pub open spec fn tokens_view(s: Seq<Vec<u8>>) -> Seq<Seq<u8>> {
    s.map_values(|v: Vec<u8>| v@)
}

/// Whether a byte is ASCII whitespace.
fn is_ws_byte(b: u8) -> (r: bool)
    ensures
        r == is_ws(b),
{
    b == 9 || b == 10 || b == 12 || b == 13 || b == 32
}

/// Splits a header segment into its whitespace-separated tokens.
fn split_tokens(h: &Vec<u8>) -> (r: Vec<Vec<u8>>)
    ensures
        tokens_view(r@) == tokens_of(h@),
{
    let mut toks: Vec<Vec<u8>> = Vec::new();
    let mut i: usize = 0;
    proof {
        assert(h@.skip(0) =~= h@);
        assert(tokens_view(toks@) + tokens_of(h@) =~= tokens_of(h@));
    }
    while i < h.len()
        invariant
            0 <= i <= h@.len(),
            tokens_of(h@) =~= tokens_view(toks@) + tokens_of(h@.skip(i as int)),
        decreases h@.len() - i,
    {
        if is_ws_byte(h[i]) {
            proof {
                let rest = h@.skip(i as int);
                assert(rest.first() == h@[i as int]);
                assert(rest.drop_first() =~= h@.skip(i as int + 1));
            }
            i += 1;
        } else {
            let start = i;
            let mut tok: Vec<u8> = Vec::new();
            loop
                invariant
                    start <= i <= h@.len(),
                    tok@ =~= h@.subrange(start as int, i as int),
                    forall|j: int| start <= j < i ==> !is_ws(#[trigger] h@[j]),
                    i == start ==> !is_ws(h@[start as int]),
                    start < h@.len(),
                ensures
                    start < i <= h@.len(),
                    tok@ =~= h@.subrange(start as int, i as int),
                    forall|j: int| start <= j < i ==> !is_ws(#[trigger] h@[j]),
                    i == h@.len() || is_ws(h@[i as int]),
                decreases h@.len() - i,
            {
                if i >= h.len() {
                    break;
                }
                if is_ws_byte(h[i]) {
                    break;
                }
                proof {
                    assert(h@.subrange(start as int, i as int).push(h@[i as int]) =~= h@.subrange(
                        start as int,
                        i as int + 1,
                    ));
                }
                tok.push(h[i]);
                i += 1;
            }
            proof {
                let rest = h@.skip(start as int);
                let k = i - start;
                assert(forall|j: int| 0 <= j < k ==> rest[j] == h@[start + j]);
                if k < rest.len() {
                    assert(rest[k as int] == h@[i as int]);
                }
                lemma_run_len_at(rest, k as int);
                assert(!is_ws(rest.first()));
                assert(tokens_of(rest) == seq![rest.take(k as int)] + tokens_of(
                    rest.skip(k as int),
                ));
                assert(rest.take(k as int) =~= h@.subrange(start as int, i as int));
                assert(rest.skip(k as int) =~= h@.skip(i as int));
                assert(tokens_view(toks@.push(tok)) =~= tokens_view(toks@) + seq![tok@]);
                assert(tokens_view(toks@) + (seq![tok@] + tokens_of(h@.skip(i as int)))
                    =~= (tokens_view(toks@) + seq![tok@]) + tokens_of(h@.skip(i as int)));
            }
            toks.push(tok);
        }
    }
    proof {
        assert(h@.skip(h@.len() as int) =~= Seq::<u8>::empty());
        assert(tokens_view(toks@) + Seq::<Seq<u8>>::empty() =~= tokens_view(toks@));
    }
    toks
}

/// Prepends decoded entries to a parse result.
pub open spec fn opt_concat(pre: Seq<TreeEntryV>, rest: Option<Seq<TreeEntryV>>) -> Option<
    Seq<TreeEntryV>,
> {
    match rest {
        None => None,
        Some(t) => Some(pre + t),
    }
}

/// Decodes a tree object's body into its entries. Fails with
/// `MalformedTreeEntry` exactly when some header segment does not split
/// into two whitespace-separated tokens, when a header segment is not
/// terminated by a NUL byte, or when fewer than 20 bytes follow a
/// header for the fingerprint.
pub fn decode_tree(body: &Vec<u8>) -> (r: Result<Vec<TreeEntry>, GitError>)
    ensures
        match r {
            Ok(es) => parse_tree_body(body@) == Some(entries_view(es@)),
            Err(e) => e == GitError::MalformedTreeEntry && parse_tree_body(body@) is None,
        },
{
    let mut out: Vec<TreeEntry> = Vec::new();
    let mut offset: usize = 0;
    proof {
        assert(body@.skip(0) =~= body@);
        match parse_tree_body(body@) {
            None => {},
            Some(t) => {
                assert(entries_view(out@) + t =~= t);
            },
        }
    }
    while offset < body.len()
        invariant
            0 <= offset <= body@.len(),
            parse_tree_body(body@) == opt_concat(
                entries_view(out@),
                parse_tree_body(body@.skip(offset as int)),
            ),
        decreases body@.len() - offset,
    {
        let ghost d = body@.skip(offset as int);
        // Scan for the NUL byte terminating the entry header.
        let mut j: usize = offset;
        while j < body.len() && body[j] != 0
            invariant
                offset <= j <= body@.len(),
                forall|k: int| offset <= k < j ==> body@[k] != 0,
            decreases body@.len() - j,
        {
            j += 1;
        }
        proof {
            assert(forall|k: int| 0 <= k < j - offset ==> d[k] == body@[offset + k] && d[k] != 0);
        }
        if j == body.len() {
            proof {
                lemma_first_nul(d);
                if first_nul(d) is Some {
                    let p = first_nul(d)->Some_0;
                    assert(d[p as int] == 0);
                }
                assert(parse_tree_body(d) is None);
            }
            return Err(GitError::MalformedTreeEntry);
        }
        proof {
            assert(d[(j - offset) as int] == body@[j as int]);
            lemma_first_nul_at(d, j - offset);
        }
        let ghost p = (j - offset) as nat;
        // Collect and tokenize the header segment.
        let mut header: Vec<u8> = Vec::new();
        let mut k: usize = offset;
        while k < j
            invariant
                offset <= k <= j <= body@.len(),
                header@ =~= body@.subrange(offset as int, k as int),
            decreases j - k,
        {
            proof {
                assert(body@.subrange(offset as int, k as int).push(body@[k as int])
                    =~= body@.subrange(offset as int, k as int + 1));
            }
            header.push(body[k]);
            k += 1;
        }
        proof {
            assert(header@ =~= d.take(p as int));
        }
        let toks = split_tokens(&header);
        if toks.len() != 2 {
            proof {
                assert(tokens_of(d.take(p as int)).len() != 2);
                assert(parse_tree_body(d) is None);
            }
            return Err(GitError::MalformedTreeEntry);
        }
        if body.len() - j < 21 {
            proof {
                assert(d.len() < p + 21);
                assert(parse_tree_body(d) is None);
            }
            return Err(GitError::MalformedTreeEntry);
        }
        // The 20 raw fingerprint bytes follow the NUL.
        let mut hash: Vec<u8> = Vec::new();
        let end = j + 21;
        let mut t: usize = j + 1;
        while t < end
            invariant
                end == j + 21,
                j + 21 <= body@.len(),
                j + 1 <= t <= j + 21,
                hash@ =~= body@.subrange(j as int + 1, t as int),
            decreases j + 21 - t,
        {
            proof {
                assert(body@.subrange(j as int + 1, t as int).push(body@[t as int])
                    =~= body@.subrange(j as int + 1, t as int + 1));
            }
            hash.push(body[t]);
            t += 1;
        }
        let mut toks = toks;
        let name = toks.pop().unwrap();
        let mode = toks.pop().unwrap();
        let entry = TreeEntry { mode, name, hash };
        proof {
            let toks0 = tokens_of(d.take(p as int));
            assert(entry@.mode == toks0[0] && entry@.name == toks0[1]);
            assert(entry@.hash =~= d.subrange(p as int + 1, p as int + 21));
            let ev = TreeEntryV {
                mode: toks0[0],
                name: toks0[1],
                hash: d.subrange(p as int + 1, p as int + 21),
            };
            assert(entry@ =~= ev);
            let rest = d.skip(p as int + 21);
            assert(rest =~= body@.skip(j as int + 21));
            assert(parse_tree_body(d) == opt_concat(seq![ev], parse_tree_body(rest)));
            assert(entries_view(out@.push(entry)) =~= entries_view(out@) + seq![entry@]);
            match parse_tree_body(rest) {
                None => {},
                Some(tail) => {
                    assert(entries_view(out@) + (seq![ev] + tail) =~= (entries_view(out@)
                        + seq![ev]) + tail);
                },
            }
        }
        out.push(entry);
        offset = j + 21;
    }
    proof {
        assert(body@.skip(body@.len() as int) =~= Seq::<u8>::empty());
        assert(parse_tree_body(body@.skip(offset as int)) == Some(Seq::<TreeEntryV>::empty()));
        assert(entries_view(out@) + Seq::<TreeEntryV>::empty() =~= entries_view(out@));
    }
    Ok(out)
}

/// The two header tokens of an entry are recovered exactly by
/// whitespace tokenization.
proof fn lemma_tokens_pair(t1: Seq<u8>, t2: Seq<u8>)
    requires
        token_wf(t1),
        token_wf(t2),
    ensures
        tokens_of(t1 + seq![32u8] + t2) =~= seq![t1, t2],
{
    let s = t1 + seq![32u8] + t2;
    assert(forall|j: int| 0 <= j < t1.len() ==> s[j] == t1[j]);
    assert(s[t1.len() as int] == 32u8);
    lemma_run_len_at(s, t1.len() as int);
    assert(!is_ws(s.first()));
    assert(tokens_of(s) == seq![s.take(t1.len() as int)] + tokens_of(s.skip(t1.len() as int)));
    assert(s.take(t1.len() as int) =~= t1);
    let s2 = s.skip(t1.len() as int);
    assert(s2.first() == 32u8);
    assert(s2.drop_first() =~= t2);
    assert(tokens_of(s2) == tokens_of(t2));
    lemma_run_len_at(t2, t2.len() as int);
    assert(tokens_of(t2) == seq![t2.take(t2.len() as int)] + tokens_of(t2.skip(t2.len() as int)));
    assert(t2.take(t2.len() as int) =~= t2);
    assert(t2.skip(t2.len() as int) =~= Seq::<u8>::empty());
    assert(tokens_of(s) =~= seq![t1, t2]);
}

/// Round trip: decoding an encoded tree body reproduces the original
/// entry list, with modes, names and fingerprints unchanged, for every
/// list of well-formed entries.
pub proof fn lemma_tree_roundtrip(es: Seq<TreeEntryV>)
    requires
        forall|i: int| 0 <= i < es.len() ==> entry_wf(#[trigger] es[i]),
    ensures
        parse_tree_body(tree_body_of(es)) == Some(es),
    decreases es.len(),
{
    if es.len() == 0 {
        assert(Seq::<TreeEntryV>::empty() =~= es);
    } else {
        let e = es.first();
        assert(entry_wf(es[0]));
        let d = tree_body_of(es);
        let rest = tree_body_of(es.drop_first());
        assert(d == entry_bytes(e) + rest);
        let p = e.mode.len() + 1 + e.name.len();
        assert(entry_bytes(e).len() == p + 21);
        assert(d.len() >= p + 21);
        assert(d[p as int] == entry_bytes(e)[p as int]);
        assert(entry_bytes(e)[p as int] == 0);
        assert forall|j: int| 0 <= j < p implies d[j] != 0 by {
            assert(d[j] == entry_bytes(e)[j]);
            if j < e.mode.len() {
                assert(entry_bytes(e)[j] == e.mode[j]);
            } else if j == e.mode.len() {
                assert(entry_bytes(e)[j] == 32u8);
            } else {
                assert(entry_bytes(e)[j] == e.name[j - e.mode.len() - 1]);
            }
        }
        lemma_first_nul_at(d, p as int);
        assert(d.take(p as int) =~= e.mode + seq![32u8] + e.name);
        lemma_tokens_pair(e.mode, e.name);
        let toks = tokens_of(d.take(p as int));
        assert(toks =~= seq![e.mode, e.name]);
        assert(toks.len() == 2);
        assert(d.subrange(p as int + 1, p as int + 21) =~= e.hash);
        assert(d.skip(p as int + 21) =~= rest);
        assert forall|i: int| 0 <= i < es.drop_first().len() implies entry_wf(
            #[trigger] es.drop_first()[i],
        ) by {
            assert(es.drop_first()[i] == es[i + 1]);
        }
        lemma_tree_roundtrip(es.drop_first());
        let ev = TreeEntryV {
            mode: toks[0],
            name: toks[1],
            hash: d.subrange(p as int + 1, p as int + 21),
        };
        assert(ev =~= e);
        assert(parse_tree_body(d) == Some(seq![ev] + es.drop_first()));
        assert(seq![ev] + es.drop_first() =~= es);
    }
}


/// Decimal digits are ASCII digit bytes: never NUL, never whitespace.
pub proof fn lemma_dec_digits_range(n: nat)
    ensures
        forall|i: int| 0 <= i < dec_digits(n).len() ==> 48 <= #[trigger] dec_digits(n)[i] <= 57,
    decreases n,
{
    if n >= 10 {
        lemma_dec_digits_range(n / 10);
        let pre = dec_digits(n / 10);
        assert forall|i: int| 0 <= i < dec_digits(n).len() implies 48 <= #[trigger] dec_digits(
            n,
        )[i] <= 57 by {
            if i < pre.len() {
                assert(dec_digits(n)[i] == pre[i]);
            } else {
                assert(dec_digits(n)[i] == (n % 10 + 48) as u8);
            }
        }
    }
}

} // verus!
