//! The object store: compressed object payloads keyed by their
//! fingerprint. The store models the two-level sharded directory layout
//! as a map from fingerprint strings to compressed bytes; deriving the
//! shard path for a fingerprint is part of this module, performing the
//! actual file reads and writes is the caller's.

use vstd::prelude::*;

use crate::codec::{dec_digits, first_nul, header_of, lemma_dec_digits_range, lemma_first_nul,
    lemma_first_nul_at, payload_of};
use crate::compress::{compress_data, decompress_buffer, deflate_of, inflate_of};
use crate::digest::{fingerprint, fp_chars_of};
use crate::errors::GitError;
use crate::hexutil::{is_fingerprint, is_valid_fingerprint};
use vstd::string::StrSliceExecFns;
use vstd::string::StringExecFns;
use vstd::utf8::{decode_utf8, valid_utf8};

verus! {

/// The map modeled by a sequence of stored objects; a later pair with
/// the same key supersedes an earlier one.
spec fn store_map(s: Seq<(String, Vec<u8>)>) -> Map<Seq<char>, Seq<u8>>
    decreases s.len(),
{
    if s.len() == 0 {
        Map::empty()
    } else {
        store_map(s.drop_last()).insert(s.last().0@, s.last().1@)
    }
}

/// A key is in the map exactly when some pair carries it.
proof fn lemma_store_map_contains(s: Seq<(String, Vec<u8>)>, k: Seq<char>)
    ensures
        store_map(s).contains_key(k) <==> exists|i: int| 0 <= i < s.len() && s[i].0@ == k,
    decreases s.len(),
{
    if s.len() > 0 {
        lemma_store_map_contains(s.drop_last(), k);
        if store_map(s).contains_key(k) {
            if s.last().0@ != k {
                let i = choose|i: int| 0 <= i < s.drop_last().len() && s.drop_last()[i].0@ == k;
                assert(s[i].0@ == k);
            } else {
                assert(s[s.len() - 1].0@ == k);
            }
        }
        if exists|i: int| 0 <= i < s.len() && s[i].0@ == k {
            let i = choose|i: int| 0 <= i < s.len() && s[i].0@ == k;
            if i < s.len() - 1 {
                assert(s.drop_last()[i].0@ == k);
            }
        }
    }
}

/// A pair whose key no later pair repeats gives the map's value at
/// that key.
proof fn lemma_store_map_get(s: Seq<(String, Vec<u8>)>, i: int)
    requires
        0 <= i < s.len(),
        forall|j: int| i < j < s.len() ==> (#[trigger] s[j].0@) != s[i].0@,
    ensures
        store_map(s).contains_key(s[i].0@),
        store_map(s)[s[i].0@] == s[i].1@,
    decreases s.len(),
{
    if i == s.len() - 1 {
    } else {
        assert(s.last().0@ != s[i].0@);
        assert(forall|j: int|
            i < j < s.drop_last().len() ==> (#[trigger] s.drop_last()[j].0@) != s.drop_last()[
                i
            ].0@);
        lemma_store_map_get(s.drop_last(), i);
    }
}

/// The map has as many keys as the sequence has pairs, when no key
/// repeats.
proof fn lemma_store_map_len(s: Seq<(String, Vec<u8>)>)
    requires
        forall|i: int, j: int|
            0 <= i < j < s.len() ==> (#[trigger] s[i].0@) != (#[trigger] s[j].0@),
    ensures
        store_map(s).dom().finite(),
        store_map(s).dom().len() == s.len(),
    decreases s.len(),
{
    if s.len() > 0 {
        let pre = s.drop_last();
        lemma_store_map_len(pre);
        lemma_store_map_contains(pre, s.last().0@);
        assert(forall|i: int| 0 <= i < pre.len() ==> (#[trigger] pre[i].0@) != s.last().0@);
        assert(!store_map(pre).contains_key(s.last().0@));
        assert(store_map(s).dom() =~= store_map(pre).dom().insert(s.last().0@));
    }
}

/// An in-memory model of the object store: each stored object's
/// fingerprint and its compressed payload. Objects are written once and
/// never mutated; writing an already-present fingerprint again stores
/// the same compressed bytes.
pub struct ObjectStore {
    objects: Vec<(String, Vec<u8>)>,
}

impl View for ObjectStore {
    type V = Map<Seq<char>, Seq<u8>>;

    closed spec fn view(&self) -> Map<Seq<char>, Seq<u8>> {
        store_map(self.objects@)
    }
}

impl ObjectStore {
    /// No two stored objects share a fingerprint.
    pub closed spec fn wf(&self) -> bool {
        forall|i: int, j: int|
            0 <= i < j < self.objects@.len() ==> (#[trigger] self.objects@[i].0@) != (
            #[trigger] self.objects@[j].0@)
    }

    /// Creates an empty store.
    pub fn new() -> (s: Self)
        ensures
            s.wf(),
            s@ == Map::<Seq<char>, Seq<u8>>::empty(),
    {
        ObjectStore { objects: Vec::new() }
    }

    /// Number of stored objects.
    pub fn object_count(&self) -> (r: usize)
        requires
            self.wf(),
        ensures
            r == self@.dom().len(),
    {
        proof {
            lemma_store_map_len(self.objects@);
        }
        self.objects.len()
    }

    /// Index of the object stored under a fingerprint, if any.
    fn find(&self, hash: &String) -> (r: Option<usize>)
        ensures
            match r {
                Some(i) => i < self.objects@.len() && self.objects@[i as int].0@ == hash@,
                None => forall|i: int|
                    0 <= i < self.objects@.len() ==> (#[trigger] self.objects@[i].0@) != hash@,
            },
    {
        let mut i: usize = 0;
        while i < self.objects.len()
            invariant
                0 <= i <= self.objects@.len(),
                forall|j: int| 0 <= j < i ==> (#[trigger] self.objects@[j].0@) != hash@,
            decreases self.objects@.len() - i,
        {
            if self.objects[i].0.eq(hash) {
                return Some(i);
            }
            i += 1;
        }
        None
    }
}

/// Compresses a payload and stores it under the given fingerprint,
/// creating the shard as needed; writing the same payload under the
/// same fingerprint again changes nothing. Fails with
/// `InvalidFingerprint` exactly when the fingerprint string is not 40
/// hexadecimal characters.
pub fn create_obj_write_payload(store: &mut ObjectStore, payload: &Vec<u8>, hash: &str) -> (r:
    Result<(), GitError>)
    requires
        old(store).wf(),
    ensures
        final(store).wf(),
        is_fingerprint(hash@) ==> (r matches Ok(()) && final(store)@ == old(store)@.insert(
            hash@,
            deflate_of(payload@),
        ) && inflate_of(deflate_of(payload@)) == Some(payload@)),
        !is_fingerprint(hash@) ==> r == Err::<(), GitError>(GitError::InvalidFingerprint)
            && final(store)@ == old(store)@,
{
    if !is_valid_fingerprint(hash) {
        return Err(GitError::InvalidFingerprint);
    }
    let compressed = compress_data(payload);
    let key = String::from_str(hash);
    let found = store.find(&key);
    match found {
        Some(i) => {
            let ghost s0 = store.objects@;
            store.objects[i].1 = compressed;
            proof {
                let s1 = store.objects@;
                assert(s1 =~= s0.update(i as int, (s0[i as int].0, compressed)));
                assert(forall|j: int| 0 <= j < s1.len() ==> s1[j].0@ == s0[j].0@);
                assert(store.wf());
                // Every key of either map is carried by a pair, and its
                // value is the data of its one carrier.
                assert forall|k: Seq<char>| #![auto]
                    store_map(s1).contains_key(k) == store_map(s0).insert(
                        hash@,
                        deflate_of(payload@),
                    ).contains_key(k) by {
                    lemma_store_map_contains(s0, k);
                    lemma_store_map_contains(s1, k);
                }
                assert forall|k: Seq<char>| #![auto] store_map(s1).contains_key(k) implies
                    store_map(s1)[k] == store_map(s0).insert(hash@, deflate_of(payload@))[k] by {
                    lemma_store_map_contains(s1, k);
                    let a = choose|a: int| 0 <= a < s1.len() && s1[a].0@ == k;
                    lemma_store_map_get(s1, a);
                    if k == hash@ {
                        assert(a == i);
                    } else {
                        assert(a != i);
                        lemma_store_map_get(s0, a);
                    }
                }
                assert(store_map(s1) =~= store_map(s0).insert(hash@, deflate_of(payload@)));
            }
            Ok(())
        },
        None => {
            let ghost s0 = store.objects@;
            store.objects.push((key, compressed));
            proof {
                let s1 = store.objects@;
                assert(s1.drop_last() =~= s0);
                assert(s1.last().0@ == hash@);
                assert(store.wf());
                assert(store_map(s1) == store_map(s0).insert(hash@, deflate_of(payload@)));
            }
            Ok(())
        },
    }
}

/// The store map after one payload is written: the payload's
/// fingerprint now maps to its compressed bytes.
pub open spec fn store_after(m: Map<Seq<char>, Seq<u8>>, payload: Seq<u8>) -> Map<
    Seq<char>,
    Seq<u8>,
> {
    m.insert(fp_chars_of(payload), deflate_of(payload))
}

/// Idempotence: writing the same object payload twice produces exactly
/// the store that writing it once produces — the second write changes
/// nothing and stores no second object.
pub proof fn lemma_write_idempotent(m: Map<Seq<char>, Seq<u8>>, payload: Seq<u8>)
    ensures
        store_after(store_after(m, payload), payload) == store_after(m, payload),
{
    assert(store_after(store_after(m, payload), payload) =~= store_after(m, payload));
}

/// Computes a payload's fingerprint, compresses the payload, and
/// stores it under that fingerprint. Writing the same payload twice is
/// a no-op on the second write. Returns the fingerprint.
pub fn write_object(store: &mut ObjectStore, payload: &Vec<u8>) -> (r: String)
    requires
        old(store).wf(),
    ensures
        final(store).wf(),
        r@ == fp_chars_of(payload@),
        is_fingerprint(r@),
        final(store)@ == store_after(old(store)@, payload@),
        inflate_of(deflate_of(payload@)) == Some(payload@),
{
    let hash = fingerprint(payload);
    let res = create_obj_write_payload(store, payload, hash.as_str());
    proof {
        assert(res matches Ok(()));
    }
    hash
}

/// Looks up a fingerprint and returns the decompressed object payload
/// together with the position of the header-terminating NUL byte.
/// Fails with `InvalidFingerprint` exactly when the string is not 40
/// hexadecimal characters, with `ObjectNotFound` exactly when no
/// object is stored under it, and with `CorruptObject` exactly when
/// the stored bytes do not decompress or hold no NUL byte.
pub fn read_payload_from_hash(store: &ObjectStore, hash: &str) -> (r: Result<
    (Vec<u8>, usize),
    GitError,
>)
    requires
        store.wf(),
    ensures
        match r {
            Ok(p) => {
                &&& is_fingerprint(hash@)
                &&& store@.contains_key(hash@)
                &&& inflate_of(store@[hash@]) == Some(p.0@)
                &&& p.1 < p.0@.len()
                &&& p.0@[p.1 as int] == 0
                &&& forall|j: int| 0 <= j < p.1 ==> p.0@[j] != 0
            },
            Err(e) => if !is_fingerprint(hash@) {
                e == GitError::InvalidFingerprint
            } else if !store@.contains_key(hash@) {
                e == GitError::ObjectNotFound
            } else {
                &&& e == GitError::CorruptObject
                &&& (inflate_of(store@[hash@]) matches Some(d) ==> forall|j: int|
                    0 <= j < d.len() ==> d[j] != 0)
            },
        },
{
    if !is_valid_fingerprint(hash) {
        return Err(GitError::InvalidFingerprint);
    }
    let key = String::from_str(hash);
    let found = store.find(&key);
    match found {
        None => {
            proof {
                lemma_store_map_contains(store.objects@, hash@);
            }
            Err(GitError::ObjectNotFound)
        },
        Some(i) => {
            proof {
                lemma_store_map_get(store.objects@, i as int);
            }
            let data = decompress_buffer(&store.objects[i].1);
            match data {
                Err(e) => Err(e),
                Ok(payload) => {
                    let mut j: usize = 0;
                    while j < payload.len() && payload[j] != 0
                        invariant
                            0 <= j <= payload@.len(),
                            forall|k: int| 0 <= k < j ==> payload@[k] != 0,
                        decreases payload@.len() - j,
                    {
                        j += 1;
                    }
                    if j == payload.len() {
                        Err(GitError::CorruptObject)
                    } else {
                        Ok((payload, j))
                    }
                },
            }
        },
    }
}

/// Relies on `String::from_utf8`: succeeds exactly on valid UTF-8 and
/// decodes it to the characters it encodes.
#[verifier::external_body]
fn bytes_to_string(b: Vec<u8>) -> (r: Option<String>)
    ensures
        r is Some <==> valid_utf8(b@),
        r matches Some(s) ==> s@ == decode_utf8(b@),
{
    String::from_utf8(b).ok()
}

/// The header and body of a decompressed object payload, split at the
/// first NUL byte.
pub open spec fn split_payload(d: Seq<u8>) -> Option<(Seq<u8>, Seq<u8>)> {
    match first_nul(d) {
        None => None,
        Some(p) => Some((d.take(p as int), d.skip(p as int + 1))),
    }
}

/// Reads an object and splits it into its header, as text, and its
/// body bytes. Fails as `read_payload_from_hash` does, and with
/// `CorruptObject` also when the header bytes are not valid text.
pub fn read_object(store: &ObjectStore, hash: &str) -> (r: Result<(String, Vec<u8>), GitError>)
    requires
        store.wf(),
    ensures
        match r {
            Ok(p) => {
                &&& is_fingerprint(hash@)
                &&& store@.contains_key(hash@)
                &&& inflate_of(store@[hash@]) matches Some(d) && split_payload(d) matches Some(hb)
                    && valid_utf8(hb.0) && p.0@ == decode_utf8(hb.0) && p.1@ == hb.1
            },
            Err(e) => if !is_fingerprint(hash@) {
                e == GitError::InvalidFingerprint
            } else if !store@.contains_key(hash@) {
                e == GitError::ObjectNotFound
            } else {
                &&& e == GitError::CorruptObject
                &&& (inflate_of(store@[hash@]) matches Some(d) ==> (split_payload(d) matches Some(
                    hb,
                ) ==> !valid_utf8(hb.0)))
            },
        },
{
    let looked = read_payload_from_hash(store, hash);
    match looked {
        Err(e) => {
            proof {
                if is_fingerprint(hash@) && store@.contains_key(hash@) {
                    match inflate_of(store@[hash@]) {
                        Some(d) => {
                            lemma_first_nul(d);
                        },
                        None => {},
                    }
                }
            }
            Err(e)
        },
        Ok((payload, pos)) => {
            proof {
                lemma_first_nul_at(payload@, pos as int);
            }
            let mut header: Vec<u8> = Vec::new();
            let mut i: usize = 0;
            while i < pos
                invariant
                    0 <= i <= pos < payload@.len(),
                    header@ =~= payload@.subrange(0, i as int),
                decreases pos - i,
            {
                proof {
                    assert(payload@.subrange(0, i as int).push(payload@[i as int])
                        =~= payload@.subrange(0, i as int + 1));
                }
                header.push(payload[i]);
                i += 1;
            }
            let mut body: Vec<u8> = Vec::new();
            let n = payload.len();
            let mut k: usize = pos + 1;
            while k < n
                invariant
                    n == payload@.len(),
                    pos + 1 <= k <= payload@.len(),
                    body@ =~= payload@.subrange(pos as int + 1, k as int),
                decreases payload@.len() - k,
            {
                proof {
                    assert(payload@.subrange(pos as int + 1, k as int).push(payload@[k as int])
                        =~= payload@.subrange(pos as int + 1, k as int + 1));
                }
                body.push(payload[k]);
                k += 1;
            }
            proof {
                assert(header@ =~= payload@.take(pos as int));
                assert(body@ =~= payload@.skip(pos as int + 1));
            }
            match bytes_to_string(header) {
                None => Err(GitError::CorruptObject),
                Some(text) => Ok((text, body)),
            }
        },
    }
}

/// Splits a well-formed fingerprint into the shard directory name (its
/// first two characters) and the object file name (the remaining 38).
/// Fails with `InvalidFingerprint` exactly when the string is not 40
/// hexadecimal characters.
pub fn split_fingerprint(hash: &str) -> (r: Result<(String, String), GitError>)
    ensures
        match r {
            Ok(p) => is_fingerprint(hash@) && p.0@ == hash@.subrange(0, 2) && p.1@
                == hash@.subrange(2, 40),
            Err(e) => e == GitError::InvalidFingerprint && !is_fingerprint(hash@),
        },
{
    if !is_valid_fingerprint(hash) {
        return Err(GitError::InvalidFingerprint);
    }
    let shard = hash.substring_char(0, 2).to_owned();
    let rest = hash.substring_char(2, 40).to_owned();
    Ok((shard, rest))
}


/// Splitting an object payload at its first NUL byte recovers the
/// header and the body exactly, for any kind tag free of NUL bytes.
pub proof fn lemma_split_payload(kind: Seq<u8>, body: Seq<u8>)
    requires
        forall|i: int| 0 <= i < kind.len() ==> (#[trigger] kind[i]) != 0,
    ensures
        split_payload(payload_of(kind, body)) == Some(
            (kind + seq![32u8] + dec_digits(body.len()), body),
        ),
{
    let digits = dec_digits(body.len());
    let header = kind + seq![32u8] + digits;
    let d = payload_of(kind, body);
    let p = header.len() as int;
    lemma_dec_digits_range(body.len());
    assert(d == header_of(kind, body.len()) + body);
    assert(d.len() == p + 1 + body.len());
    assert(d[p] == 0);
    assert forall|j: int| 0 <= j < p implies d[j] != 0 by {
        if j < kind.len() {
            assert(d[j] == kind[j]);
        } else if j == kind.len() {
            assert(d[j] == 32u8);
        } else {
            assert(d[j] == digits[j - kind.len() - 1]);
        }
    }
    lemma_first_nul_at(d, p);
    assert(d.take(p) =~= header);
    assert(d.skip(p + 1) =~= body);
}

} // verus!
