//! Commit objects: validation of the author identity and the canonical
//! textual commit payload referencing a root tree fingerprint.

use vstd::prelude::*;

use crate::codec::{encode_object, payload_of, spec_commit_kind};
use crate::digest::fp_chars_of;
use crate::errors::GitError;
use crate::store::{store_after, write_object, ObjectStore};
use validator::ValidateEmail;
use vstd::string::StrSliceExecFns;
use vstd::string::StringExecFns;
use vstd::utf8::encode_utf8;

verus! {

/// Whether a string is a syntactically valid email address. Named, not
/// written out: the library relies on the validation being a function
/// of the string alone.
pub uninterp spec fn email_valid(s: Seq<char>) -> bool;

/// Relies on `validator::ValidateEmail::validate_email`: a check of
/// the string alone; an empty string is never a valid address.
#[verifier::external_body]
fn validate_email_str(email: &str) -> (r: bool)
    ensures
        r == email_valid(email@),
        email@.len() == 0 ==> r == false,
{
    email.validate_email()
}

/// A character admitted in an author name: ASCII letters and digits,
/// space, apostrophe, hyphen, period, underscore.
pub open spec fn is_name_char(c: char) -> bool {
    ||| (48 <= c as u32 && c as u32 <= 57)
    ||| (65 <= c as u32 && c as u32 <= 90)
    ||| (97 <= c as u32 && c as u32 <= 122)
    ||| c as u32 == 32
    ||| c as u32 == 39
    ||| c as u32 == 45
    ||| c as u32 == 46
    ||| c as u32 == 95
}

/// A valid author name: non-empty, over the restricted character set.
pub open spec fn name_valid(s: Seq<char>) -> bool {
    s.len() > 0 && (forall|i: int| 0 <= i < s.len() ==> is_name_char(#[trigger] s[i]))
}

/// Whether an author name is valid: non-empty, over the restricted
/// character set.
pub fn is_valid_name(name: &str) -> (r: bool)
    ensures
        r == name_valid(name@),
{
    let n = name.unicode_len();
    if n == 0 {
        return false;
    }
    let mut i: usize = 0;
    while i < n
        invariant
            0 <= i <= n == name@.len(),
            forall|j: int| 0 <= j < i ==> is_name_char(#[trigger] name@[j]),
        decreases n - i,
    {
        let c = name.get_char(i);
        let v = c as u32;
        if !((48 <= v && v <= 57) || (65 <= v && v <= 90) || (97 <= v && v <= 122) || v == 32
            || v == 39 || v == 45 || v == 46 || v == 95) {
            return false;
        }
        i += 1;
    }
    true
}

/// The text of a commit body: the root tree fingerprint, the author
/// line, a blank line, and the message, each line newline-terminated.
pub open spec fn commit_body_of(
    tree_fp: Seq<char>,
    name: Seq<char>,
    email: Seq<char>,
    message: Seq<char>,
) -> Seq<char> {
    "tree "@ + tree_fp + "\nauthor "@ + name + " <"@ + email + ">\n\n"@ + message + "\n"@
}

/// The full payload of a commit object.
pub open spec fn commit_payload_of(
    tree_fp: Seq<char>,
    name: Seq<char>,
    email: Seq<char>,
    message: Seq<char>,
) -> Seq<u8> {
    payload_of(spec_commit_kind(), encode_utf8(commit_body_of(tree_fp, name, email, message)))
}

/// Builds the textual commit body.
fn build_commit_payload(root_fp: &str, name: &str, email: &str, message: &str) -> (r: String)
    ensures
        r@ == commit_body_of(root_fp@, name@, email@, message@),
{
    let mut body = String::new();
    body.append("tree ");
    body.append(root_fp);
    body.append("\nauthor ");
    body.append(name);
    body.append(" <");
    body.append(email);
    body.append(">\n\n");
    body.append(message);
    body.append("\n");
    body
}

/// Encodes a commit object payload. Fails with `InvalidIdentity`
/// exactly when the author name is not valid or the email is not a
/// syntactically valid address; the checks come before any hashing, so
/// no object is ever written for an invalid identity.
pub fn encode_commit(root_fp: &str, name: &str, email: &str, message: &str) -> (r: Result<
    Vec<u8>,
    GitError,
>)
    ensures
        match r {
            Ok(p) => name_valid(name@) && email_valid(email@) && p@ == commit_payload_of(
                root_fp@,
                name@,
                email@,
                message@,
            ),
            Err(e) => e == GitError::InvalidIdentity && !(name_valid(name@) && email_valid(
                email@,
            )),
        },
{
    if !is_valid_name(name) {
        return Err(GitError::InvalidIdentity);
    }
    if !validate_email_str(email) {
        return Err(GitError::InvalidIdentity);
    }
    let body = build_commit_payload(root_fp, name, email, message);
    let body_bytes = body.as_str().as_bytes_vec();
    let kind: Vec<u8> = vec![99, 111, 109, 109, 105, 116];
    proof {
        assert(kind@ =~= spec_commit_kind());
    }
    Ok(encode_object(&kind, &body_bytes))
}

/// Encodes a commit and stores it under its fingerprint, returning the
/// fingerprint. Fails with `InvalidIdentity` exactly as `encode_commit`
/// does, leaving the store unchanged.
pub fn commit_object(
    store: &mut ObjectStore,
    root_fp: &str,
    name: &str,
    email: &str,
    message: &str,
) -> (r: Result<String, GitError>)
    requires
        old(store).wf(),
    ensures
        final(store).wf(),
        match r {
            Ok(h) => name_valid(name@) && email_valid(email@) && h@ == fp_chars_of(
                commit_payload_of(root_fp@, name@, email@, message@),
            ) && crate::hexutil::is_fingerprint(h@) && final(store)@ == store_after(
                old(store)@,
                commit_payload_of(root_fp@, name@, email@, message@),
            ),
            Err(e) => e == GitError::InvalidIdentity && !(name_valid(name@) && email_valid(
                email@,
            )) && final(store)@ == old(store)@,
        },
{
    let payload = encode_commit(root_fp, name, email, message);
    match payload {
        Err(e) => Err(e),
        Ok(p) => Ok(write_object(store, &p)),
    }
}

} // verus!
