//! Error kinds surfaced by the object store, the codec, and the tree
//! builder / materializer.

use vstd::prelude::*;

verus! {

/// Every failure the library can report. Each variant is produced on
/// exactly the inputs stated by the contract of the function returning it.
#[derive(Clone, Copy, Debug, PartialEq, Eq, Structural)]
pub enum GitError {
    /// The requested fingerprint has no corresponding stored object.
    ObjectNotFound,
    /// A stored object's bytes do not decompress, or the decompressed
    /// payload has no header-terminating NUL byte, or the header is not
    /// valid text.
    CorruptObject,
    /// A tree body does not parse into well-formed entries.
    MalformedTreeEntry,
    /// A tree entry's mode token is none of the three recognized values.
    InvalidTreeMode,
    /// A commit author name or email fails validation.
    InvalidIdentity,
    /// A filesystem entry is neither a regular file nor a directory.
    UnsupportedFileType,
    /// No storage root was found by upward search.
    RepositoryNotFound,
    /// A fingerprint string is not exactly 40 hexadecimal characters.
    InvalidFingerprint,
}

impl GitError {
    /// A short human-readable description of the error kind.
    pub fn describe(&self) -> (r: &'static str)
        ensures
            r@.len() > 0,
    {
        proof {
            reveal_strlit("object not found");
            reveal_strlit("corrupt object");
            reveal_strlit("malformed tree entry");
            reveal_strlit("invalid tree mode");
            reveal_strlit("invalid identity");
            reveal_strlit("unsupported file type");
            reveal_strlit("repository not found");
            reveal_strlit("invalid fingerprint");
        }
        match self {
            GitError::ObjectNotFound => "object not found",
            GitError::CorruptObject => "corrupt object",
            GitError::MalformedTreeEntry => "malformed tree entry",
            GitError::InvalidTreeMode => "invalid tree mode",
            GitError::InvalidIdentity => "invalid identity",
            GitError::UnsupportedFileType => "unsupported file type",
            GitError::RepositoryNotFound => "repository not found",
            GitError::InvalidFingerprint => "invalid fingerprint",
        }
    }
}

} // verus!
