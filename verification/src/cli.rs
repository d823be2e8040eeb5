//! The command-line surface as plain data: the command and its
//! arguments, free of any argument-parsing machinery. The binary
//! front end parses user input into these values and dispatches on
//! them.

use vstd::prelude::*;

verus! {

/// Arguments of the command that hashes one file into a blob object.
pub struct HashListArgs {
    /// Path of the file to hash.
    pub file: String,
}

/// Arguments of the command that prints a stored object.
pub struct CatFileArgs {
    /// Fingerprint of the object to read.
    pub hash: String,
}

/// Arguments of the command that materializes a stored tree.
pub struct ReadTreeArgs {
    /// Fingerprint of the root tree.
    pub hash: String,
}

/// Arguments of the command that records a commit.
pub struct CommitArgs {
    /// Author name.
    pub name: String,
    /// Author email.
    pub email: String,
    /// Fingerprint of the root tree.
    pub hash: String,
    /// Commit message.
    pub message: String,
}

/// One invocation's command.
pub enum Subcommands {
    /// Create a new repository.
    Init,
    /// Store one file as a blob.
    HashList(HashListArgs),
    /// Read a stored object and print it.
    CatFile(CatFileArgs),
    /// Persist the working directory as a tree.
    WriteTree,
    /// Reconstruct a working directory from a tree.
    ReadTree(ReadTreeArgs),
    /// Record a commit.
    Commit(CommitArgs),
}

/// A parsed command line.
pub struct GitCli {
    /// The command to run.
    pub command: Subcommands,
}

} // verus!
