//! A minimal content-addressable object store in the style of a
//! version-control storage layer: payloads are hashed, compressed, and
//! stored under their fingerprint; directory snapshots are encoded as
//! canonical binary tree objects and decoded back.

pub mod canon;
pub mod cli;
pub mod codec;
pub mod commit;
pub mod compress;
pub mod digest;
pub mod errors;
pub mod hexutil;
pub mod snapshot;
pub mod store;
pub mod tree;

pub use cli::{CatFileArgs, CommitArgs, GitCli, HashListArgs, ReadTreeArgs, Subcommands};
pub use compress::{compress_data, decompress_buffer};
pub use store::{create_obj_write_payload, read_payload_from_hash};
