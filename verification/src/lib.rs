//! Core engine for a layered, file-based configuration tree: a filterable
//! recursive install of an in-memory template tree, a non-destructive deep
//! merge for JSON configuration documents, timestamped backup naming and
//! rotation, and synchronization of a delimited managed section inside a
//! free-form text document.
//!
//! Everything here is pure logic over plain values; the thin shell that
//! performs filesystem reads and writes lives outside this crate and calls
//! into it.

pub mod backup;
pub mod config;
pub mod filter;
pub mod gitignore;
pub mod install;
pub mod install_laws;
pub mod json;
pub mod mcp;
pub mod merge;
pub mod merge_laws;
pub mod section;
pub mod strings;
pub mod tree;

use vstd::prelude::*;

verus! {

/// Default number of backups kept by rotation.
pub const DEFAULT_MAX_BACKUPS: usize = 3;

} // verus!
