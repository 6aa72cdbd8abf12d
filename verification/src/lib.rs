//! Core of a local-first note-taking vault: parsing of wiki-style references
//! embedded in note text, resolution of reference targets to note paths,
//! backlink aggregation across a vault snapshot, and an ordered file tree of
//! folders and notes.
//!
//! All operations are pure functions over an in-memory snapshot of the vault's
//! directory contents (`fsmodel::FsEntry`); reading the snapshot from disk is
//! the caller's concern.

pub mod backlinks;
pub mod fsmodel;
pub mod links;
pub mod resolve;
pub mod theme;
pub mod tree;
pub mod unicode;
pub mod vault;
