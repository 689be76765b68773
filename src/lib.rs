//! Collecting the regular files below a path, optionally restricted to a set
//! of extensions.
//!
//! The library holds the decisions of a collection: which paths are kept, when
//! a walk is over and which error ends it. Reading the filesystem is left to
//! the caller, who hands each directory listing to a [`walk::Walk`].

pub mod filter;
pub mod walk;
pub mod tree;
pub mod laws;
