//! A read-only synthetic filesystem core: paths emitted by an external
//! listing command become an inode table, and the four virtual-filesystem
//! operations (lookup, getattr, readdir, read) are answered as pure queries
//! against that table.
//!
//! All process execution and mount plumbing lives outside this crate; the
//! library works on plain byte strings and answers every query
//! deterministically.

pub mod laws;
pub mod ops;
pub mod parse;
pub mod table;
pub mod tree;
