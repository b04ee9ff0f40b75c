//! Rebuilds the hierarchy of a "tree"-style directory listing.
//!
//! The listing is three header lines followed by one line per entry; each
//! entry line starts with four-character indentation tokens whose count is its
//! depth. The builder reattaches every entry to its ancestor and yields an
//! arena of nodes addressed by index.
pub mod classify;
pub mod tree;
pub mod header;
pub mod builder;
pub mod laws;
pub mod viewer;
pub mod outline;
