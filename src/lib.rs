//! Disk usage of a directory tree, with every file counted once however many
//! hard links lead to it.
//!
//! `registry` holds the identities already counted, `tree` computes the size
//! tree of a snapshot of the file system, `laws` states what holds of every
//! computed tree, and `rows` lays a tree out as lines for display.
pub mod registry;
pub mod tree;
pub mod laws;
pub mod rows;
