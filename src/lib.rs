//! A directory-size inspection engine, verified with Verus: a directory tree
//! read from disk (`tree`), folder listings and their orders (`entry`,
//! `folder`), and a session that aggregates folder sizes into a cache,
//! navigates it and repairs it after deletions (`navigator`), the invariants
//! the cache keeps (`cache`), and the laws that tie them together (`laws`).
//! Beside it stand a line-based text editor (`text_editor`, `gap_buffer`)
//! and a few small verified routines.
//!
//! The engine reads the whole subtree under the start directory up front
//! (the caller builds the `DiskTree`) and aggregates it eagerly when the
//! session starts; descending finds folders already cached and aggregates
//! only what a deletion or an error left out. Going above the top of the tree
//! starts over on the subtree of the directory above, read anew.
pub mod adder;
pub mod boxes;
pub mod cache;
pub mod entry;
pub mod folder;
pub mod gap_buffer;
pub mod guess;
pub mod laws;
pub mod navigator;
pub mod notification;
pub mod permutations;
pub mod primes;
pub mod restaurant;
pub mod sequences;
pub mod shirts;
pub mod text;
pub mod text_editor;
pub mod tree;
pub mod words;
