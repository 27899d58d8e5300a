//! Merges domain block- and allow-lists into minimal rule sets.
//!
//! Rules are gathered into a suffix tree keyed by reversed DNS labels; a
//! `Domain` rule covers its whole subtree and prunes what lies below it.

pub mod config;
pub mod labels;
pub mod laws;
pub mod merge;
pub mod rule;
pub mod source;
pub mod text;
pub mod trie;
