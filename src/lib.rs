//! Compiles a fixed set of literal patterns, each with a value, into a table-driven
//! matcher that tokenizes a character stream with greedy longest-prefix semantics.
//!
//! `model` states what the matcher does over the pattern set itself; `trie` builds the
//! prefix tree; `matcher` compiles it into states and rules and runs it; `laws` proves
//! properties that relate several calls; `tokens` is a small symbol language built on it.
pub mod laws;
pub mod matcher;
pub mod model;
pub mod tokens;
pub mod trie;
