//! # xneo
//!
//! A smarter `cd` command with memory and intelligence.
//!
//! xneo learns from directory navigation patterns and provides:
//! - directory jumping ranked by frequency and recency of visits,
//! - bookmark management,
//! - context-aware ancestor matching,
//! - fuzzy matching support,
//! - shell integration (Fish, Bash, Zsh, PowerShell).
//!
//! This crate is the engine: every function in it is verified with Verus
//! against the contract written on it.

pub mod bookmarks;
pub mod config;
pub mod db;
pub mod entry;
pub mod fuzzy;
pub mod matching;
pub mod order;
pub mod paths;
pub mod score;
pub mod shell;
pub mod store;
pub mod text;
pub mod time;

pub use config::Config;
pub use db::Database;
pub use entry::{Bookmark, DirEntry, Stats, VisitEntry};
pub use matching::Candidate;
