//! Core engine of a code-intelligence server: file and symbol indices,
//! symbol extraction from syntax trees, content navigation (peek, grep,
//! chunking), per-session scratch state, and history bookkeeping.
//!
//! Everything here is verified; reading files, running the HTTP transport
//! and invoking external converters belong to the surrounding application.

pub mod annotations;
pub mod chunker;
pub mod content;
pub mod extract;
pub mod filetree;
pub mod history;
pub mod pdfcache;
pub mod registry;
pub mod repl;
pub mod sessions;
pub mod symbol;
pub mod symtab;
pub mod text;
pub mod trusted;
