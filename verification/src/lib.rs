//! Context cache and merge engine for an interactive file-curation session.
//!
//! The library keeps a set of selected file paths, a cache of rendered
//! document fragments (one per selected file plus one virtual entry for the
//! rendered project tree), and merges the cache into a single deterministic
//! document with renumbered fragment indices.  A session state machine
//! routes incoming commands and free-text lines according to the active
//! mode, and a token count is recomputed together with every merged
//! document.  All filesystem, clipboard and terminal work stays outside the
//! library; callers hand in plain paths, file contents and input lines.

pub mod command;
pub mod complete;
pub mod engine;
pub mod error;
pub mod executor;
pub mod ignore_rules;
pub mod snippet_manager;
pub mod state;
pub mod strutil;
pub mod tokenizer;
pub mod tree;
pub mod xml;
