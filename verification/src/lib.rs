//! A verified core for an agent-facing code-operations server: path sandboxing,
//! anchor-based patching, excerpt reading, search result shaping, symbol
//! extraction and the bookkeeping of a text cache.
//!
//! The file system, processes and the wire protocol stay outside this crate;
//! every decision taken on their results is made here, with a contract.

pub mod protocol;
pub mod text;
pub mod rope;
pub mod paths;
pub mod workspace;
pub mod cache;
pub mod ops;
