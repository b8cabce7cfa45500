//! A context resolution engine: builds a deterministic on-disk cache
//! description from a set of source documents, and resolves text queries
//! against such a cache into a budget-constrained, ranked selection of
//! documents, with byte-stable JSON output.
//!
//! Everything here is pure: callers read files and pass their contents in;
//! the library computes outputs (and exit codes) as functions of those bytes.

pub mod text;
pub mod numfmt;
pub mod score;
pub mod jsonw;
pub mod jsonp;
pub mod model;
pub mod cache;
pub mod resolve;
pub mod inspect;
pub mod builder;
pub mod protocol;
pub mod fixture;
pub mod cli_runner;
