//! Verified core of a wget-style website mirroring tool.
//!
//! The library holds the logic of the mirror: path normalization, link
//! rewriting, stylesheet reference handling, reference classification,
//! the visited-URL record, and the per-page planning that drives a crawl.
//! Network and filesystem work is left to the surrounding application,
//! which feeds fetched pages in and carries the planned fetches out.

pub mod classify;
pub mod cli;
pub mod download;
pub mod mirror;
pub mod paths;
pub mod rewrite;
pub mod scan;
pub mod strings;
pub mod stylesheet;
pub mod urls;
pub mod visited;
