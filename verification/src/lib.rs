//! Aggregation of one author's commit history over a configured set of
//! repositories, grouped into named experience buckets.
//!
//! The crate holds the verified core of the tool: parsing and validating the
//! declarative configuration, classifying a commit's changed files by
//! extension against a set of languages of interest, and merging classified
//! commits into per-bucket totals. Network access, credential storage and
//! console rendering live outside the library and hand it plain values.

use vstd::prelude::*;

pub mod aggregate;
pub mod classify;
pub mod config;

verus! {

} // verus!
