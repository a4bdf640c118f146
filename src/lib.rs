//! A local index of the file sizes recorded in the snapshots of a restic
//! backup repository: the decisions of driving the `restic` command line, the
//! reconciliation of the index with the repository's snapshot catalog, atomic
//! ingestion of one snapshot's listing, and the query for the largest file
//! sizes beneath each child of a directory.
use vstd::prelude::*;

pub mod cache;
pub mod json;
pub mod path;
pub mod restic;
pub mod types;

verus! {

/// The error type of serde_json, carried through as it is.
#[verifier::external_type_specification]
#[verifier::external_body]
pub struct ExJsonError(serde_json::Error);

} // verus!
