//! Audits the response headers that a package registry's download host sends
//! for each published artifact.
//!
//! The library holds the logic of the audit: which catalog entries hold
//! records, how a record file is cut into records, where an artifact's
//! download lives, how one observed header set is held against the expected
//! shape, and what is reported for one probe. Walking the catalog, fetching
//! and printing are left to the caller.
use vstd::prelude::*;

pub mod artifact;
pub mod catalog;
pub mod conformance;
pub mod probe;

verus! {

} // verus!
