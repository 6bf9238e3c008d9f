//! Verified core of a semantic code-navigation tool: path handling, the
//! selection, ordering, grouping and pagination of query results.
use vstd::prelude::*;

pub mod text;
pub mod path;
pub mod sort;
pub mod pagination;
pub mod index;
pub mod query;
pub mod lines;
pub mod definition;
pub mod references;
pub mod overview;

verus! {
} // verus!
