//! Saved targets (hosts, URLs) with labels and tags.
use vstd::prelude::*;

verus! {

/// A saved target.
#[derive(Clone, Debug)]
pub struct Bookmark {
    pub id: String,
    pub label: String,
    pub target: String,
    pub tags: Vec<String>,
    pub created_at: String,
}

} // verus!
