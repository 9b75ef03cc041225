//! What callers hand in and get back.

use crate::model::Hit;
use vstd::prelude::*;

verus! {

/// One candidate of a ranking: the key of a stored point and its distance
/// from the query.
#[derive(Debug, Clone, Copy, PartialEq, Eq, Structural)]
pub struct Candidate {
    pub item: u64,
    pub distance: u32,
}

/// One search result: an identifier and its distance.
#[derive(Debug, Clone, PartialEq, Eq)]
pub struct Neighbor {
    pub id: String,
    pub distance: u32,
}

impl View for Neighbor {
    type V = Hit;

    open spec fn view(&self) -> Hit {
        Hit { id: self.id@, distance: self.distance }
    }
}

/// The results of one search, nearest first.
#[derive(Debug, Clone, PartialEq, Eq)]
pub struct SearchResult {
    pub neighbors: Vec<Neighbor>,
}

impl View for SearchResult {
    type V = Seq<Hit>;

    open spec fn view(&self) -> Seq<Hit> {
        self.neighbors@.map_values(|n: Neighbor| n@)
    }
}

/// An identifier with the embedding to store under it.
#[derive(Debug, Clone)]
pub struct EmbeddedResource {
    pub id: String,
    pub embeddings: Vec<u32>,
}

/// A batch of identifiers with their embeddings.
#[derive(Debug)]
pub struct Resource {
    pub embeddings: Vec<EmbeddedResource>,
}

} // verus!
