//! A hierarchical navigable small-world (HNSW) graph for approximate
//! nearest-neighbour search, generic over the vector type and the distance.
use vstd::prelude::*;

pub mod bench;
pub mod context;
pub mod dist;
pub mod graph;
pub mod helpers;
pub mod link;
pub mod node;
pub mod text;

pub use context::{EpochVisitedSet, InsertContext, SearchContext, SelectContext, VisitedSet};
pub use dist::L2Squared;
pub use graph::{Hnsw, HnswView, Storage};
pub use link::Link;
pub use node::Node;

verus! {

} // verus!
