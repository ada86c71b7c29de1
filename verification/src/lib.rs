//! A lightweight Web-of-Trust library: a directed graph over identities whose
//! edges record positive (Follow) or negative (Mute) trust assertions, with a
//! binary wire format for persistence and a hop-bounded trust score.

use vstd::prelude::*;

/// Library errors.
pub mod error;
/// The append-only graph arena and its insertion operations.
pub mod graph;
/// Graph serialization and deserialization.
pub mod parser;
/// Graph relations.
pub mod relations;
/// Neighbor queries, hop-bounded counting, and the trust score.
pub mod traversal;
/// Identity fingerprinting and compression helpers.
pub mod utils;

verus! {

pub use crate::graph::Edge;
pub use crate::graph::WotGraph;
pub use crate::relations::Relation;
pub use crate::traversal::Direction;

} // verus!
