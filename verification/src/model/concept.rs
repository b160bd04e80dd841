//! The concept (category/topic) type.
use vstd::prelude::*;

use super::id::ConceptId;

verus! {

/// A named category that tasks can be grouped under.
///
/// Concepts form a tree via the optional `parent` field; a concept without a
/// parent is a root.
#[derive(Debug, Clone, PartialEq, Eq)]
pub struct Concept {
    /// Unique identifier.
    pub id: ConceptId,
    /// Human-readable name.
    pub name: String,
    /// Optional longer description.
    pub description: Option<String>,
    /// Parent concept, or `None` for root concepts.
    pub parent: Option<ConceptId>,
}

} // verus!
