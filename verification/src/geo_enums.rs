//! Positional relations between geometric entities.
use vstd::prelude::*;

verus! {

/// Whether something lies in the exterior or the interior of a shape.
#[derive(Clone, Copy, Debug, PartialEq, Eq, Hash, Structural)]
pub enum GeoPosition {
    Exterior,
    Interior,
}

/// Possible relations between two geometric entities A and B: A is `GeoRelation` to B.
#[derive(Clone, Copy, Debug, PartialEq, Eq, Structural)]
pub enum GeoRelation {
    /// A ∩ B ≠ ∅ and neither A ⊆ B nor B ⊆ A
    Intersecting,
    /// A ⊆ B
    Enclosed,
    /// B ⊆ A
    Surrounding,
    /// A ∩ B = ∅
    Disjoint,
}

} // verus!
