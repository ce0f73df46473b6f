//! Identifiers of arena slots.

use vstd::prelude::*;

verus! {

/// Handle that names one widget node for the whole time the node lives in an
/// arena: the slot it occupies and the generation of that occupancy.
///
/// Identifiers are ordered by slot first and by generation second.
#[derive(Clone, Copy, Debug, PartialEq, Eq, Structural, Hash, PartialOrd, Ord)]
pub struct Index {
    pub slot: usize,
    pub generation: u64,
}

impl Index {
    /// The strict order on identifiers: by slot, then by generation.
    pub open spec fn spec_precedes(self, other: Index) -> bool {
        self.slot < other.slot || (self.slot == other.slot && self.generation < other.generation)
    }

    /// Builds an identifier from its slot and generation.
    pub fn from_raw_parts(slot: usize, generation: u64) -> (id: Index)
        ensures
            id == (Index { slot, generation }),
    {
        Index { slot, generation }
    }

    /// Splits an identifier into its slot and generation.
    pub fn into_raw_parts(self) -> (parts: (usize, u64))
        ensures
            parts.0 == self.slot,
            parts.1 == self.generation,
    {
        (self.slot, self.generation)
    }

    /// Whether `self` comes strictly before `other`.
    #[verifier::when_used_as_spec(spec_precedes)]
    pub fn precedes(self, other: Index) -> (r: bool)
        ensures
            r == self.spec_precedes(other),
    {
        self.slot < other.slot || (self.slot == other.slot && self.generation < other.generation)
    }
}

/// The order on identifiers is total: of two different identifiers exactly
/// one precedes the other, and no identifier precedes itself.
pub proof fn lemma_index_order_total(a: Index, b: Index)
    ensures
        !a.spec_precedes(a),
        a != b ==> (a.spec_precedes(b) != b.spec_precedes(a)),
        a == b ==> !a.spec_precedes(b),
{
}

/// The order on identifiers is transitive.
pub proof fn lemma_index_order_transitive(a: Index, b: Index, c: Index)
    requires
        a.spec_precedes(b),
        b.spec_precedes(c),
    ensures
        a.spec_precedes(c),
{
}

} // verus!
