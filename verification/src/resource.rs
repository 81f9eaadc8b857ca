//! Resource type identities.
//!
//! A resource is a value owned by a world and addressed by the identity of
//! its type. The identity is a plain key the embedding assigns per type, so
//! two handles name the same resource exactly when their keys are equal.

use vstd::prelude::*;

verus! {

/// Identity of a resource type.
#[derive(Clone, Copy, PartialEq, Eq, Structural, Debug, Hash)]
pub struct ResourceTy {
    pub id: u64,
}

impl ResourceTy {
    /// Creates a new resource id from a given type key.
    pub fn new(id: u64) -> (r: ResourceTy)
        ensures
            r.id == id,
    {
        ResourceTy { id }
    }
}

} // verus!
