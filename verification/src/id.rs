//! Global, location-independent entity identity.

use vstd::prelude::*;

verus! {

/// A world entity's global identity, stable across persistence.
#[derive(Clone, Copy, Debug, PartialEq, Eq, Structural, Hash, PartialOrd, Ord)]
pub struct EntityId(pub u64);

} // verus!
