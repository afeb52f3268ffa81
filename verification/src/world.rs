//! World identity.
use vstd::prelude::*;

verus! {

/// Identifies one voxel world; chunks carry the id of the world they belong to.
#[derive(Clone, Copy, Debug, PartialEq, Eq, Hash, Structural)]
pub struct WorldId(pub u64);

} // verus!
