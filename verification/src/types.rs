//! Shared scalar types.
use vstd::prelude::*;

verus! {

/// One quantized signed-distance sample: negative inside (solid), zero or
/// positive outside (air).
pub type SdfSample = i8;

/// A material identifier.
pub type MaterialId = u8;

} // verus!
