use vstd::prelude::*;

verus! {

/// Marker trait that keeps decoding policies inside this crate.
pub trait Sealed {}

} // verus!
