use vstd::prelude::*;

verus! {

/// Namespace of the field computations. The computations themselves work on
/// `f32` vectors and are carried out by the application crate.
pub struct Math;

} // verus!
