use vstd::prelude::*;

verus! {

/// How many line elements `dl` the Biot-Savart integration splits a wire into.
pub const DIVIDER: i32 = 10000000;

} // verus!
