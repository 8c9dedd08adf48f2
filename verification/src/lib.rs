//! Adaptive display-brightness engine: quantizes ambient-light and screen
//! content readings into discrete state keys, learns the brightness the user
//! prefers in each state, and decides per control cycle whether to drive a
//! device toward the prediction.

use vstd::prelude::*;

pub mod codec;
pub mod config;
pub mod controller;
pub mod profile;
pub mod quantize;

verus! {

/// Clamp a requested raw brightness into the device's valid output range
/// `[1, max]`: the device is never driven fully off and never past its
/// reported maximum.
pub fn clamp_raw(value: u64, max: u64) -> (r: u64)
    requires
        max >= 1,
    ensures
        1 <= r <= max,
        1 <= value <= max ==> r == value,
        value < 1 ==> r == 1,
        value > max ==> r == max,
{
    if value < 1 {
        1
    } else if value > max {
        max
    } else {
        value
    }
}

} // verus!
