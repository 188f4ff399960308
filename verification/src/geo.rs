//! The travel-time cost of a measured road segment.

use vstd::prelude::*;

verus! {

/// The travel-time cost in whole seconds of a segment `dist_cm` centimetres
/// long at `speed_kmh` km/h: the distance divided by the speed in metres per
/// second (`speed_kmh * 5/18`, the one place the unit conversion happens),
/// rounded down and saturated at the largest finite cost.
pub open spec fn spec_cost_seconds(dist_cm: nat, speed_kmh: u32) -> u32
    recommends
        speed_kmh > 0,
{
    let q = (dist_cm * 18) / (500 * speed_kmh as nat);
    if q <= u32::MAX as nat {
        q as u32
    } else {
        u32::MAX
    }
}

pub fn cost_seconds(dist_cm: u64, speed_kmh: u32) -> (r: u32)
    requires
        speed_kmh > 0,
    ensures
        r == spec_cost_seconds(dist_cm as nat, speed_kmh),
{
    let num: u128 = (dist_cm as u128) * 18;
    let den: u128 = 500u128 * (speed_kmh as u128);
    let q: u128 = num / den;
    if q <= u32::MAX as u128 {
        q as u32
    } else {
        u32::MAX
    }
}

} // verus!
