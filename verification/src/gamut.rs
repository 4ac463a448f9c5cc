//! What to do with a colour that a colour space cannot show. The projection
//! leaves such a colour as it is; clamping is a step of its own, taken only
//! where the caller asks for it.

use vstd::prelude::*;
use crate::fixed::SCALE;

verus! {

/// The value of the unit interval nearest to `v`, in millionths.
pub open spec fn clamp_unit(v: int) -> int {
    if v < 0 {
        0
    } else if v > SCALE {
        SCALE as int
    } else {
        v
    }
}

/// Whether red, green and blue all lie in the unit interval.
pub open spec fn spec_in_gamut(rgb: [i64; 4]) -> bool {
    &&& 0 <= rgb[0] <= SCALE
    &&& 0 <= rgb[1] <= SCALE
    &&& 0 <= rgb[2] <= SCALE
}

/// Tells whether a colour is in the gamut: whether red, green and blue all
/// lie in the unit interval.
pub fn in_gamut(rgb: [i64; 4]) -> (r: bool)
    ensures
        r == spec_in_gamut(rgb),
{
    0 <= rgb[0] && rgb[0] <= SCALE && 0 <= rgb[1] && rgb[1] <= SCALE && 0 <= rgb[2] && rgb[2]
        <= SCALE
}

fn clamp_channel(v: i64) -> (r: i64)
    ensures
        r == clamp_unit(v as int),
{
    if v < 0 {
        0
    } else if v > SCALE {
        SCALE
    } else {
        v
    }
}

/// Clamps every component to the unit interval. A colour in the gamut is
/// left as it is, and the result is in the gamut.
pub fn clamp_to_gamut(rgb: [i64; 4]) -> (out: [i64; 4])
    ensures
        out[0] == clamp_unit(rgb[0] as int),
        out[1] == clamp_unit(rgb[1] as int),
        out[2] == clamp_unit(rgb[2] as int),
        out[3] == clamp_unit(rgb[3] as int),
        spec_in_gamut(out),
        spec_in_gamut(rgb) ==> out[0] == rgb[0] && out[1] == rgb[1] && out[2] == rgb[2],
{
    [clamp_channel(rgb[0]), clamp_channel(rgb[1]), clamp_channel(rgb[2]), clamp_channel(rgb[3])]
}

} // verus!
