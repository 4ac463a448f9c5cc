//! Opto-electronic transfer functions: the encoding of a linear channel.

use vstd::prelude::*;
use vstd::arithmetic::power::pow;
use crate::fixed::{
    clamp_i64, div_round, lemma_round_div_bounds, lemma_round_div_is, lemma_round_div_monotonic,
    round_div, saturate,
};
use crate::power::{
    lemma_power_floor_at_least, lemma_power_floor_below, lemma_power_floor_monotonic,
    power_floor, spec_power_floor,
};

verus! {

/// The transfer function that a colour space encodes its channels with.
#[derive(Clone, Copy, Debug, PartialEq, Eq)]
pub enum Oetf {
    /// No encoding: the channel is left linear.
    Linear,
    /// ITU-R BT.709.
    Bt709,
    /// W3C sRGB.
    Srgb,
}

/// The linear value from which on BT.709 follows its power law: 0.018.
pub const BT709_BREAK: i64 = 18_000;

/// The linear value up to which sRGB is a straight line: 0.00304.
pub const SRGB_BREAK: i64 = 3_040;

/// ITU-R BT.709: `4.5 v` below 0.018, and `1.099 v^0.45 - 0.099` from there
/// on, in millionths. The power `v^(9 / 20)` is taken rounded down to the
/// millionth; the result is rounded to the nearest and kept within `i64`.
pub open spec fn spec_bt709_oetf(value: int) -> int {
    if value < BT709_BREAK {
        clamp_i64(round_div(45 * value, 10))
    } else {
        clamp_i64(round_div(1099 * spec_power_floor(value, 9, 20), 1000) - 99_000)
    }
}

/// W3C sRGB: `12.92 v` up to 0.00304, and `1.055 v^(1 / 2.4) - 0.055` above,
/// in millionths. The power `v^(5 / 12)` is taken rounded down to the
/// millionth; the result is rounded to the nearest and kept within `i64`.
pub open spec fn spec_srgb_oetf(value: int) -> int {
    if value <= SRGB_BREAK {
        clamp_i64(round_div(1292 * value, 100))
    } else {
        clamp_i64(round_div(1055 * spec_power_floor(value, 5, 12), 1000) - 55_000)
    }
}

/// What a transfer function makes of a linear value.
pub open spec fn spec_encode(oetf: Oetf, value: int) -> int {
    match oetf {
        Oetf::Linear => value,
        Oetf::Bt709 => spec_bt709_oetf(value),
        Oetf::Srgb => spec_srgb_oetf(value),
    }
}

/// Every transfer function leaves zero at zero.
pub proof fn lemma_encode_zero(oetf: Oetf)
    ensures
        spec_encode(oetf, 0) == 0,
{
    lemma_round_div_bounds(0, 10, 0);
    lemma_round_div_bounds(0, 100, 0);
}

/// BT.709 never falls as the linear value grows: not on its straight line,
/// not on its power law, and not where the one meets the other.
pub proof fn lemma_bt709_oetf_monotonic(a: int, b: int)
    requires
        a <= b,
    ensures
        spec_bt709_oetf(a) <= spec_bt709_oetf(b),
{
    if b < BT709_BREAK {
        lemma_round_div_monotonic(45 * a, 45 * b, 10);
    } else if a >= BT709_BREAK {
        lemma_power_floor_monotonic(a, b, 9, 20);
        lemma_round_div_monotonic(
            1099 * spec_power_floor(a, 9, 20),
            1099 * spec_power_floor(b, 9, 20),
            1000,
        );
    } else {
        // the line ends below 0.080997, and the power law starts above 0.081236
        lemma_round_div_monotonic(45 * a, 45 * 17_999int, 10);
        lemma_round_div_bounds(45 * 17_999int, 10, 80_996);
        assert(pow(164_000, 20) <= pow(18_000, 9) * pow(1_000_000, 11)) by {
            reveal_with_fuel(pow, 21);
            assert(pow(164_000, 20)
                == 198096572311207445868911288770620055487512576000000000000000000000000000000000000000000000000000000000000);
            assert(pow(18_000, 9) == 198359290368000000000000000000000000000);
            assert(pow(1_000_000, 11)
                == 1000000000000000000000000000000000000000000000000000000000000000000);
        }
        lemma_power_floor_at_least(164_000, 18_000, 9, 20);
        lemma_power_floor_monotonic(18_000, b, 9, 20);
        lemma_round_div_monotonic(1099 * 164_000int, 1099 * spec_power_floor(b, 9, 20), 1000);
        lemma_round_div_bounds(1099 * 164_000int, 1000, 180_236);
    }
}

/// sRGB never falls as the linear value grows: not on its straight line, not
/// on its power law, and not where the one meets the other.
pub proof fn lemma_srgb_oetf_monotonic(a: int, b: int)
    requires
        a <= b,
    ensures
        spec_srgb_oetf(a) <= spec_srgb_oetf(b),
{
    if b <= SRGB_BREAK {
        lemma_round_div_monotonic(1292 * a, 1292 * b, 100);
    } else if a > SRGB_BREAK {
        lemma_power_floor_monotonic(a, b, 5, 12);
        lemma_round_div_monotonic(
            1055 * spec_power_floor(a, 5, 12),
            1055 * spec_power_floor(b, 5, 12),
            1000,
        );
    } else {
        // the line ends below 0.039278, and the power law starts above 0.039285
        lemma_round_div_monotonic(1292 * a, 1292 * 3_040int, 100);
        lemma_round_div_bounds(1292 * 3_040int, 100, 39_277);
        assert(pow(89_370, 12) <= pow(3_041, 5) * pow(1_000_000, 7)) by {
            reveal_with_fuel(pow, 13);
            assert(pow(89_370, 12) == 259597852341903276199784245021344380912645283681000000000000);
            assert(pow(3_041, 5) == 260065115392271201);
            assert(pow(1_000_000, 7) == 1000000000000000000000000000000000000000000);
        }
        lemma_power_floor_at_least(89_370, 3_041, 5, 12);
        lemma_power_floor_monotonic(3_041, b, 5, 12);
        lemma_round_div_monotonic(1055 * 89_370int, 1055 * spec_power_floor(b, 5, 12), 1000);
        lemma_round_div_bounds(1055 * 89_370int, 1000, 94_285);
    }
}

/// BT.709 is continuous where its two pieces meet, to 0.000337: as near as
/// ten millionths either side of the breakpoint, the value above is not
/// below the value beneath, and not more than 0.000337 above it.
pub proof fn lemma_bt709_oetf_near_break(e: int)
    requires
        0 <= e <= 10,
    ensures
        0 <= spec_bt709_oetf(BT709_BREAK + e) - spec_bt709_oetf(BT709_BREAK - e) <= 337,
{
    lemma_bt709_oetf_monotonic(BT709_BREAK - e, BT709_BREAK + e);
    lemma_bt709_oetf_monotonic(17_990, BT709_BREAK - e);
    lemma_bt709_oetf_monotonic(BT709_BREAK + e, 18_010);
    lemma_round_div_is(45 * 17_990int, 10, 80_955);
    assert(pow(18_010, 9) * pow(1_000_000, 11) < pow(164_052, 20)) by {
        reveal_with_fuel(pow, 21);
        assert(pow(18_010, 9) == 199353293671364194867604656201000000000);
        assert(pow(1_000_000, 11)
            == 1000000000000000000000000000000000000000000000000000000000000000000);
        assert(pow(164_052, 20)
            == 199356585671877377965500954184580189162357182685810549378318602803413650583192818976432753036060132376576);
    }
    lemma_power_floor_below(164_052, 18_010, 9, 20);
    lemma_round_div_monotonic(1099 * spec_power_floor(18_010, 9, 20), 1099 * 164_051int, 1000);
    lemma_round_div_is(1099 * 164_051int, 1000, 180_292);
}

/// sRGB is continuous where its two pieces meet, to 0.000267: as near as ten
/// millionths either side of the breakpoint, the value above is not below
/// the value beneath, and not more than 0.000267 above it.
pub proof fn lemma_srgb_oetf_near_break(e: int)
    requires
        0 <= e <= 10,
    ensures
        0 <= spec_srgb_oetf(SRGB_BREAK + e) - spec_srgb_oetf(SRGB_BREAK - e) <= 267,
{
    lemma_srgb_oetf_monotonic(SRGB_BREAK - e, SRGB_BREAK + e);
    lemma_srgb_oetf_monotonic(3_030, SRGB_BREAK - e);
    lemma_srgb_oetf_monotonic(SRGB_BREAK + e, 3_050);
    lemma_round_div_is(1292 * 3_030int, 100, 39_148);
    assert(pow(3_050, 5) * pow(1_000_000, 7) < pow(89_494, 12)) by {
        reveal_with_fuel(pow, 13);
        assert(pow(3_050, 5) == 263936344062500000);
        assert(pow(1_000_000, 7) == 1000000000000000000000000000000000000000000);
        assert(pow(89_494, 12) == 263953263229991834532623102277299532930450287655694202638336);
    }
    lemma_power_floor_below(89_494, 3_050, 5, 12);
    lemma_round_div_monotonic(1055 * spec_power_floor(3_050, 5, 12), 1055 * 89_493int, 1000);
    lemma_round_div_is(1055 * 89_493int, 1000, 94_415);
}

/// No transfer function falls as the linear value grows.
pub proof fn lemma_encode_monotonic(oetf: Oetf, a: int, b: int)
    requires
        a <= b,
    ensures
        spec_encode(oetf, a) <= spec_encode(oetf, b),
{
    lemma_bt709_oetf_monotonic(a, b);
    lemma_srgb_oetf_monotonic(a, b);
}

/// The transfer function of ITU-R BT.709, on a linear value in millionths.
/// A value below zero stays on the straight line; nothing is clamped to the
/// unit interval.
pub fn bt709_oetf(value: i64) -> (r: i64)
    ensures
        r == spec_bt709_oetf(value as int),
{
    if value < BT709_BREAK {
        saturate(div_round(45 * (value as i128), 10))
    } else {
        let root: i64 = power_floor(value, 9, 20);
        saturate(div_round(1099 * (root as i128), 1000) - 99_000)
    }
}

/// The transfer function of W3C sRGB, on a linear value in millionths. A
/// value below zero stays on the straight line; nothing is clamped to the
/// unit interval.
pub fn srgb_oetf(value: i64) -> (r: i64)
    ensures
        r == spec_srgb_oetf(value as int),
{
    if value <= SRGB_BREAK {
        saturate(div_round(1292 * (value as i128), 100))
    } else {
        let root: i64 = power_floor(value, 5, 12);
        saturate(div_round(1055 * (root as i128), 1000) - 55_000)
    }
}

impl Oetf {
    /// Encodes a linear value in millionths.
    pub fn encode(self, value: i64) -> (r: i64)
        ensures
            r == spec_encode(self, value as int),
    {
        match self {
            Oetf::Linear => value,
            Oetf::Bt709 => bt709_oetf(value),
            Oetf::Srgb => srgb_oetf(value),
        }
    }
}

} // verus!
