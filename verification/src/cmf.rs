//! The CIE 1931 colour-matching functions, after the analytic fit of Wyman,
//! Sloan and Shirley (2013): each response is a sum of Gaussian lobes that are
//! wider on one side of their mean than on the other.

use vstd::prelude::*;
use crate::fixed::{div_round, lemma_round_div_bounds, round_div};
use crate::gauss::{lobe, spec_lobe};

verus! {

/// The largest magnitude of a response, in millionths.
pub const RESPONSE_LIMIT: i64 = 2_000_000;

/// The response x̄ at a wavelength, both in millionths.
pub open spec fn spec_xfit_1931(wave: int) -> int {
    round_div(
        362 * spec_lobe(wave, 442_000_000, 62_400, 37_400) + 1056 * spec_lobe(
            wave,
            599_800_000,
            26_400,
            32_300,
        ) - 65 * spec_lobe(wave, 501_100_000, 49_000, 38_200),
        1000,
    )
}

/// The response ȳ at a wavelength, both in millionths.
pub open spec fn spec_yfit_1931(wave: int) -> int {
    round_div(
        821 * spec_lobe(wave, 568_800_000, 21_300, 24_700) + 286 * spec_lobe(
            wave,
            530_900_000,
            61_300,
            32_200,
        ),
        1000,
    )
}

/// The response z̄ at a wavelength, both in millionths.
pub open spec fn spec_zfit_1931(wave: int) -> int {
    round_div(
        1217 * spec_lobe(wave, 437_000_000, 84_500, 27_800) + 681 * spec_lobe(
            wave,
            459_000_000,
            38_500,
            72_500,
        ),
        1000,
    )
}

/// The three responses at a wavelength.
pub open spec fn spec_evaluate_cmf(wave: int) -> (int, int, int) {
    (spec_xfit_1931(wave), spec_yfit_1931(wave), spec_zfit_1931(wave))
}

/// The response x̄ of the standard observer at a wavelength in millionths of a
/// nanometre.
pub fn xfit_1931(wave: i64) -> (r: i64)
    ensures
        r == spec_xfit_1931(wave as int),
        -RESPONSE_LIMIT <= r <= RESPONSE_LIMIT,
{
    let g1: i128 = lobe(wave, 442_000_000, 62_400, 37_400) as i128;
    let g2: i128 = lobe(wave, 599_800_000, 26_400, 32_300) as i128;
    let g3: i128 = lobe(wave, 501_100_000, 49_000, 38_200) as i128;
    let sum: i128 = 362 * g1 + 1056 * g2 - 65 * g3;
    proof {
        lemma_round_div_bounds(sum as int, 1000, -2_000_000);
        lemma_round_div_bounds(sum as int, 1000, 2_000_000);
    }
    div_round(sum, 1000) as i64
}

/// The response ȳ of the standard observer at a wavelength in millionths of a
/// nanometre.
pub fn yfit_1931(wave: i64) -> (r: i64)
    ensures
        r == spec_yfit_1931(wave as int),
        0 <= r <= RESPONSE_LIMIT,
{
    let g1: i128 = lobe(wave, 568_800_000, 21_300, 24_700) as i128;
    let g2: i128 = lobe(wave, 530_900_000, 61_300, 32_200) as i128;
    let sum: i128 = 821 * g1 + 286 * g2;
    proof {
        lemma_round_div_bounds(sum as int, 1000, 0);
        lemma_round_div_bounds(sum as int, 1000, 2_000_000);
    }
    div_round(sum, 1000) as i64
}

/// The response z̄ of the standard observer at a wavelength in millionths of a
/// nanometre.
pub fn zfit_1931(wave: i64) -> (r: i64)
    ensures
        r == spec_zfit_1931(wave as int),
        0 <= r <= RESPONSE_LIMIT,
{
    let g1: i128 = lobe(wave, 437_000_000, 84_500, 27_800) as i128;
    let g2: i128 = lobe(wave, 459_000_000, 38_500, 72_500) as i128;
    let sum: i128 = 1217 * g1 + 681 * g2;
    proof {
        lemma_round_div_bounds(sum as int, 1000, 0);
        lemma_round_div_bounds(sum as int, 1000, 2_000_000);
    }
    div_round(sum, 1000) as i64
}

/// The three responses (x̄, ȳ, z̄) of the CIE 1931 standard observer at a
/// wavelength in millionths of a nanometre. Every wavelength has a response.
pub fn evaluate_cmf(wave: i64) -> (r: (i64, i64, i64))
    ensures
        r.0 == spec_evaluate_cmf(wave as int).0,
        r.1 == spec_evaluate_cmf(wave as int).1,
        r.2 == spec_evaluate_cmf(wave as int).2,
        -RESPONSE_LIMIT <= r.0 <= RESPONSE_LIMIT,
        0 <= r.1 <= RESPONSE_LIMIT,
        0 <= r.2 <= RESPONSE_LIMIT,
{
    (xfit_1931(wave), yfit_1931(wave), zfit_1931(wave))
}

} // verus!
