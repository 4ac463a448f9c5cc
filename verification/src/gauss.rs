//! The exponential `exp(-u)` in integer arithmetic, and the Gaussian lobe with
//! two widths that is made of it.
//!
//! The exponential of a negative number is one over the series of `exp(u)`,
//! which has no negative term and so loses nothing to cancellation. The series
//! is summed to eighteen decimal places.

use vstd::prelude::*;
use vstd::arithmetic::div_mod::{
    lemma_basic_div, lemma_div_is_ordered, lemma_div_multiples_vanish, lemma_div_pos_is_pos,
};
use crate::fixed::{
    div_round, lemma_round_div_bounds, lemma_round_div_ordered, round_div, SCALE,
};

verus! {

/// The number of units in 1.0 of a term of the exponential series.
pub const EXP_UNIT: i128 = 1_000_000_000_000_000_000;

/// The index of the last term of the exponential series.
pub const EXP_TERMS: u8 = 64;

/// The exponent, in millionths, from which on `exp(-u)` rounds to zero.
pub const EXP_CUTOFF: i64 = 17_000_000;

/// The largest term of the series below the cutoff.
const TERM_LIMIT: i128 = 2325750635367029905766994;

/// Six, in units of the product of a wavelength and a width: a lobe is zero
/// from six standard deviations on.
const REACH: i128 = 6_000_000_000_000;

/// Twice the cube of [`SCALE`]: the divisor that takes the square of such a
/// product to half its value in millionths.
pub const HALF_SQUARE: i128 = 2_000_000_000_000_000_000;

/// The term `u^k / k!` of the exponential series, in units of [`EXP_UNIT`],
/// for `u` in millionths. Each division rounds down.
pub open spec fn exp_term(u: int, k: nat) -> int
    decreases k,
{
    if k == 0 {
        EXP_UNIT as int
    } else {
        exp_term(u, (k - 1) as nat) * u / (k * SCALE)
    }
}

/// The sum of the terms `0..=n` of the exponential series.
pub open spec fn exp_series(u: int, n: nat) -> int
    decreases n,
{
    if n == 0 {
        exp_term(u, 0)
    } else {
        exp_series(u, (n - 1) as nat) + exp_term(u, n)
    }
}

/// `exp(-u)` in millionths, for `u >= 0` in millionths: one over the series
/// of `exp(u)`, rounded to the nearest millionth.
pub open spec fn spec_exp_neg(u: int) -> int {
    round_div(SCALE * EXP_UNIT, exp_series(u, EXP_TERMS as nat))
}

/// Half the square of `(wave - mean) * width`, in millionths: the exponent of
/// a Gaussian at `wave`.
pub open spec fn lobe_exponent(wave: int, mean: int, width: int) -> int {
    round_div(((wave - mean) * width) * ((wave - mean) * width), HALF_SQUARE as int)
}

/// A Gaussian lobe with two widths: `exp(-t * t / 2)` for
/// `t = (wave - mean) * width`, where the width is `below` for a wavelength
/// under the mean and `above` from the mean on.
pub open spec fn spec_lobe(wave: int, mean: int, below: int, above: int) -> int {
    spec_exp_neg(lobe_exponent(wave, mean, if wave < mean { below } else { above }))
}

/// The terms of the series at the cutoff, up to the largest.
spec fn cutoff_term(k: nat) -> int {
    if k == 0 {
        1000000000000000000
    } else if k == 1 {
        17000000000000000000
    } else if k == 2 {
        144500000000000000000
    } else if k == 3 {
        818833333333333333333
    } else if k == 4 {
        3480041666666666666665
    } else if k == 5 {
        11832141666666666666661
    } else if k == 6 {
        33524401388888888888872
    } else if k == 7 {
        81416403373015873015832
    } else if k == 8 {
        173009857167658730158643
    } else if k == 9 {
        326796396872244268077436
    } else if k == 10 {
        555553874682815255731641
    } else if k == 11 {
        858583260873441758857990
    } else if k == 12 {
        1216326286237375825048819
    } else if k == 13 {
        1590580528156568386602301
    } else if k == 14 {
        1931419212761547326588508
    } else if k == 15 {
        2188941774463086970133642
    } else if k == 16 {
        2325750635367029905766994
    } else {
        2325750635367029905766994
    }
}

/// A term of the series is not negative, and grows with the exponent.
pub proof fn lemma_exp_term_monotonic(u: int, v: int, k: nat)
    requires
        0 <= u <= v,
    ensures
        0 <= exp_term(u, k) <= exp_term(v, k),
    decreases k,
{
    if k > 0 {
        lemma_exp_term_monotonic(u, v, (k - 1) as nat);
        let a = exp_term(u, (k - 1) as nat);
        let b = exp_term(v, (k - 1) as nat);
        assert(0 <= a * u <= b * v) by (nonlinear_arith)
            requires
                0 <= a <= b,
                0 <= u <= v,
        ;
        lemma_div_pos_is_pos(a * u, k * SCALE);
        lemma_div_is_ordered(a * u, b * v, k * SCALE);
    }
}

/// The series is at least any one of its terms, and at least its first.
pub proof fn lemma_exp_series_dominates(u: int, n: nat, k: nat)
    requires
        0 <= u,
        k <= n,
    ensures
        exp_series(u, n) >= exp_term(u, k),
        exp_series(u, n) >= EXP_UNIT,
    decreases n,
{
    lemma_exp_term_monotonic(u, u, n);
    if n > 0 {
        if k < n {
            lemma_exp_series_dominates(u, (n - 1) as nat, k);
        } else {
            lemma_exp_series_dominates(u, (n - 1) as nat, 0);
        }
    }
}

/// The series grows with the exponent.
pub proof fn lemma_exp_series_monotonic(u: int, v: int, n: nat)
    requires
        0 <= u <= v,
    ensures
        exp_series(u, n) <= exp_series(v, n),
    decreases n,
{
    lemma_exp_term_monotonic(u, v, n);
    if n > 0 {
        lemma_exp_series_monotonic(u, v, (n - 1) as nat);
    }
}

/// The table holds the terms of the series at the cutoff.
proof fn lemma_cutoff_table(k: nat)
    requires
        k <= 17,
    ensures
        exp_term(EXP_CUTOFF as int, k) == cutoff_term(k),
        cutoff_term(k) <= TERM_LIMIT,
    decreases k,
{
    if k > 0 {
        lemma_cutoff_table((k - 1) as nat);
        let c = EXP_CUTOFF as int;
        assert(exp_term(c, k) == exp_term(c, (k - 1) as nat) * c / (k * SCALE));
        if k == 1 {
            vstd::arithmetic::div_mod::lemma_fundamental_div_mod_converse(
                1000000000000000000int * 17_000_000,
                1000000,
                17000000000000000000,
                0,
            );
        } else if k == 2 {
            vstd::arithmetic::div_mod::lemma_fundamental_div_mod_converse(
                17000000000000000000int * 17_000_000,
                2000000,
                144500000000000000000,
                0,
            );
        } else if k == 3 {
            vstd::arithmetic::div_mod::lemma_fundamental_div_mod_converse(
                144500000000000000000int * 17_000_000,
                3000000,
                818833333333333333333,
                1000000,
            );
        } else if k == 4 {
            vstd::arithmetic::div_mod::lemma_fundamental_div_mod_converse(
                818833333333333333333int * 17_000_000,
                4000000,
                3480041666666666666665,
                1000000,
            );
        } else if k == 5 {
            vstd::arithmetic::div_mod::lemma_fundamental_div_mod_converse(
                3480041666666666666665int * 17_000_000,
                5000000,
                11832141666666666666661,
                0,
            );
        } else if k == 6 {
            vstd::arithmetic::div_mod::lemma_fundamental_div_mod_converse(
                11832141666666666666661int * 17_000_000,
                6000000,
                33524401388888888888872,
                5000000,
            );
        } else if k == 7 {
            vstd::arithmetic::div_mod::lemma_fundamental_div_mod_converse(
                33524401388888888888872int * 17_000_000,
                7000000,
                81416403373015873015832,
                0,
            );
        } else if k == 8 {
            vstd::arithmetic::div_mod::lemma_fundamental_div_mod_converse(
                81416403373015873015832int * 17_000_000,
                8000000,
                173009857167658730158643,
                0,
            );
        } else if k == 9 {
            vstd::arithmetic::div_mod::lemma_fundamental_div_mod_converse(
                173009857167658730158643int * 17_000_000,
                9000000,
                326796396872244268077436,
                7000000,
            );
        } else if k == 10 {
            vstd::arithmetic::div_mod::lemma_fundamental_div_mod_converse(
                326796396872244268077436int * 17_000_000,
                10000000,
                555553874682815255731641,
                2000000,
            );
        } else if k == 11 {
            vstd::arithmetic::div_mod::lemma_fundamental_div_mod_converse(
                555553874682815255731641int * 17_000_000,
                11000000,
                858583260873441758857990,
                7000000,
            );
        } else if k == 12 {
            vstd::arithmetic::div_mod::lemma_fundamental_div_mod_converse(
                858583260873441758857990int * 17_000_000,
                12000000,
                1216326286237375825048819,
                2000000,
            );
        } else if k == 13 {
            vstd::arithmetic::div_mod::lemma_fundamental_div_mod_converse(
                1216326286237375825048819int * 17_000_000,
                13000000,
                1590580528156568386602301,
                10000000,
            );
        } else if k == 14 {
            vstd::arithmetic::div_mod::lemma_fundamental_div_mod_converse(
                1590580528156568386602301int * 17_000_000,
                14000000,
                1931419212761547326588508,
                5000000,
            );
        } else if k == 15 {
            vstd::arithmetic::div_mod::lemma_fundamental_div_mod_converse(
                1931419212761547326588508int * 17_000_000,
                15000000,
                2188941774463086970133642,
                6000000,
            );
        } else if k == 16 {
            vstd::arithmetic::div_mod::lemma_fundamental_div_mod_converse(
                2188941774463086970133642int * 17_000_000,
                16000000,
                2325750635367029905766994,
                10000000,
            );
        } else if k == 17 {
            vstd::arithmetic::div_mod::lemma_fundamental_div_mod_converse(
                2325750635367029905766994int * 17_000_000,
                17000000,
                2325750635367029905766994,
                0,
            );
        }
    }
}

/// No term of the series at the cutoff is above the largest of the table.
proof fn lemma_cutoff_terms(k: nat)
    ensures
        0 <= exp_term(EXP_CUTOFF as int, k) <= TERM_LIMIT,
    decreases k,
{
    let c = EXP_CUTOFF as int;
    lemma_exp_term_monotonic(c, c, k);
    if k <= 17 {
        lemma_cutoff_table(k);
    } else {
        lemma_cutoff_terms((k - 1) as nat);
        let a = exp_term(c, (k - 1) as nat);
        lemma_exp_term_monotonic(c, c, (k - 1) as nat);
        assert(a * c <= a * (k * SCALE)) by (nonlinear_arith)
            requires
                0 <= a,
                c <= k * SCALE,
        ;
        assert(a * (k * SCALE) == (k * SCALE) * a) by (nonlinear_arith);
        lemma_div_is_ordered(a * c, (k * SCALE) * a, k * SCALE);
        lemma_div_multiples_vanish(a, k * SCALE);
    }
}

/// Below the cutoff, no term of the series is above the largest of the table.
proof fn lemma_exp_term_limit(u: int, k: nat)
    requires
        0 <= u <= EXP_CUTOFF,
    ensures
        0 <= exp_term(u, k) <= TERM_LIMIT,
{
    lemma_exp_term_monotonic(u, EXP_CUTOFF as int, k);
    lemma_cutoff_terms(k);
}

/// `exp(-u)` lies between zero and one.
pub proof fn lemma_exp_neg_range(u: int)
    requires
        0 <= u,
    ensures
        0 <= spec_exp_neg(u) <= SCALE,
{
    let e = exp_series(u, EXP_TERMS as nat);
    lemma_exp_series_dominates(u, EXP_TERMS as nat, 0);
    assert(SCALE * EXP_UNIT <= SCALE * e) by (nonlinear_arith)
        requires
            EXP_UNIT <= e,
    ;
    lemma_round_div_bounds(SCALE * EXP_UNIT, e, SCALE as int);
    assert(0 * e == 0);
    lemma_round_div_bounds(SCALE * EXP_UNIT, e, 0);
}

/// `exp(-0)` is one.
pub proof fn lemma_exp_neg_at_zero()
    ensures
        spec_exp_neg(0) == SCALE,
{
    lemma_zero_series(EXP_TERMS as nat);
    lemma_round_div_bounds(SCALE * EXP_UNIT, EXP_UNIT as int, SCALE as int);
}

/// At exponent zero the series is its first term.
proof fn lemma_zero_series(n: nat)
    ensures
        exp_series(0, n) == EXP_UNIT,
        n > 0 ==> exp_term(0, n) == 0,
    decreases n,
{
    if n > 0 {
        lemma_zero_series((n - 1) as nat);
        assert(exp_term(0, (n - 1) as nat) * 0 == 0);
    }
}

/// `exp(-u)` never grows with `u`.
pub proof fn lemma_exp_neg_monotonic(u: int, v: int)
    requires
        0 <= u <= v,
    ensures
        spec_exp_neg(v) <= spec_exp_neg(u),
{
    let n = SCALE * EXP_UNIT;
    let eu = exp_series(u, EXP_TERMS as nat);
    let ev = exp_series(v, EXP_TERMS as nat);
    lemma_exp_series_monotonic(u, v, EXP_TERMS as nat);
    lemma_exp_series_dominates(u, EXP_TERMS as nat, 0);
    assert(n * eu <= n * ev) by (nonlinear_arith)
        requires
            eu <= ev,
            n >= 0,
    ;
    lemma_round_div_ordered(n, ev, n, eu);
}

/// The series of `exp(u)` is at least `1 + u`, its first two terms.
proof fn lemma_exp_series_linear(u: int, n: nat)
    requires
        0 <= u,
        n >= 1,
    ensures
        exp_series(u, n) >= 1_000_000_000_000 * (SCALE + u),
    decreases n,
{
    if n == 1 {
        assert(exp_series(u, 1) == exp_term(u, 0) + exp_term(u, 1)) by {
            reveal_with_fuel(exp_series, 2);
        }
        assert(exp_term(u, 1) == exp_term(u, 0) * u / (1 * SCALE));
        assert(EXP_UNIT * u == SCALE * (1_000_000_000_000 * u)) by (nonlinear_arith);
        lemma_div_multiples_vanish(1_000_000_000_000 * u, SCALE as int);
        assert(1_000_000_000_000 * (SCALE + u) == EXP_UNIT + 1_000_000_000_000 * u)
            by (nonlinear_arith);
    } else {
        lemma_exp_series_linear(u, (n - 1) as nat);
        lemma_exp_term_monotonic(u, u, n);
    }
}

/// `exp(-u)` is at most `1 / (1 + u)`.
pub proof fn lemma_exp_neg_upper(u: int)
    requires
        0 <= u,
    ensures
        spec_exp_neg(u) <= round_div(SCALE * SCALE, SCALE + u),
{
    let e = exp_series(u, EXP_TERMS as nat);
    let n = SCALE * EXP_UNIT;
    lemma_exp_series_linear(u, EXP_TERMS as nat);
    assert(n * (SCALE + u) <= (SCALE * SCALE) * e) by (nonlinear_arith)
        requires
            e >= 1_000_000_000_000 * (SCALE + u),
            n == SCALE * 1_000_000_000_000_000_000,
            SCALE == 1_000_000,
            0 <= u,
    ;
    lemma_round_div_ordered(n, e, SCALE * SCALE, SCALE + u);
}

/// The series of `exp(u)` stays below `1 / (1 - u)`: for `u` up to one,
/// `(1 - u)` times the series is at most one.
proof fn lemma_exp_series_geometric(u: int, n: nat)
    requires
        0 <= u <= SCALE,
    ensures
        (SCALE - u) * exp_series(u, n) <= SCALE * EXP_UNIT - u * exp_term(u, n),
    decreases n,
{
    if n == 0 {
        assert((SCALE - u) * EXP_UNIT == SCALE * EXP_UNIT - u * EXP_UNIT) by (nonlinear_arith);
    } else {
        let m = (n - 1) as nat;
        let a = exp_term(u, m);
        let b = exp_term(u, n);
        let e = exp_series(u, m);
        lemma_exp_series_geometric(u, m);
        lemma_exp_term_monotonic(u, u, m);
        lemma_exp_term_monotonic(u, u, n);
        assert(0 <= a * u) by (nonlinear_arith)
            requires
                0 <= a,
                0 <= u,
        ;
        vstd::arithmetic::div_mod::lemma_fundamental_div_mod(a * u, n * SCALE);
        vstd::arithmetic::div_mod::lemma_mod_bound(a * u, n * SCALE);
        assert(SCALE * b <= u * a) by (nonlinear_arith)
            requires
                a * u == (n * SCALE) * b + (a * u) % (n * SCALE),
                0 <= (a * u) % (n * SCALE),
                n >= 1,
                0 <= b,
        ;
        assert((SCALE - u) * (e + b) <= SCALE * EXP_UNIT - u * b) by (nonlinear_arith)
            requires
                (SCALE - u) * e <= SCALE * EXP_UNIT - u * a,
                SCALE * b <= u * a,
        ;
    }
}

/// `exp(-u)` is at least `1 - u`.
pub proof fn lemma_exp_neg_lower(u: int)
    requires
        0 <= u,
    ensures
        spec_exp_neg(u) >= SCALE - u,
{
    lemma_exp_neg_range(u);
    if u <= SCALE {
        let e = exp_series(u, EXP_TERMS as nat);
        lemma_exp_series_geometric(u, EXP_TERMS as nat);
        lemma_exp_term_monotonic(u, u, EXP_TERMS as nat);
        lemma_exp_series_dominates(u, EXP_TERMS as nat, 0);
        assert(u * exp_term(u, EXP_TERMS as nat) >= 0) by (nonlinear_arith)
            requires
                0 <= u,
                0 <= exp_term(u, EXP_TERMS as nat),
        ;
        lemma_round_div_bounds(SCALE * EXP_UNIT, e, SCALE - u);
    }
}

/// At its mean a lobe is one, whatever its two widths: the switch from one
/// width to the other makes no step.
pub proof fn lemma_lobe_at_mean(mean: int, below: int, above: int)
    ensures
        spec_lobe(mean, mean, below, above) == SCALE,
{
    assert((mean - mean) * above == 0);
    assert(((mean - mean) * above) * ((mean - mean) * above) == 0) by (nonlinear_arith)
        requires
            (mean - mean) * above == 0,
    ;
    lemma_round_div_bounds(0, HALF_SQUARE as int, 0);
    lemma_exp_neg_at_zero();
}

/// Near its mean a lobe is near one: on either side it falls short of one by
/// no more than its exponent, half the square of the distance in widths.
pub proof fn lemma_lobe_near_mean(wave: int, mean: int, below: int, above: int)
    ensures
        SCALE - lobe_exponent(wave, mean, if wave < mean { below } else { above }) <= spec_lobe(
            wave,
            mean,
            below,
            above,
        ) <= SCALE,
{
    let width = if wave < mean { below } else { above };
    let t = (wave - mean) * width;
    assert(t * t >= 0) by (nonlinear_arith);
    lemma_round_div_bounds(t * t, HALF_SQUARE as int, 0);
    lemma_exp_neg_lower(lobe_exponent(wave, mean, width));
    lemma_exp_neg_range(lobe_exponent(wave, mean, width));
}

/// From the cutoff on, `exp(-u)` is zero.
pub proof fn lemma_exp_neg_beyond_cutoff(u: int)
    requires
        u >= EXP_CUTOFF,
    ensures
        spec_exp_neg(u) == 0,
{
    let c = EXP_CUTOFF as int;
    let e = exp_series(u, EXP_TERMS as nat);
    lemma_cutoff_table(16);
    lemma_exp_term_monotonic(c, u, 16);
    lemma_exp_series_dominates(u, EXP_TERMS as nat, 16);
    lemma_basic_div(2 * (SCALE * EXP_UNIT) + e, 2 * e);
}

/// `exp(-u)` in millionths, for `u >= 0` in millionths.
pub fn exp_neg(u: i64) -> (r: i64)
    requires
        u >= 0,
    ensures
        r == spec_exp_neg(u as int),
        0 <= r <= SCALE,
{
    proof {
        lemma_exp_neg_range(u as int);
    }
    if u >= EXP_CUTOFF {
        proof {
            lemma_exp_neg_beyond_cutoff(u as int);
        }
        return 0;
    }
    let mut term: i128 = EXP_UNIT;
    let mut sum: i128 = EXP_UNIT;
    let mut k: i128 = 1;
    while k <= EXP_TERMS as i128
        invariant
            1 <= k <= EXP_TERMS + 1,
            0 <= u < EXP_CUTOFF,
            term == exp_term(u as int, (k - 1) as nat),
            sum == exp_series(u as int, (k - 1) as nat),
            0 <= term <= TERM_LIMIT,
            EXP_UNIT <= sum <= k * TERM_LIMIT,
        decreases EXP_TERMS + 1 - k,
    {
        proof {
            lemma_exp_term_limit(u as int, k as nat);
            assert(0 <= term * u <= TERM_LIMIT * EXP_CUTOFF) by (nonlinear_arith)
                requires
                    0 <= term <= TERM_LIMIT,
                    0 <= u <= EXP_CUTOFF,
            ;
        }
        term = term * (u as i128) / (k * (SCALE as i128));
        sum = sum + term;
        k = k + 1;
    }
    div_round((SCALE as i128) * EXP_UNIT, sum) as i64
}

/// A Gaussian lobe with two widths, in millionths: see [`spec_lobe`]. The
/// wavelength and the mean are in millionths of a nanometre, the widths in
/// millionths per nanometre.
pub fn lobe(wave: i64, mean: i64, below: u32, above: u32) -> (r: i64)
    ensures
        r == spec_lobe(wave as int, mean as int, below as int, above as int),
        0 <= r <= SCALE,
{
    let width: i128 = if wave < mean {
        below as i128
    } else {
        above as i128
    };
    let offset: i128 = wave as i128 - mean as i128;
    proof {
        assert(-0x1_0000_0000_0000_0000_0000_0000 <= offset * width
            <= 0x1_0000_0000_0000_0000_0000_0000) by (nonlinear_arith)
            requires
                -0x1_0000_0000_0000_0000 <= offset <= 0x1_0000_0000_0000_0000,
                0 <= width <= 0xffff_ffff,
        ;
    }
    let t: i128 = offset * width;
    let ghost exponent = lobe_exponent(wave as int, mean as int, width as int);
    if t >= REACH || t <= -REACH {
        proof {
            assert(t * t >= REACH * REACH) by (nonlinear_arith)
                requires
                    t >= REACH || t <= -REACH,
                    REACH >= 0,
            ;
            lemma_round_div_bounds(t * t, HALF_SQUARE as int, EXP_CUTOFF as int);
            lemma_exp_neg_beyond_cutoff(exponent);
        }
        return 0;
    }
    proof {
        assert(0 <= t * t <= REACH * REACH) by (nonlinear_arith)
            requires
                -REACH < t < REACH,
        ;
        lemma_round_div_bounds(t * t, HALF_SQUARE as int, 0);
        lemma_round_div_bounds(t * t, HALF_SQUARE as int, 18_000_000);
    }
    let u: i128 = div_round(t * t, HALF_SQUARE);
    exp_neg(u as i64)
}

} // verus!
