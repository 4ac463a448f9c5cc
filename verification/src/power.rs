//! Powers with a rational exponent, exact to the last unit.

use vstd::prelude::*;
use vstd::arithmetic::power::{lemma0_pow, lemma_pow_adds, lemma_pow_positive, pow};
use crate::bignat::{lemma_pow_step, BigNat};
use crate::fixed::SCALE;

verus! {

/// Whether `y` is `v` to the power `p / q`, rounded down, all in millionths:
/// `(y / 10^6)^q <= (v / 10^6)^p < ((y + 1) / 10^6)^q`, with the
/// denominators cleared.
pub open spec fn is_power_floor(y: int, v: int, p: nat, q: nat) -> bool {
    &&& 0 <= y
    &&& pow(y, q) <= pow(v, p) * pow(SCALE as int, (q - p) as nat)
    &&& pow(v, p) * pow(SCALE as int, (q - p) as nat) < pow(y + 1, q)
}

/// `v` to the power `p / q`, rounded down, in millionths.
pub open spec fn spec_power_floor(v: int, p: nat, q: nat) -> int {
    choose|y: int| is_power_floor(y, v, p, q)
}

/// A power grows with its base.
pub proof fn lemma_pow_base_monotonic(a: int, b: int, e: nat)
    requires
        0 <= a <= b,
    ensures
        0 <= pow(a, e) <= pow(b, e),
    decreases e,
{
    if e == 0 {
        reveal(pow);
    } else {
        lemma_pow_base_monotonic(a, b, (e - 1) as nat);
        lemma_pow_step(a, (e - 1) as nat);
        lemma_pow_step(b, (e - 1) as nat);
        assert(0 <= a * pow(a, (e - 1) as nat) <= b * pow(b, (e - 1) as nat)) by (nonlinear_arith)
            requires
                0 <= a <= b,
                0 <= pow(a, (e - 1) as nat) <= pow(b, (e - 1) as nat),
        ;
    }
}

/// A power with a positive exponent grows strictly with its base.
pub proof fn lemma_pow_base_strict(a: int, b: int, e: nat)
    requires
        0 <= a < b,
        e > 0,
    ensures
        pow(a, e) < pow(b, e),
{
    lemma_pow_base_monotonic(a, b, (e - 1) as nat);
    lemma_pow_step(a, (e - 1) as nat);
    lemma_pow_step(b, (e - 1) as nat);
    lemma_pow_positive(b, (e - 1) as nat);
    assert(a * pow(a, (e - 1) as nat) < b * pow(b, (e - 1) as nat)) by (nonlinear_arith)
        requires
            0 <= a < b,
            0 <= pow(a, (e - 1) as nat) <= pow(b, (e - 1) as nat),
            0 < pow(b, (e - 1) as nat),
    ;
}

/// There is one power rounded down, not two.
pub proof fn lemma_power_floor_unique(y1: int, y2: int, v: int, p: nat, q: nat)
    requires
        q > 0,
        is_power_floor(y1, v, p, q),
        is_power_floor(y2, v, p, q),
    ensures
        y1 == y2,
{
    if y1 < y2 {
        lemma_pow_base_monotonic(y1 + 1, y2, q);
    }
    if y2 < y1 {
        lemma_pow_base_monotonic(y2 + 1, y1, q);
    }
}

/// A power rounded down is the power rounded down.
pub proof fn lemma_power_floor_is(y: int, v: int, p: nat, q: nat)
    requires
        q > 0,
        is_power_floor(y, v, p, q),
    ensures
        y == spec_power_floor(v, p, q),
{
    lemma_power_floor_unique(y, spec_power_floor(v, p, q), v, p, q);
}

/// The power of a number at most `m`, for `m` at least one, is at most `m`.
proof fn lemma_power_below(v: int, m: int, p: nat, q: nat)
    requires
        0 <= v <= m,
        SCALE <= m,
        p <= q,
    ensures
        0 <= pow(v, p) * pow(SCALE as int, (q - p) as nat) <= pow(m, q),
{
    let r = (q - p) as nat;
    lemma_pow_base_monotonic(v, m, p);
    lemma_pow_base_monotonic(SCALE as int, m, r);
    lemma_pow_adds(m, p, r);
    assert(0 <= pow(v, p) * pow(SCALE as int, r) <= pow(m, p) * pow(m, r)) by (nonlinear_arith)
        requires
            0 <= pow(v, p) <= pow(m, p),
            0 <= pow(SCALE as int, r) <= pow(m, r),
    ;
}

/// The largest `y` up to `n` with `y^q <= t`.
spec fn root_below(n: nat, t: int, q: nat) -> int
    decreases n,
{
    if n == 0 {
        0
    } else if pow(n as int, q) <= t {
        n as int
    } else {
        root_below((n - 1) as nat, t, q)
    }
}

proof fn lemma_root_below(n: nat, t: int, q: nat)
    requires
        q > 0,
        0 <= t < pow(n as int + 1, q),
    ensures
        0 <= root_below(n, t, q),
        pow(root_below(n, t, q), q) <= t < pow(root_below(n, t, q) + 1, q),
    decreases n,
{
    if n == 0 {
        lemma0_pow(q);
    } else if pow(n as int, q) <= t {
    } else {
        lemma_root_below((n - 1) as nat, t, q);
    }
}

/// Every number that is not negative has a power rounded down.
pub proof fn lemma_power_floor_exists(v: int, p: nat, q: nat)
    requires
        0 <= v,
        p <= q,
        q > 0,
    ensures
        is_power_floor(spec_power_floor(v, p, q), v, p, q),
{
    let m = if v > SCALE { v } else { SCALE as int };
    let t = pow(v, p) * pow(SCALE as int, (q - p) as nat);
    lemma_power_below(v, m, p, q);
    lemma_pow_base_strict(m, m + 1, q);
    lemma_root_below(m as nat, t, q);
    assert(is_power_floor(root_below(m as nat, t, q), v, p, q));
}

/// A power rounded down never falls as its base grows.
pub proof fn lemma_power_floor_monotonic(v1: int, v2: int, p: nat, q: nat)
    requires
        0 <= v1 <= v2,
        p <= q,
        q > 0,
    ensures
        spec_power_floor(v1, p, q) <= spec_power_floor(v2, p, q),
{
    let y1 = spec_power_floor(v1, p, q);
    let y2 = spec_power_floor(v2, p, q);
    let s = pow(SCALE as int, (q - p) as nat);
    lemma_power_floor_exists(v1, p, q);
    lemma_power_floor_exists(v2, p, q);
    lemma_pow_base_monotonic(v1, v2, p);
    lemma_pow_positive(SCALE as int, (q - p) as nat);
    assert(pow(v1, p) * s <= pow(v2, p) * s) by (nonlinear_arith)
        requires
            pow(v1, p) <= pow(v2, p),
            0 < s,
    ;
    if y2 < y1 {
        lemma_pow_base_monotonic(y2 + 1, y1, q);
    }
}

/// A power rounded down is at least every number whose own power is not
/// above the base's.
pub proof fn lemma_power_floor_at_least(y: int, v: int, p: nat, q: nat)
    requires
        0 <= y,
        0 <= v,
        p <= q,
        q > 0,
        pow(y, q) <= pow(v, p) * pow(SCALE as int, (q - p) as nat),
    ensures
        y <= spec_power_floor(v, p, q),
{
    let f = spec_power_floor(v, p, q);
    lemma_power_floor_exists(v, p, q);
    if f < y {
        lemma_pow_base_monotonic(f + 1, y, q);
    }
}

/// A power rounded down is below every number whose own power is above the
/// base's.
pub proof fn lemma_power_floor_below(y: int, v: int, p: nat, q: nat)
    requires
        0 <= y,
        0 <= v,
        p <= q,
        q > 0,
        pow(v, p) * pow(SCALE as int, (q - p) as nat) < pow(y, q),
    ensures
        spec_power_floor(v, p, q) < y,
{
    let f = spec_power_floor(v, p, q);
    lemma_power_floor_exists(v, p, q);
    if y <= f {
        lemma_pow_base_monotonic(y, f, q);
    }
}

/// `base` to the power `e`.
fn big_pow(base: u64, e: u32) -> (r: BigNat)
    ensures
        r@ == pow(base as int, e as nat),
{
    let mut r = BigNat::from_u64(1);
    let mut i: u32 = 0;
    proof {
        reveal(pow);
    }
    while i < e
        invariant
            i <= e,
            r@ == pow(base as int, i as nat),
        decreases e - i,
    {
        proof {
            lemma_pow_step(base as int, i as nat);
        }
        r = r.times(base);
        i = i + 1;
    }
    r
}

/// Raises `v` to the power `p / q` and rounds down, `v` and the result in
/// millionths: the result is the largest `y` with
/// `(y / 10^6)^q <= (v / 10^6)^p`. No rounding error enters: the two sides are
/// compared as whole numbers.
pub fn power_floor(v: i64, p: u32, q: u32) -> (y: i64)
    requires
        0 <= v,
        p <= q,
        0 < q,
    ensures
        is_power_floor(y as int, v as int, p as nat, q as nat),
        y == spec_power_floor(v as int, p as nat, q as nat),
        v <= SCALE ==> y <= SCALE,
        v >= SCALE ==> y <= v,
{
    let scale: u64 = SCALE as u64;
    let mut target = big_pow(v as u64, p);
    let mut i: u32 = p;
    proof {
        reveal(pow);
        assert(pow(v as int, p as nat) * 1 == pow(v as int, p as nat)) by (nonlinear_arith);
    }
    while i < q
        invariant
            p <= i <= q,
            scale == SCALE,
            target@ == pow(v as int, p as nat) * pow(SCALE as int, (i - p) as nat),
        decreases q - i,
    {
        proof {
            lemma_pow_step(SCALE as int, (i - p) as nat);
            assert((pow(v as int, p as nat) * pow(SCALE as int, (i - p) as nat)) * scale == pow(
                v as int,
                p as nat,
            ) * (pow(SCALE as int, (i - p) as nat) * scale)) by (nonlinear_arith);
        }
        target = target.times(scale);
        i = i + 1;
    }
    let most: u64 = if v as u64 > scale {
        v as u64
    } else {
        scale
    };
    let mut lo: u64 = 0;
    let mut hi: u64 = most + 1;
    proof {
        lemma0_pow(q as nat);
        lemma_power_below(v as int, most as int, p as nat, q as nat);
        lemma_pow_base_strict(most as int, most + 1, q as nat);
    }
    while hi - lo > 1
        invariant
            0 <= lo < hi <= most + 1,
            most < 0x8000_0000_0000_0000,
            0 < q,
            target@ == pow(v as int, p as nat) * pow(SCALE as int, (q - p) as nat),
            pow(lo as int, q as nat) <= target@ < pow(hi as int, q as nat),
        decreases hi - lo,
    {
        let mid: u64 = lo + (hi - lo) / 2;
        let candidate = big_pow(mid, q);
        if candidate.le(&target) {
            lo = mid;
        } else {
            hi = mid;
        }
    }
    proof {
        lemma_power_floor_is(lo as int, v as int, p as nat, q as nat);
    }
    lo as i64
}

} // verus!
