//! From a spectral power distribution to a tristimulus value.

use vstd::prelude::*;
use crate::cmf::{evaluate_cmf, spec_xfit_1931, spec_yfit_1931, spec_zfit_1931, RESPONSE_LIMIT};
use crate::color::Xyz;
use crate::fixed::{
    clamp_i64, div_round, lemma_round_div_additive, lemma_round_div_bounds,
    lemma_round_div_scaled, round_div, saturate, SCALE,
};

verus! {

/// The response of the standard observer in one channel: 0 for x̄, 1 for ȳ,
/// anything else for z̄.
pub open spec fn response(wave: int, channel: int) -> int {
    if channel == 0 {
        spec_xfit_1931(wave)
    } else if channel == 1 {
        spec_yfit_1931(wave)
    } else {
        spec_zfit_1931(wave)
    }
}

/// The sum over the samples of power times response, in one channel. It is
/// exact, in millionths of a millionth.
pub open spec fn weighted_sum(samples: Seq<(i64, i64)>, channel: int) -> int
    decreases samples.len(),
{
    if samples.len() == 0 {
        0
    } else {
        weighted_sum(samples.drop_last(), channel) + samples.last().1 * response(
            samples.last().0 as int,
            channel,
        )
    }
}

/// One component of a tristimulus value: the weighted sum of a channel,
/// rounded to the nearest millionth and kept within `i64`.
pub open spec fn tristimulus(samples: Seq<(i64, i64)>, channel: int) -> int {
    clamp_i64(round_div(weighted_sum(samples, channel), SCALE as int))
}

/// The tristimulus value of a spectral power distribution.
pub open spec fn spec_integrate(samples: Seq<(i64, i64)>) -> Xyz {
    Xyz {
        x: tristimulus(samples, 0) as i64,
        y: tristimulus(samples, 1) as i64,
        z: tristimulus(samples, 2) as i64,
    }
}

/// Two to the power 64: the weight of the upper half of a [`Wide`] sum.
const HALF: u128 = 0x1_0000_0000_0000_0000;

/// A sum of products that cannot overflow: `hi * 2^64 + lo`.
struct Wide {
    hi: i128,
    lo: u128,
}

impl Wide {
    spec fn value(self) -> int {
        self.hi * HALF + self.lo
    }

    /// What holds of the two halves after `n` products.
    spec fn holds(self, n: int) -> bool {
        &&& -n * 0x20_0000 <= self.hi <= n * 0x20_0000
        &&& self.lo <= n * 0xffff_ffff_ffff_ffff
    }

    fn zero() -> (w: Wide)
        ensures
            w.value() == 0,
            w.holds(0),
    {
        Wide { hi: 0, lo: 0 }
    }

    /// Adds `power * weight` to the sum.
    fn add_product(self, power: i64, weight: i64, Ghost(n): Ghost<int>) -> (w: Wide)
        requires
            self.holds(n),
            0 <= n < 0xffff_ffff_ffff_ffff,
            -RESPONSE_LIMIT <= weight <= RESPONSE_LIMIT,
        ensures
            w.holds(n + 1),
            w.value() == self.value() + power * weight,
    {
        proof {
            assert(-0x20_0000 * 0x8000_0000_0000_0000 <= power * weight <= 0x20_0000
                * 0x8000_0000_0000_0000) by (nonlinear_arith)
                requires
                    -0x8000_0000_0000_0000 <= power <= 0x8000_0000_0000_0000,
                    -0x20_0000 <= weight <= 0x20_0000,
            ;
        }
        let t: i128 = (power as i128) * (weight as i128);
        let (upper, lower): (i128, u128) = if t >= 0 {
            (t / (HALF as i128), (t % (HALF as i128)) as u128)
        } else {
            let q: i128 = (-t) / (HALF as i128);
            let r: i128 = (-t) % (HALF as i128);
            if r == 0 {
                (-q, 0)
            } else {
                (-q - 1, (HALF as i128 - r) as u128)
            }
        };
        assert(t == upper * HALF + lower);
        assert(lower < HALF);
        assert(-0x20_0000 <= upper <= 0x20_0000);
        proof {
            assert(n * 0xffff_ffff_ffff_ffff <= 0xffff_ffff_ffff_fffe * 0xffff_ffff_ffff_ffff)
                by (nonlinear_arith)
                requires
                    0 <= n <= 0xffff_ffff_ffff_fffe,
            ;
            assert(n * 0x20_0000 <= 0xffff_ffff_ffff_fffe * 0x20_0000) by (nonlinear_arith)
                requires
                    0 <= n <= 0xffff_ffff_ffff_fffe,
            ;
        }
        Wide { hi: self.hi + upper, lo: self.lo + lower }
    }

    /// The sum as a number of millionths, rounded to the nearest and kept
    /// within `i64`.
    fn round(self, Ghost(n): Ghost<int>) -> (r: i64)
        requires
            self.holds(n),
            0 <= n <= 0xffff_ffff_ffff_ffff,
        ensures
            r == clamp_i64(round_div(self.value(), SCALE as int)),
    {
        proof {
            assert(n * 0x20_0000 <= 0xffff_ffff_ffff_ffff * 0x20_0000) by (nonlinear_arith)
                requires
                    0 <= n <= 0xffff_ffff_ffff_ffff,
            ;
        }
        let carry: i128 = (self.lo / HALF) as i128;
        let low: i128 = (self.lo % HALF) as i128;
        let high: i128 = self.hi + carry;
        assert(self.value() == high * HALF + low);
        if high >= 0x1_0000_0000_0000 {
            proof {
                lemma_round_div_bounds(self.value(), SCALE as int, i64::MAX as int);
            }
            i64::MAX
        } else if high < -0x1_0000_0000_0000 {
            proof {
                lemma_round_div_bounds(self.value(), SCALE as int, i64::MIN as int);
            }
            i64::MIN
        } else {
            saturate(div_round(high * (HALF as i128) + low, SCALE as i128))
        }
    }
}

/// Integrates a spectral power distribution against the colour-matching
/// functions: each component is the sum over the samples of power times
/// response, rounded once at the end. Every sample counts once, whatever its
/// spacing from the others, and nothing is interpolated. A distribution
/// without samples gives zero. No power is refused, a negative one neither.
pub fn integrate(samples: &[(i64, i64)]) -> (xyz: Xyz)
    ensures
        xyz == spec_integrate(samples@),
        samples@.len() == 0 ==> xyz == (Xyz { x: 0, y: 0, z: 0 }),
{
    let mut x = Wide::zero();
    let mut y = Wide::zero();
    let mut z = Wide::zero();
    let mut i: usize = 0;
    assert(samples@.take(0) =~= Seq::empty());
    while i < samples.len()
        invariant
            i <= samples.len(),
            x.holds(i as int),
            y.holds(i as int),
            z.holds(i as int),
            x.value() == weighted_sum(samples@.take(i as int), 0),
            y.value() == weighted_sum(samples@.take(i as int), 1),
            z.value() == weighted_sum(samples@.take(i as int), 2),
        decreases samples.len() - i,
    {
        let (wave, power): (i64, i64) = samples[i];
        let (cx, cy, cz): (i64, i64, i64) = evaluate_cmf(wave);
        x = x.add_product(power, cx, Ghost(i as int));
        y = y.add_product(power, cy, Ghost(i as int));
        z = z.add_product(power, cz, Ghost(i as int));
        proof {
            let next = samples@.take(i + 1);
            assert(next.drop_last() =~= samples@.take(i as int));
            assert(next.last() == samples@[i as int]);
        }
        i = i + 1;
    }
    assert(samples@.take(i as int) =~= samples@);
    Xyz { x: x.round(Ghost(i as int)), y: y.round(Ghost(i as int)), z: z.round(Ghost(i as int)) }
}

/// The samples of a distribution that is given at evenly spaced wavelengths:
/// the power at index `i` belongs to the wavelength `start + i * interval`.
/// A wavelength beyond the range of `i64` goes to the nearer end.
pub open spec fn spec_uniform_samples(start: int, interval: int, powers: Seq<i64>) -> Seq<
    (i64, i64),
> {
    Seq::new(powers.len(), |i: int| (clamp_i64(start + i * interval) as i64, powers[i]))
}

/// Lays a distribution that is given at evenly spaced wavelengths out as
/// samples: the power at index `i` with the wavelength `start + i * interval`.
pub fn uniform_samples(start: i64, interval: i64, powers: &[i64]) -> (samples: Vec<(i64, i64)>)
    ensures
        samples@ == spec_uniform_samples(start as int, interval as int, powers@),
{
    let mut samples: Vec<(i64, i64)> = Vec::new();
    let mut i: usize = 0;
    while i < powers.len()
        invariant
            i <= powers.len(),
            samples@.len() == i,
            forall|j: int|
                0 <= j < i ==> samples@[j] == (
                    clamp_i64(start + j * interval) as i64,
                    powers@[j],
                ),
        decreases powers.len() - i,
    {
        proof {
            assert(-0x7fff_ffff_ffff_ffff_8000_0000_0000_0000 <= i * interval
                <= 0x7fff_ffff_ffff_ffff_8000_0000_0000_0000) by (nonlinear_arith)
                requires
                    0 <= i <= 0xffff_ffff_ffff_ffff,
                    -0x8000_0000_0000_0000 <= interval <= 0x8000_0000_0000_0000,
            ;
        }
        let wave: i128 = (start as i128) + (i as i128) * (interval as i128);
        samples.push((saturate(wave), powers[i]));
        i = i + 1;
    }
    assert(samples@ =~= spec_uniform_samples(start as int, interval as int, powers@));
    samples
}

/// Whether a component of the tristimulus value of `samples` is within `i64`
/// without being cut off.
pub open spec fn representable(samples: Seq<(i64, i64)>, channel: int) -> bool {
    i64::MIN <= round_div(weighted_sum(samples, channel), SCALE as int) <= i64::MAX
}

/// Whether `sum` has the wavelengths of `first` and of `second`, and at each
/// of them the two powers added.
pub open spec fn is_pointwise_sum(
    sum: Seq<(i64, i64)>,
    first: Seq<(i64, i64)>,
    second: Seq<(i64, i64)>,
) -> bool {
    &&& sum.len() == first.len()
    &&& sum.len() == second.len()
    &&& forall|i: int|
        0 <= i < sum.len() ==> (#[trigger] sum[i]).0 == first[i].0 && sum[i].0 == second[i].0
            && sum[i].1 == first[i].1 + second[i].1
}

/// Whether `scaled` has the wavelengths of `samples`, and at each of them
/// `k` times the power.
pub open spec fn is_scaled(scaled: Seq<(i64, i64)>, samples: Seq<(i64, i64)>, k: int) -> bool {
    &&& scaled.len() == samples.len()
    &&& forall|i: int|
        0 <= i < scaled.len() ==> (#[trigger] scaled[i]).0 == samples[i].0 && scaled[i].1 == k
            * samples[i].1
}

/// The weighted sum of two distributions laid end to end is the sum of their
/// weighted sums.
pub proof fn lemma_weighted_sum_concat(
    first: Seq<(i64, i64)>,
    second: Seq<(i64, i64)>,
    channel: int,
)
    ensures
        weighted_sum(first + second, channel) == weighted_sum(first, channel) + weighted_sum(
            second,
            channel,
        ),
    decreases second.len(),
{
    if second.len() == 0 {
        assert(first + second =~= first);
    } else {
        assert((first + second).drop_last() =~= first + second.drop_last());
        assert((first + second).last() == second.last());
        lemma_weighted_sum_concat(first, second.drop_last(), channel);
    }
}

/// The weighted sum of two distributions added power by power is the sum of
/// their weighted sums.
pub proof fn lemma_weighted_sum_pointwise(
    sum: Seq<(i64, i64)>,
    first: Seq<(i64, i64)>,
    second: Seq<(i64, i64)>,
    channel: int,
)
    requires
        is_pointwise_sum(sum, first, second),
    ensures
        weighted_sum(sum, channel) == weighted_sum(first, channel) + weighted_sum(second, channel),
    decreases sum.len(),
{
    if sum.len() > 0 {
        let n = sum.len() - 1;
        assert(sum[n].0 == first[n].0 && sum[n].0 == second[n].0 && sum[n].1 == first[n].1
            + second[n].1);
        assert(is_pointwise_sum(sum.drop_last(), first.drop_last(), second.drop_last())) by {
            assert forall|i: int| 0 <= i < sum.drop_last().len() implies (
            #[trigger] sum.drop_last()[i]).0 == first.drop_last()[i].0 && sum.drop_last()[i].0
                == second.drop_last()[i].0 && sum.drop_last()[i].1 == first.drop_last()[i].1
                + second.drop_last()[i].1 by {
                assert(sum[i].0 == first[i].0);
            }
        }
        lemma_weighted_sum_pointwise(
            sum.drop_last(),
            first.drop_last(),
            second.drop_last(),
            channel,
        );
        let w = response(sum[n].0 as int, channel);
        assert((first[n].1 + second[n].1) * w == first[n].1 * w + second[n].1 * w)
            by (nonlinear_arith);
    }
}

/// The weighted sum of a distribution with every power multiplied by `k` is
/// `k` times its weighted sum.
pub proof fn lemma_weighted_sum_scaled(
    scaled: Seq<(i64, i64)>,
    samples: Seq<(i64, i64)>,
    k: int,
    channel: int,
)
    requires
        is_scaled(scaled, samples, k),
    ensures
        weighted_sum(scaled, channel) == k * weighted_sum(samples, channel),
    decreases scaled.len(),
{
    if scaled.len() > 0 {
        let n = scaled.len() - 1;
        assert(scaled[n].0 == samples[n].0 && scaled[n].1 == k * samples[n].1);
        assert(is_scaled(scaled.drop_last(), samples.drop_last(), k)) by {
            assert forall|i: int| 0 <= i < scaled.drop_last().len() implies (
            #[trigger] scaled.drop_last()[i]).0 == samples.drop_last()[i].0
                && scaled.drop_last()[i].1 == k * samples.drop_last()[i].1 by {
                assert(scaled[i].0 == samples[i].0);
            }
        }
        lemma_weighted_sum_scaled(scaled.drop_last(), samples.drop_last(), k, channel);
        let w = response(scaled[n].0 as int, channel);
        let rest = weighted_sum(samples.drop_last(), channel);
        assert(k * rest + (k * samples[n].1) * w == k * (rest + samples[n].1 * w))
            by (nonlinear_arith);
    } else {
        assert(k * 0 == 0);
    }
}

/// The weighted sum of one sample is its power times the response.
proof fn lemma_weighted_sum_single(sample: (i64, i64), channel: int)
    ensures
        weighted_sum(seq![sample], channel) == sample.1 * response(sample.0 as int, channel),
{
    assert(seq![sample].drop_last() =~= Seq::<(i64, i64)>::empty());
    assert(seq![sample].last() == sample);
    assert(weighted_sum(seq![sample].drop_last(), channel) == 0);
}

/// Taking a sample out takes its product out of the weighted sum.
proof fn lemma_weighted_sum_remove(samples: Seq<(i64, i64)>, i: int, channel: int)
    requires
        0 <= i < samples.len(),
    ensures
        weighted_sum(samples, channel) == weighted_sum(samples.remove(i), channel) + samples[i].1
            * response(samples[i].0 as int, channel),
{
    let head = samples.subrange(0, i);
    let tail = samples.subrange(i + 1, samples.len() as int);
    assert(samples =~= (head + seq![samples[i]]) + tail);
    lemma_weighted_sum_concat(head + seq![samples[i]], tail, channel);
    lemma_weighted_sum_concat(head, seq![samples[i]], channel);
    lemma_weighted_sum_single(samples[i], channel);
    lemma_weighted_sum_concat(head, tail, channel);
}

/// The weighted sum does not depend on the order of the samples: two
/// distributions with the same samples, each as often in the one as in the
/// other, have the same weighted sum.
pub proof fn lemma_weighted_sum_permutation(
    first: Seq<(i64, i64)>,
    second: Seq<(i64, i64)>,
    channel: int,
)
    requires
        first.to_multiset() == second.to_multiset(),
    ensures
        weighted_sum(first, channel) == weighted_sum(second, channel),
    decreases first.len(),
{
    first.to_multiset_ensures();
    second.to_multiset_ensures();
    if first.len() > 0 {
        let n = first.len() - 1;
        let x = first[n];
        assert(first.contains(x));
        assert(first.to_multiset().count(x) > 0);
        assert(second.to_multiset().count(x) > 0);
        assert(second.contains(x));
        let i = choose|i: int| 0 <= i < second.len() && second[i] == x;
        assert(first.remove(n) =~= first.drop_last());
        assert(first.remove(n).to_multiset() == second.remove(i).to_multiset());
        first.remove_ensures(n);
        lemma_weighted_sum_permutation(first.drop_last(), second.remove(i), channel);
        lemma_weighted_sum_remove(second, i, channel);
    } else {
        assert(second.len() == 0);
    }
}

/// Additivity of the result: where nothing is cut off, a component of the
/// tristimulus value of two distributions laid end to end is within one
/// millionth of the sum of their components.
pub proof fn lemma_integrate_additive(
    first: Seq<(i64, i64)>,
    second: Seq<(i64, i64)>,
    channel: int,
)
    requires
        representable(first, channel),
        representable(second, channel),
        representable(first + second, channel),
    ensures
        -1 <= tristimulus(first + second, channel) - (tristimulus(first, channel) + tristimulus(
            second,
            channel,
        )) <= 1,
{
    lemma_weighted_sum_concat(first, second, channel);
    lemma_round_div_additive(
        weighted_sum(first, channel),
        weighted_sum(second, channel),
        SCALE as int,
    );
}

/// Additivity of the result, power by power: where nothing is cut off, a
/// component of the tristimulus value of two distributions added power by
/// power is within one millionth of the sum of their components.
pub proof fn lemma_integrate_pointwise(
    sum: Seq<(i64, i64)>,
    first: Seq<(i64, i64)>,
    second: Seq<(i64, i64)>,
    channel: int,
)
    requires
        is_pointwise_sum(sum, first, second),
        representable(first, channel),
        representable(second, channel),
        representable(sum, channel),
    ensures
        -1 <= tristimulus(sum, channel) - (tristimulus(first, channel) + tristimulus(
            second,
            channel,
        )) <= 1,
{
    lemma_weighted_sum_pointwise(sum, first, second, channel);
    lemma_round_div_additive(
        weighted_sum(first, channel),
        weighted_sum(second, channel),
        SCALE as int,
    );
}

/// Homogeneity of the result: where nothing is cut off, a component of the
/// tristimulus value of a distribution with every power multiplied by `k`,
/// for `k >= 0`, is within `k / 2` millionths of `k` times the component.
pub proof fn lemma_integrate_scaled(
    scaled: Seq<(i64, i64)>,
    samples: Seq<(i64, i64)>,
    k: int,
    channel: int,
)
    requires
        k >= 0,
        is_scaled(scaled, samples, k),
        representable(scaled, channel),
        representable(samples, channel),
    ensures
        -k <= 2 * (tristimulus(scaled, channel) - k * tristimulus(samples, channel)) <= k,
{
    lemma_weighted_sum_scaled(scaled, samples, k, channel);
    lemma_round_div_scaled(weighted_sum(samples, channel), SCALE as int, k);
}

} // verus!
