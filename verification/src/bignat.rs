//! Natural numbers of any size, with the two operations that an exact
//! comparison of powers needs: multiplying by a machine word, and ordering.

use vstd::prelude::*;
use vstd::arithmetic::power::{lemma_pow0, lemma_pow_increases, lemma_pow_positive, pow};

verus! {

/// The weight of one limb over the one below it: two to the power 64.
pub const LIMB_BASE: u128 = 0x1_0000_0000_0000_0000;

/// The number that a sequence of limbs stands for, the least significant
/// limb first.
pub open spec fn limbs_value(limbs: Seq<u64>) -> int
    decreases limbs.len(),
{
    if limbs.len() == 0 {
        0
    } else {
        limbs_value(limbs.drop_last()) + limbs.last() * pow(
            LIMB_BASE as int,
            (limbs.len() - 1) as nat,
        )
    }
}

/// A natural number of any size.
pub struct BigNat {
    limbs: Vec<u64>,
}

impl View for BigNat {
    type V = int;

    closed spec fn view(&self) -> int {
        limbs_value(self.limbs@)
    }
}

/// One more factor in a power.
pub proof fn lemma_pow_step(b: int, e: nat)
    ensures
        pow(b, e + 1) == b * pow(b, e),
        pow(b, e + 1) == pow(b, e) * b,
{
    reveal(pow);
    assert(b * pow(b, e) == pow(b, e) * b) by (nonlinear_arith);
}

/// A number of `n` limbs is below the `n`-th power of the base, and not
/// negative.
pub proof fn lemma_limbs_value_bound(limbs: Seq<u64>)
    ensures
        0 <= limbs_value(limbs) < pow(LIMB_BASE as int, limbs.len()),
    decreases limbs.len(),
{
    if limbs.len() == 0 {
        lemma_pow0(LIMB_BASE as int);
    } else {
        let n = (limbs.len() - 1) as nat;
        let w = pow(LIMB_BASE as int, n);
        lemma_limbs_value_bound(limbs.drop_last());
        lemma_pow_step(LIMB_BASE as int, n);
        lemma_pow_positive(LIMB_BASE as int, n);
        assert(0 <= limbs.last() * w <= (LIMB_BASE - 1) * w) by (nonlinear_arith)
            requires
                0 <= limbs.last() <= LIMB_BASE - 1,
                0 < w,
        ;
        assert((LIMB_BASE - 1) * w + w == LIMB_BASE * w) by (nonlinear_arith);
    }
}

/// The value of the first `i + 1` limbs, from that of the first `i`.
proof fn lemma_take_step(limbs: Seq<u64>, i: int)
    requires
        0 <= i < limbs.len(),
    ensures
        limbs_value(limbs.take(i + 1)) == limbs_value(limbs.take(i)) + limbs[i] * pow(
            LIMB_BASE as int,
            i as nat,
        ),
{
    assert(limbs.take(i + 1).drop_last() =~= limbs.take(i));
}

impl BigNat {
    /// The number `n`.
    pub fn from_u64(n: u64) -> (r: BigNat)
        ensures
            r@ == n,
    {
        let mut limbs: Vec<u64> = Vec::new();
        limbs.push(n);
        proof {
            assert(limbs@.drop_last() =~= Seq::<u64>::empty());
            lemma_pow0(LIMB_BASE as int);
            assert(limbs_value(limbs@.drop_last()) == 0);
        }
        BigNat { limbs }
    }

    /// The product of the number and `m`.
    pub fn times(&self, m: u64) -> (r: BigNat)
        ensures
            r@ == self@ * m,
    {
        let n: usize = self.limbs.len();
        let mut out: Vec<u64> = Vec::new();
        let mut carry: u64 = 0;
        let mut i: usize = 0;
        proof {
            lemma_pow0(LIMB_BASE as int);
            assert(self.limbs@.take(0) =~= Seq::<u64>::empty());
            assert(limbs_value(self.limbs@.take(0)) * m == 0) by (nonlinear_arith)
                requires
                    limbs_value(self.limbs@.take(0)) == 0,
            ;
        }
        while i < n
            invariant
                n == self.limbs@.len(),
                i <= n,
                out@.len() == i,
                limbs_value(out@) + carry * pow(LIMB_BASE as int, i as nat) == limbs_value(
                    self.limbs@.take(i as int),
                ) * m,
            decreases n - i,
        {
            let limb: u64 = self.limbs[i];
            proof {
                assert(limb * m + carry <= 0xffff_ffff_ffff_ffff * 0xffff_ffff_ffff_ffff
                    + 0xffff_ffff_ffff_ffff) by (nonlinear_arith)
                    requires
                        0 <= limb <= 0xffff_ffff_ffff_ffff,
                        0 <= m <= 0xffff_ffff_ffff_ffff,
                        0 <= carry <= 0xffff_ffff_ffff_ffff,
                ;
            }
            let product: u128 = (limb as u128) * (m as u128) + (carry as u128);
            let low: u64 = (product % LIMB_BASE) as u64;
            let high: u64 = (product / LIMB_BASE) as u64;
            proof {
                let w = pow(LIMB_BASE as int, i as nat);
                let before = limbs_value(self.limbs@.take(i as int));
                lemma_take_step(self.limbs@, i as int);
                lemma_pow_step(LIMB_BASE as int, i as nat);
                assert(out@.push(low).drop_last() =~= out@);
                assert(product == high * LIMB_BASE + low);
                assert(limbs_value(out@) + low * w + high * (w * LIMB_BASE) == (before + limb * w)
                    * m) by (nonlinear_arith)
                    requires
                        limbs_value(out@) + carry * w == before * m,
                        limb * m + carry == high * LIMB_BASE + low,
                ;
            }
            out.push(low);
            carry = high;
            i = i + 1;
        }
        proof {
            assert(self.limbs@.take(n as int) =~= self.limbs@);
            assert(out@.push(carry).drop_last() =~= out@);
            if carry == 0 {
                assert(carry * pow(LIMB_BASE as int, n as nat) == 0) by (nonlinear_arith)
                    requires
                        carry == 0,
                ;
            }
        }
        if carry != 0 {
            out.push(carry);
        }
        BigNat { limbs: out }
    }

    /// Tells whether the number is at most `other`.
    pub fn le(&self, other: &BigNat) -> (r: bool)
        ensures
            r == (self@ <= other@),
    {
        let mut la: usize = self.limbs.len();
        let mut lb: usize = other.limbs.len();
        proof {
            assert(self.limbs@.take(la as int) =~= self.limbs@);
            assert(other.limbs@.take(lb as int) =~= other.limbs@);
        }
        while la > lb
            invariant
                lb == other.limbs@.len(),
                la <= self.limbs@.len(),
                limbs_value(self.limbs@.take(la as int)) == self@,
            decreases la,
        {
            let top: u64 = self.limbs[la - 1];
            proof {
                let w = pow(LIMB_BASE as int, (la - 1) as nat);
                lemma_take_step(self.limbs@, la - 1);
                lemma_limbs_value_bound(self.limbs@.take(la - 1));
                lemma_limbs_value_bound(other.limbs@);
                lemma_pow_increases(LIMB_BASE as nat, lb as nat, (la - 1) as nat);
                assert(top != 0 ==> top * w >= w) by (nonlinear_arith)
                    requires
                        top >= 0,
                        w >= 0,
                ;
                assert(top == 0 ==> top * w == 0) by (nonlinear_arith);
            }
            if top != 0 {
                return false;
            }
            la = la - 1;
        }
        while lb > la
            invariant
                la <= self.limbs@.len(),
                lb <= other.limbs@.len(),
                la <= lb,
                limbs_value(self.limbs@.take(la as int)) == self@,
                limbs_value(other.limbs@.take(lb as int)) == other@,
            decreases lb,
        {
            let top: u64 = other.limbs[lb - 1];
            proof {
                let w = pow(LIMB_BASE as int, (lb - 1) as nat);
                lemma_take_step(other.limbs@, lb - 1);
                lemma_limbs_value_bound(other.limbs@.take(lb - 1));
                lemma_limbs_value_bound(self.limbs@.take(la as int));
                lemma_pow_increases(LIMB_BASE as nat, la as nat, (lb - 1) as nat);
                assert(top != 0 ==> top * w >= w) by (nonlinear_arith)
                    requires
                        top >= 0,
                        w >= 0,
                ;
                assert(top == 0 ==> top * w == 0) by (nonlinear_arith);
            }
            if top != 0 {
                return true;
            }
            lb = lb - 1;
        }
        let mut i: usize = la;
        while i > 0
            invariant
                i <= la,
                la == lb,
                la <= self.limbs@.len(),
                lb <= other.limbs@.len(),
                (self@ <= other@) == (limbs_value(self.limbs@.take(i as int)) <= limbs_value(
                    other.limbs@.take(i as int),
                )),
            decreases i,
        {
            let a: u64 = self.limbs[i - 1];
            let b: u64 = other.limbs[i - 1];
            proof {
                let w = pow(LIMB_BASE as int, (i - 1) as nat);
                lemma_take_step(self.limbs@, i - 1);
                lemma_take_step(other.limbs@, i - 1);
                lemma_limbs_value_bound(self.limbs@.take(i - 1));
                lemma_limbs_value_bound(other.limbs@.take(i - 1));
                lemma_pow_positive(LIMB_BASE as int, (i - 1) as nat);
                assert(a < b ==> a * w + w <= b * w) by (nonlinear_arith)
                    requires
                        w > 0,
                ;
                assert(b < a ==> b * w + w <= a * w) by (nonlinear_arith)
                    requires
                        w > 0,
                ;
            }
            if a < b {
                return true;
            }
            if a > b {
                return false;
            }
            i = i - 1;
        }
        proof {
            assert(self.limbs@.take(0) =~= Seq::<u64>::empty());
            assert(other.limbs@.take(0) =~= Seq::<u64>::empty());
        }
        true
    }
}

} // verus!
