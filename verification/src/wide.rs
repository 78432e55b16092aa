//! Whole numbers of several machine words, as far as the logarithmic split
//! of a depth range needs them: powers of depths and their comparison.

use crate::math::{
    floor_root, is_floor_root, lemma_floor_root_unique, lemma_pow_base_monotone,
    lemma_pow_base_strict,
};
use vstd::arithmetic::power::{
    lemma_pow_adds, lemma_pow_increases, lemma_pow_multiplies, lemma_pow_positive,
    lemma_pow_strictly_increases, pow,
};
use vstd::arithmetic::power2::{lemma2_to64, lemma_pow2};
use vstd::prelude::*;

verus! {

/// The number of limbs of a wide number.
pub const LIMBS: usize = 21;

/// Largest base of a power.
pub const BASE_LIMIT: u32 = 0x10_0000;

/// Largest exponent of a power.
pub const EXPONENT_LIMIT: u32 = 32;

/// The weight of a limb relative to the limb before it.
pub open spec fn radix() -> int {
    0x1_0000_0000
}

/// The number that the first `n` limbs of `s` stand for, the least
/// significant limb first.
pub open spec fn limbs_value(s: Seq<u32>, n: int) -> int
    decreases n,
{
    if n <= 0 {
        0
    } else {
        limbs_value(s, n - 1) + s[n - 1] * pow(radix(), (n - 1) as nat)
    }
}

/// Each power of the radix is the radix times the power before it, and
/// positive.
pub proof fn lemma_radix_step(n: nat)
    ensures
        pow(radix(), n + 1) == radix() * pow(radix(), n),
        pow(radix(), n) > 0,
{
    reveal(pow);
    lemma_pow_positive(radix(), n);
}

/// The first `n` limbs stand for the same number in sequences that agree
/// on them.
pub proof fn lemma_value_prefix(a: Seq<u32>, b: Seq<u32>, n: int)
    requires
        forall|j: int| 0 <= j < n ==> a[j] == b[j],
    ensures
        limbs_value(a, n) == limbs_value(b, n),
    decreases n,
{
    if n > 0 {
        lemma_value_prefix(a, b, n - 1);
    }
}

/// `n` limbs stand for a number below the `n`-th power of the radix.
pub proof fn lemma_value_bound(s: Seq<u32>, n: int)
    requires
        0 <= n,
    ensures
        0 <= limbs_value(s, n) < pow(radix(), n as nat),
    decreases n,
{
    if n > 0 {
        lemma_value_bound(s, n - 1);
        lemma_radix_step((n - 1) as nat);
        let w = pow(radix(), (n - 1) as nat);
        let d = s[n - 1] as int;
        assert(0 <= d * w && d * w + w <= radix() * w) by (nonlinear_arith)
            requires
                0 <= d <= radix() - 1,
                w > 0,
        ;
    } else {
        lemma_radix_step(0);
    }
}

/// Where two sequences agree on the limbs from `i` up to `n`, those limbs
/// add the same to what the two stand for.
pub proof fn lemma_value_tail(a: Seq<u32>, b: Seq<u32>, i: int, n: int)
    requires
        0 <= i <= n,
        forall|j: int| i <= j < n ==> a[j] == b[j],
    ensures
        limbs_value(a, n) - limbs_value(a, i) == limbs_value(b, n) - limbs_value(b, i),
    decreases n,
{
    if i < n {
        lemma_value_tail(a, b, i, n - 1);
    }
}

/// The largest power that is taken fits in the limbs of a wide number.
pub proof fn lemma_room()
    ensures
        pow(BASE_LIMIT as int, EXPONENT_LIMIT as nat) < pow(radix(), LIMBS as nat),
{
    lemma2_to64();
    lemma_pow2(20);
    lemma_pow2(32);
    lemma_pow_multiplies(2, 20, 32);
    lemma_pow_multiplies(2, 32, 21);
    lemma_pow_strictly_increases(2, 640, 672);
    assert(20 * 32 == 640 && 32 * 21 == 672) by (nonlinear_arith);
}

/// A product of powers of two bases within `BASE_LIMIT`, whose exponents
/// come to at most `EXPONENT_LIMIT`, fits in the limbs of a wide number.
pub proof fn lemma_product_fits(a: int, i: nat, b: int, j: nat)
    requires
        0 <= a <= BASE_LIMIT,
        0 <= b <= BASE_LIMIT,
        i + j <= EXPONENT_LIMIT,
    ensures
        0 <= pow(a, i) * pow(b, j) < pow(radix(), LIMBS as nat),
        pow(a, i) * pow(b, j) <= pow(BASE_LIMIT as int, i + j),
{
    let top = BASE_LIMIT as int;
    lemma_pow_base_monotone(a, top, i);
    lemma_pow_base_monotone(b, top, j);
    lemma_pow_adds(top, i, j);
    lemma_pow_increases(top as nat, i + j, EXPONENT_LIMIT as nat);
    lemma_room();
    assert(0 <= pow(a, i) * pow(b, j) <= pow(top, i) * pow(top, j)) by (nonlinear_arith)
        requires
            0 <= pow(a, i) <= pow(top, i),
            0 <= pow(b, j) <= pow(top, j),
    ;
}

/// A whole number of `LIMBS` limbs of 32 bits.
#[derive(Debug)]
pub struct Wide {
    pub limbs: Vec<u32>,
}

impl Wide {
    /// The number has `LIMBS` limbs.
    pub open spec fn wf(&self) -> bool {
        self.limbs@.len() == LIMBS
    }

    /// The number that the limbs stand for.
    pub open spec fn value(&self) -> int {
        limbs_value(self.limbs@, LIMBS as int)
    }

    /// The number one.
    pub fn one() -> (r: Wide)
        ensures
            r.wf(),
            r.value() == 1,
    {
        let mut limbs: Vec<u32> = Vec::new();
        limbs.push(1);
        proof {
            reveal(pow);
            assert(limbs_value(limbs@, 0) == 0);
            assert(pow(radix(), 0) == 1);
            assert(limbs_value(limbs@, 1) == limbs_value(limbs@, 0) + limbs@[0] * pow(radix(), 0));
        }
        let mut i: usize = 1;
        while i < LIMBS
            invariant
                1 <= i <= LIMBS,
                limbs@.len() == i,
                limbs_value(limbs@, i as int) == 1,
            decreases LIMBS - i,
        {
            let ghost before = limbs@;
            limbs.push(0);
            proof {
                lemma_value_prefix(before, limbs@, i as int);
                assert(0 * pow(radix(), i as nat) == 0);
            }
            i = i + 1;
        }
        Wide { limbs }
    }

    /// The number times `m`.
    pub fn times(&self, m: u32) -> (r: Wide)
        requires
            self.wf(),
            self.value() * m < pow(radix(), LIMBS as nat),
        ensures
            r.wf(),
            r.value() == self.value() * m,
    {
        let mut limbs: Vec<u32> = Vec::new();
        let mut carry: u64 = 0;
        let mut i: usize = 0;
        proof {
            lemma_radix_step(0);
            assert(limbs_value(self.limbs@, 0) * m == 0);
            assert(carry * pow(radix(), 0) == 0);
        }
        while i < LIMBS
            invariant
                i <= LIMBS,
                self.wf(),
                limbs@.len() == i,
                carry < 0x1_0000_0000,
                limbs_value(limbs@, i as int) + carry * pow(radix(), i as nat) == limbs_value(
                    self.limbs@,
                    i as int,
                ) * m,
            decreases LIMBS - i,
        {
            let limb: u64 = self.limbs[i] as u64;
            assert(limb * m <= 0xffff_ffff * 0xffff_ffff) by (nonlinear_arith)
                requires
                    0 <= limb <= 0xffff_ffff,
                    0 <= m <= 0xffff_ffff,
            ;
            let t: u64 = limb * (m as u64) + carry;
            let low: u32 = (t % 0x1_0000_0000) as u32;
            let high: u64 = t / 0x1_0000_0000;
            let ghost before = limbs@;
            limbs.push(low);
            proof {
                lemma_value_prefix(before, limbs@, i as int);
                lemma_radix_step(i as nat);
                let w = pow(radix(), i as nat);
                let v = limbs_value(before, i as int);
                let s = limbs_value(self.limbs@, i as int);
                assert(t == low + high * radix());
                assert(v + low * w + high * (radix() * w) == (s + limb * w) * m)
                    by (nonlinear_arith)
                    requires
                        v + carry * w == s * m,
                        t == limb * m + carry,
                        t == low + high * radix(),
                ;
            }
            carry = high;
            i = i + 1;
        }
        proof {
            let top = pow(radix(), LIMBS as nat);
            lemma_value_bound(limbs@, LIMBS as int);
            assert(carry == 0) by (nonlinear_arith)
                requires
                    limbs_value(limbs@, LIMBS as int) + carry * top < top,
                    limbs_value(limbs@, LIMBS as int) >= 0,
                    carry >= 0,
                    top > 0,
            ;
            assert(0 * top == 0);
        }
        Wide { limbs }
    }

    /// Whether the number is at most `other`.
    pub fn at_most(&self, other: &Wide) -> (r: bool)
        requires
            self.wf(),
            other.wf(),
        ensures
            r == (self.value() <= other.value()),
    {
        let mut i: usize = LIMBS;
        while i > 0
            invariant
                i <= LIMBS,
                self.wf(),
                other.wf(),
                forall|j: int| i <= j < LIMBS ==> self.limbs@[j] == other.limbs@[j],
            decreases i,
        {
            let a: u32 = self.limbs[i - 1];
            let b: u32 = other.limbs[i - 1];
            if a != b {
                proof {
                    let w = pow(radix(), (i - 1) as nat);
                    lemma_radix_step((i - 1) as nat);
                    lemma_value_tail(self.limbs@, other.limbs@, i as int, LIMBS as int);
                    lemma_value_bound(self.limbs@, i - 1);
                    lemma_value_bound(other.limbs@, i - 1);
                    if a < b {
                        assert(a * w + w <= b * w) by (nonlinear_arith)
                            requires
                                a + 1 <= b,
                                w > 0,
                        ;
                    } else {
                        assert(b * w + w <= a * w) by (nonlinear_arith)
                            requires
                                b + 1 <= a,
                                w > 0,
                        ;
                    }
                }
                return a < b;
            }
            i = i - 1;
        }
        proof {
            lemma_value_tail(self.limbs@, other.limbs@, 0, LIMBS as int);
        }
        true
    }

    /// The product of `a` to the power `i` and `b` to the power `j`.
    pub fn product_of_powers(a: u32, i: u32, b: u32, j: u32) -> (r: Wide)
        requires
            a <= BASE_LIMIT,
            b <= BASE_LIMIT,
            i + j <= EXPONENT_LIMIT,
        ensures
            r.wf(),
            r.value() == pow(a as int, i as nat) * pow(b as int, j as nat),
    {
        let mut r: Wide = Wide::one();
        let mut n: u32 = 0;
        proof {
            reveal(pow);
            assert(pow(a as int, 0) * pow(b as int, 0) == 1) by (nonlinear_arith)
                requires
                    pow(a as int, 0) == 1,
                    pow(b as int, 0) == 1,
            ;
        }
        while n < i
            invariant
                n <= i,
                a <= BASE_LIMIT,
                b <= BASE_LIMIT,
                i + j <= EXPONENT_LIMIT,
                r.wf(),
                r.value() == pow(a as int, n as nat) * pow(b as int, 0),
            decreases i - n,
        {
            proof {
                reveal(pow);
                lemma_product_fits(a as int, (n + 1) as nat, b as int, 0);
                assert((pow(a as int, n as nat) * pow(b as int, 0)) * a == (a * pow(
                    a as int,
                    n as nat,
                )) * pow(b as int, 0)) by (nonlinear_arith);
            }
            r = r.times(a);
            n = n + 1;
        }
        let mut m: u32 = 0;
        while m < j
            invariant
                m <= j,
                a <= BASE_LIMIT,
                b <= BASE_LIMIT,
                i + j <= EXPONENT_LIMIT,
                r.wf(),
                r.value() == pow(a as int, i as nat) * pow(b as int, m as nat),
            decreases j - m,
        {
            proof {
                reveal(pow);
                lemma_product_fits(a as int, i as nat, b as int, (m + 1) as nat);
                assert((pow(a as int, i as nat) * pow(b as int, m as nat)) * b == pow(
                    a as int,
                    i as nat,
                ) * (b * pow(b as int, m as nat))) by (nonlinear_arith);
            }
            r = r.times(b);
            m = m + 1;
        }
        r
    }
}

/// The floor of the `n`-th root of `near^(n - k) * far^k`: the point that
/// lies `k` of `n` equal steps from `near` to `far` on a logarithmic scale,
/// rounded down.
pub fn weighted_root(near: u32, far: u32, n: u32, k: u32) -> (r: u32)
    requires
        near <= BASE_LIMIT,
        far <= BASE_LIMIT,
        1 <= n <= EXPONENT_LIMIT,
        k <= n,
    ensures
        r == floor_root(pow(near as int, (n - k) as nat) * pow(far as int, k as nat), n as nat),
        r <= BASE_LIMIT,
{
    let target: Wide = Wide::product_of_powers(near, n - k, far, k);
    let ghost v = target.value();
    let mut lo: u32 = 0;
    let mut hi: u32 = BASE_LIMIT + 1;
    proof {
        lemma_product_fits(near as int, (n - k) as nat, far as int, k as nat);
        lemma_pow_base_strict(BASE_LIMIT as int, BASE_LIMIT + 1, n as nat);
        vstd::arithmetic::power::lemma0_pow(n as nat);
    }
    while hi - lo > 1
        invariant
            lo < hi <= BASE_LIMIT + 1,
            1 <= n <= EXPONENT_LIMIT,
            target.wf(),
            target.value() == v,
            pow(lo as int, n as nat) <= v,
            v < pow(hi as int, n as nat),
        decreases hi - lo,
    {
        let mid: u32 = lo + (hi - lo) / 2;
        proof {
            reveal(pow);
            assert(pow(1, 0) == 1);
            assert(pow(mid as int, n as nat) * pow(1, 0) == pow(mid as int, n as nat))
                by (nonlinear_arith)
                requires
                    pow(1, 0) == 1,
            ;
        }
        let power: Wide = Wide::product_of_powers(mid, n, 1, 0);
        if power.at_most(&target) {
            lo = mid;
        } else {
            hi = mid;
        }
    }
    proof {
        assert(is_floor_root(v, n as nat, lo as int));
        lemma_floor_root_unique(v, n as nat, lo as int, floor_root(v, n as nat));
    }
    lo
}

} // verus!
