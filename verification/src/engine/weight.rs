//! Costs in milliseconds, held as the bit pattern of a binary32 number.

use crate::engine::binary::sum_of_finite;
#[allow(unused_imports)]
use vstd::arithmetic::power2::lemma_pow2_pos;
#[allow(unused_imports)]
use vstd::arithmetic::power2::lemma_pow2_strictly_increases;
#[allow(unused_imports)]
use vstd::arithmetic::power2::lemma_pow2_unfold;
#[allow(unused_imports)]
use vstd::arithmetic::power2::lemma2_to64;
#[allow(unused_imports)]
use vstd::arithmetic::power2::lemma2_to64_rest;
#[allow(unused_imports)]
use vstd::arithmetic::power2::pow2;
use vstd::prelude::*;
#[allow(unused_imports)]
use crate::engine::binary::{exact, law_nearest_is_nearest, nearest, nearest_unbounded, size_of};

verus! {

/// A cost: the bit pattern of a binary32 number.
#[derive(Debug, Clone, Copy, PartialEq, Eq, Structural)]
pub struct Weight {
    pub bits: u32,
}

/// The bit pattern of positive infinity.
pub const INFINITE: u32 = 0x7f80_0000;

impl Weight {
    /// The magnitude bits.
    pub open spec fn magnitude(self) -> int {
        if self.bits >= 0x8000_0000 { self.bits - 0x8000_0000 } else { self.bits as int }
    }

    /// Whether the pattern is no number.
    pub open spec fn is_nan(self) -> bool {
        self.magnitude() > INFINITE
    }

    /// The place of the number among all numbers: a smaller rank is a smaller number, and the
    /// two zeros share one.
    pub open spec fn rank(self) -> int {
        if self.bits >= 0x8000_0000 { -self.magnitude() } else { self.magnitude() }
    }

    /// Whether the first is the smaller number. What is no number is not smaller than anything.
    pub open spec fn lt(self, o: Weight) -> bool {
        !self.is_nan() && !o.is_nan() && self.rank() < o.rank()
    }

    pub fn not_a_number(&self) -> (r: bool)
        ensures
            r == self.is_nan(),
    {
        let m: u32 = if self.bits >= 0x8000_0000 { self.bits - 0x8000_0000 } else { self.bits };
        m > INFINITE
    }

    pub fn rank_of(&self) -> (r: i64)
        ensures
            r == self.rank(),
            -0x8000_0000 < r < 0x8000_0000,
    {
        if self.bits >= 0x8000_0000 {
            -((self.bits - 0x8000_0000) as i64)
        } else {
            self.bits as i64
        }
    }

    /// Whether this is the smaller number.
    pub fn less(&self, o: &Weight) -> (r: bool)
        ensures
            r == self.lt(*o),
    {
        !self.not_a_number() && !o.not_a_number() && self.rank_of() < o.rank_of()
    }

    pub fn infinite() -> (r: Weight)
        ensures
            r == (Weight { bits: INFINITE }),
    {
        Weight { bits: INFINITE }
    }
}

/// `m` times two to the power of `e`, rounded down.
pub open spec fn scaled(m: int, e: int) -> int
    decreases (if e < 0 { -e } else { e }),
{
    if e > 0 {
        scaled(2 * m, e - 1)
    } else if e < 0 {
        scaled(m / 2, e + 1)
    } else {
        m
    }
}

proof fn lemma_scaled_up(m: int, e: int)
    requires
        m >= 0,
        e >= 0,
    ensures
        scaled(m, e) >= m,
    decreases e,
{
    if e > 0 {
        lemma_scaled_up(2 * m, e - 1);
    }
}

impl Weight {
    /// The significand, a whole number.
    pub open spec fn significand(self) -> int {
        if self.magnitude() < 0x80_0000 {
            self.magnitude()
        } else {
            0x80_0000 + self.magnitude() % 0x80_0000
        }
    }

    /// The power of two that the significand is multiplied by.
    pub open spec fn exponent(self) -> int {
        if self.magnitude() < 0x80_0000 { -149 } else { self.magnitude() / 0x80_0000 - 150 }
    }

    /// The cost in ticks, of which 2 to the power of 30 are a millisecond. Its magnitude is rounded
    /// down and at most the largest number of ticks. What is no number counts as nothing.
    pub open spec fn ticks(self) -> i64 {
        let size = scaled(self.significand(), self.exponent() + 30);
        let most = if size > i64::MAX { i64::MAX } else { size as i64 };
        if self.is_nan() {
            0
        } else if self.bits >= 0x8000_0000 {
            (-most) as i64
        } else {
            most
        }
    }

    /// Whether the number is neither infinite nor no number at all.
    pub open spec fn is_finite(self) -> bool {
        self.magnitude() < INFINITE
    }

    pub fn finite(&self) -> (r: bool)
        ensures
            r == self.is_finite(),
    {
        let m: u32 = if self.bits >= 0x8000_0000 { self.bits - 0x8000_0000 } else { self.bits };
        m < INFINITE
    }

    /// The cost in ticks.
    pub fn to_ticks(&self) -> (r: i64)
        ensures
            r == self.ticks(),
    {
        if self.not_a_number() {
            return 0;
        }
        let m: u32 = if self.bits >= 0x8000_0000 { self.bits - 0x8000_0000 } else { self.bits };
        let small: bool = m < 0x80_0000;
        let significand: i64 = if small { m as i64 } else { 0x80_0000 + (m % 0x80_0000) as i64 };
        let mut e: i64 = if small { -119 } else { (m / 0x80_0000) as i64 - 120 };
        let mut size: i64 = significand;
        let ghost want = scaled(size as int, e as int);
        while e < 0
            invariant
                -119 <= e <= 135,
                size >= 0,
                scaled(size as int, e as int) == want,
            decreases -e,
        {
            size = size / 2;
            e = e + 1;
        }
        while e > 0 && size <= i64::MAX / 2
            invariant
                0 <= e <= 135,
                size >= 0,
                scaled(size as int, e as int) == want,
            decreases e,
        {
            size = 2 * size;
            e = e - 1;
        }
        if e > 0 {
            proof {
                lemma_scaled_up(2 * size, e - 1);
            }
            size = i64::MAX;
        }
        if self.bits >= 0x8000_0000 {
            -size
        } else {
            size
        }
    }
}

/// The least significand of a weight that is not tiny.
pub const LEAST: u32 = 0x80_0000;

/// The bit of the sign.
pub const SIGN: u32 = 0x8000_0000;

/// The pattern of a sum that is no number.
pub const NO_NUMBER: u32 = 0x7fc0_0000;

/// The weight with the sign and the magnitude bits.
pub open spec fn signed(negative: bool, m: int) -> Weight {
    Weight { bits: (if negative { SIGN + m } else { m }) as u32 }
}

impl Weight {
    /// A finite weight, counted in the smallest positive one.
    pub open spec fn units(self) -> int {
        exact(self.bits >= SIGN, self.significand(), (self.exponent() + 149) as nat)
    }

    /// The sum: the weight nearest to the exact sum. A sum of nothing has a sign only where both
    /// weights have it.
    pub open spec fn plus(self, o: Weight) -> Weight {
        let v = self.units() + o.units();
        if self.is_nan() || o.is_nan() || (!self.is_finite() && !o.is_finite() && (self.bits >= SIGN) != (o.bits
            >= SIGN)) {
            Weight { bits: NO_NUMBER }
        } else if !self.is_finite() {
            self
        } else if !o.is_finite() {
            o
        } else {
            signed(
                v < 0 || (v == 0 && self.bits >= SIGN && o.bits >= SIGN),
                nearest(LEAST as int, INFINITE as int, size_of(v)),
            )
        }
    }

    /// The weight with the other sign.
    pub open spec fn negated(self) -> Weight {
        Weight { bits: (if self.bits >= SIGN { self.bits - SIGN } else { self.bits + SIGN }) as u32 }
    }

    /// The difference.
    pub open spec fn minus(self, o: Weight) -> Weight {
        self.plus(o.negated())
    }

    /// The significand and how often it is doubled.
    fn parts(&self) -> (r: (u64, u64))
        requires
            self.is_finite(),
        ensures
            r.0 == self.significand(),
            r.1 == self.exponent() + 149,
            r.0 < 2 * LEAST,
            r.1 > 0 ==> r.0 >= LEAST,
            r.1 <= 253,
            LEAST * r.1 + r.0 < INFINITE,
    {
        let m: u32 = if self.bits >= SIGN { self.bits - SIGN } else { self.bits };
        if m < LEAST {
            (m as u64, 0)
        } else {
            ((LEAST + m % LEAST) as u64, (m / LEAST - 1) as u64)
        }
    }

    /// The sum.
    pub fn sum(&self, o: &Weight) -> (r: Weight)
        ensures
            r == self.plus(*o),
    {
        let (n, m): (bool, bool) = (self.bits >= SIGN, o.bits >= SIGN);
        if self.not_a_number() || o.not_a_number() || (!self.finite() && !o.finite() && n != m) {
            return Weight { bits: NO_NUMBER };
        }
        if !self.finite() {
            return *self;
        }
        if !o.finite() {
            return *o;
        }
        let (p, k): (u64, u64) = self.parts();
        let (q, j): (u64, u64) = o.parts();
        let (negative, bits): (bool, u64) = if k >= j {
            sum_of_finite(LEAST as u64, INFINITE as u64, n, p, k, m, q, j)
        } else {
            sum_of_finite(LEAST as u64, INFINITE as u64, m, q, j, n, p, k)
        };
        Weight { bits: if negative { SIGN + bits as u32 } else { bits as u32 } }
    }

    /// The difference.
    pub fn difference(&self, o: &Weight) -> (r: Weight)
        ensures
            r == self.minus(*o),
    {
        self.sum(&Weight { bits: if o.bits >= SIGN { o.bits - SIGN } else { o.bits + SIGN } })
    }
}

proof fn lemma_scaled_by(m: int, e: nat)
    ensures
        scaled(m, e as int) == m * pow2(e),
    decreases e,
{
    lemma2_to64();
    if e > 0 {
        lemma_pow2_unfold(e);
        lemma_scaled_by(2 * m, (e - 1) as nat);
        assert((2 * m) * pow2((e - 1) as nat) == m * (2 * pow2((e - 1) as nat))) by (nonlinear_arith);
    } else {
        assert(m * pow2(0) == m);
    }
}

/// A cost of at least the 128th part of a millisecond, and below two to the power of 33 of them, is
/// told in ticks exactly: they are its significand, doubled as often as its exponent is above -30.
pub proof fn law_ticks_are_exact(w: Weight)
    requires
        0x3c00_0000 <= w.bits < 0x5000_0000,
    ensures
        w.exponent() >= -30,
        w.ticks() == w.significand() * pow2((w.exponent() + 30) as nat),
{
    let e = (w.exponent() + 30) as nat;
    lemma_scaled_by(w.significand(), e);
    lemma2_to64_rest();
    lemma2_to64();
    assert(e <= 39);
    if e < 39 {
        lemma_pow2_strictly_increases(e, 39);
    }
    assert(0 <= w.significand() * pow2(e) <= i64::MAX) by (nonlinear_arith)
        requires
            0 <= w.significand() < 0x100_0000,
            0 <= pow2(e) <= 0x80_0000_0000,
    ;
}

/// A sum of finite weights is the weight nearest to the exact sum, where it is finite: no finite weight is
/// nearer.
pub proof fn law_sum_is_nearest(a: Weight, b: Weight, c: Weight)
    requires
        a.is_finite(),
        b.is_finite(),
        c.is_finite(),
        a.plus(b).is_finite(),
    ensures
        size_of(a.plus(b).units() - (a.units() + b.units())) <= size_of(c.units() - (a.units() + b.units())),
{
    let v = a.units() + b.units();
    let r = a.plus(b);
    let lift = (c.exponent() + 149) as nat;
    let (q, k) = law_nearest_is_nearest(LEAST as int, size_of(v), c.significand(), lift);
    let (q0, k0) = law_nearest_is_nearest(LEAST as int, size_of(v), 0, 0);
    let m = nearest_unbounded(LEAST as int, size_of(v));
    assert(q == q0 && k == k0);
    assert(r.magnitude() == m);
    if k > 0 {
        assert(m / (LEAST as int) == k + 1 && m % (LEAST as int) == q - LEAST);
    }
    assert(r.significand() == q && r.exponent() + 149 == k);
    lemma_pow2_pos(lift);
    lemma_pow2_pos(k);
    assert(c.significand() * pow2(lift) >= 0 && q * pow2(k) >= 0 && 0 * pow2(0) == 0) by (nonlinear_arith)
        requires
            c.significand() >= 0,
            q >= 0,
    ;
}

/// The order of two sums does not matter.
pub proof fn law_sums_commute(a: Weight, b: Weight)
    requires
        a.is_finite(),
        b.is_finite(),
    ensures
        a.plus(b) == b.plus(a),
{
}

/// A difference is the sum with what has the other sign.
pub proof fn law_differences(a: Weight)
    requires
        a.is_finite(),
    ensures
        a.negated().units() == -a.units(),
        a.negated().negated() == a,
        a.minus(a).units() == 0,
{
    let lift = (a.exponent() + 149) as nat;
    assert(a.negated().magnitude() == a.magnitude());
    assert(a.units() + a.negated().units() == 0);
    lemma2_to64();
    let r = a.minus(a);
    let (q, k) = law_nearest_is_nearest(LEAST as int, 0, 0, 0);
    lemma_pow2_pos(k);
    assert(nearest_unbounded(LEAST as int, 0) == 0) by {
        assert(0 * pow2(0) == 0);
        assert(q * pow2(k) == 0);
        assert(q == 0 || pow2(k) == 0) by (nonlinear_arith)
            requires
                q * pow2(k) == 0,
        ;
    }
    assert(r.magnitude() == 0);
    assert(r.significand() == 0 && r.exponent() == -149);
    assert(0 * pow2(0) == 0);
}

/// How often the significand is doubled, counted from the smallest positive weight.
spec fn lift(w: Weight) -> nat {
    (w.exponent() + 149) as nat
}

proof fn lemma_size_grows(a: Weight, b: Weight)
    requires
        a.magnitude() < b.magnitude(),
        b.is_finite(),
    ensures
        0 <= size_of(a.units()) < size_of(b.units()),
{
    let (k, j) = (lift(a), lift(b));
    let (p, q) = (a.significand(), b.significand());
    let (e, f) = (pow2(k) as int, pow2(j) as int);
    lemma_pow2_pos(k);
    lemma_pow2_pos(j);
    if k == j {
        assert(0 <= p * e < q * e) by (nonlinear_arith)
            requires
                0 <= p < q,
                e > 0,
        ;
    } else {
        lemma_pow2_unfold((k + 1) as nat);
        if k + 1 < j {
            lemma_pow2_strictly_increases((k + 1) as nat, j);
        }
        assert(0 <= p * e < q * f) by (nonlinear_arith)
            requires
                0 <= p < 2 * LEAST,
                LEAST <= q,
                2 * e <= f,
                e > 0,
        ;
    }
}

/// Finite weights are ordered by what they are: one is less than another exactly where its exact value is.
pub proof fn law_order_is_of_values(a: Weight, b: Weight)
    requires
        a.is_finite(),
        b.is_finite(),
    ensures
        a.lt(b) <==> a.units() < b.units(),
{
    let zero = Weight { bits: 0 };
    assert(zero.significand() == 0 && 0 * pow2(lift(zero)) == 0);
    lemma_pow2_pos(lift(a));
    lemma_pow2_pos(lift(b));
    assert(a.significand() * pow2(lift(a)) >= 0 && b.significand() * pow2(lift(b)) >= 0) by (nonlinear_arith)
        requires
            a.significand() >= 0,
            b.significand() >= 0,
    ;
    if a.magnitude() > 0 {
        lemma_size_grows(zero, a);
    }
    if b.magnitude() > 0 {
        lemma_size_grows(zero, b);
    }
    if a.magnitude() < b.magnitude() {
        lemma_size_grows(a, b);
    }
    if b.magnitude() < a.magnitude() {
        lemma_size_grows(b, a);
    }
}

/// What is no number is neither less nor more than anything, and every finite weight is less than the
/// infinite one.
pub proof fn law_ends_of_the_order(a: Weight, b: Weight)
    ensures
        a.is_nan() || b.is_nan() ==> !a.lt(b),
        a.is_finite() ==> a.lt((Weight { bits: INFINITE })),
        !(Weight { bits: INFINITE }).lt(a),
{
}

}
