//! Times in milliseconds, held as the bit pattern of a binary64 number, with the sums and
//! comparisons of binary64 arithmetic.

use crate::engine::binary::{rounded, rounded_over, sum_of_finite};
use crate::engine::weight::{Weight, INFINITE};
#[allow(unused_imports)]
use vstd::arithmetic::power2::lemma_pow2_pos;
#[allow(unused_imports)]
use vstd::arithmetic::power2::lemma_pow2_strictly_increases;
#[allow(unused_imports)]
use vstd::arithmetic::power2::lemma_pow2_unfold;
#[allow(unused_imports)]
use vstd::arithmetic::power2::pow2;
use vstd::prelude::*;
#[allow(unused_imports)]
use crate::engine::binary::{exact, law_nearest_is_nearest, law_numbers_are_kept, nearest, nearest_part, nearest_unbounded, size_of};

verus! {

/// A time: the bit pattern of a binary64 number of milliseconds.
#[derive(Debug, Clone, Copy, PartialEq, Eq, Structural)]
pub struct Millis {
    pub bits: u64,
}

/// The bit of the sign.
pub const SIGN: u64 = 0x8000_0000_0000_0000;

/// The magnitude bits of an infinite number.
pub const ENDLESS: u64 = 0x7ff0_0000_0000_0000;

/// The pattern of a sum that is no number.
pub const NO_NUMBER: u64 = 0x7ff8_0000_0000_0000;

/// Two to the power of 52: the least significand of a number that is not tiny.
pub const LEAST: u64 = 0x10_0000_0000_0000;

/// Two to the power of 53: above every significand.
pub const ABOVE: u64 = 0x20_0000_0000_0000;

impl Millis {
    pub open spec fn negative(self) -> bool {
        self.bits >= SIGN
    }

    /// The magnitude bits.
    pub open spec fn magnitude(self) -> int {
        if self.negative() { self.bits - SIGN } else { self.bits as int }
    }

    /// Whether the pattern is no number.
    pub open spec fn is_nan(self) -> bool {
        self.magnitude() > ENDLESS
    }

    pub open spec fn is_infinite(self) -> bool {
        self.magnitude() == ENDLESS
    }

    /// The place of the number among all numbers: a smaller rank is a smaller number, and the
    /// two zeros share one.
    pub open spec fn rank(self) -> int {
        if self.negative() { -self.magnitude() } else { self.magnitude() }
    }

    /// Whether the first is at most the second. What is no number is not at most anything.
    pub open spec fn le(self, o: Millis) -> bool {
        !self.is_nan() && !o.is_nan() && self.rank() <= o.rank()
    }

    /// The significand, a whole number.
    pub open spec fn significand(self) -> int {
        if self.magnitude() < ABOVE { self.magnitude() } else { LEAST + self.magnitude() % (LEAST as int) }
    }

    /// How often the significand is doubled. An undoubled significand counts the smallest
    /// positive number, two to the power of -1074.
    pub open spec fn lift(self) -> nat {
        if self.magnitude() < ABOVE { 0 } else { (self.magnitude() / (LEAST as int) - 1) as nat }
    }

    /// A finite number, counted in the smallest positive number.
    pub open spec fn units(self) -> int {
        exact(self.negative(), self.significand(), self.lift())
    }
}

/// The magnitude bits of the number nearest to a size.
pub open spec fn nearest_to(v: int) -> int {
    nearest(LEAST as int, ENDLESS as int, v)
}

/// The number with the sign and the magnitude bits.
pub open spec fn signed(negative: bool, m: int) -> Millis {
    Millis { bits: (if negative { SIGN + m } else { m }) as u64 }
}

impl Millis {
    /// The sum: the number nearest to the exact sum. A sum of nothing has a sign only where both
    /// numbers have it.
    pub open spec fn plus(self, o: Millis) -> Millis {
        let v = self.units() + o.units();
        if self.is_nan() || o.is_nan() || (self.is_infinite() && o.is_infinite() && self.negative()
            != o.negative()) {
            Millis { bits: NO_NUMBER }
        } else if self.is_infinite() {
            self
        } else if o.is_infinite() {
            o
        } else {
            signed(v < 0 || (v == 0 && self.negative() && o.negative()), nearest_to(size_of(v)))
        }
    }

    /// The number nearest to a whole number of milliseconds.
    pub open spec fn whole(n: int) -> Millis {
        signed(n < 0, nearest_to(size_of(n) * pow2(1074)))
    }

    /// The weight nearest to the number.
    pub open spec fn narrowed(self) -> Weight {
        if self.is_nan() {
            Weight { bits: crate::engine::weight::NO_NUMBER }
        } else if self.is_infinite() {
            crate::engine::weight::signed(self.negative(), INFINITE as int)
        } else {
            crate::engine::weight::signed(
                self.negative(),
                nearest_part(
                    crate::engine::weight::LEAST as int,
                    INFINITE as int,
                    self.significand() * pow2(self.lift()),
                    925,
                ),
            )
        }
    }

    /// The number that a weight is.
    pub open spec fn of_weight(w: Weight) -> Millis {
        if w.is_nan() {
            Millis { bits: NO_NUMBER }
        } else if !w.is_finite() {
            signed(w.bits >= 0x8000_0000, ENDLESS as int)
        } else {
            signed(
                w.bits >= 0x8000_0000,
                nearest_to(w.significand() * pow2((w.exponent() + 1074) as nat)),
            )
        }
    }
}

fn with_sign(negative: bool, m: u64) -> (r: Millis)
    requires
        m <= ENDLESS,
    ensures
        r == signed(negative, m as int),
{
    Millis { bits: if negative { SIGN + m } else { m } }
}

impl Millis {
    fn magnitude_of(&self) -> (r: u64)
        ensures
            r == self.magnitude(),
            r < SIGN,
    {
        if self.bits >= SIGN {
            self.bits - SIGN
        } else {
            self.bits
        }
    }

    /// Whether this is at most the other.
    pub fn at_most(&self, o: &Millis) -> (r: bool)
        ensures
            r == self.le(*o),
    {
        let (a, b): (u64, u64) = (self.magnitude_of(), o.magnitude_of());
        if a > ENDLESS || b > ENDLESS {
            false
        } else if self.bits >= SIGN {
            o.bits < SIGN || b <= a
        } else if o.bits >= SIGN {
            a == 0 && b == 0
        } else {
            a <= b
        }
    }

    /// The significand and how often it is doubled.
    fn parts(&self) -> (r: (u64, u64))
        ensures
            r.0 == self.significand(),
            r.1 == self.lift(),
            r.0 < ABOVE,
            r.1 > 0 ==> r.0 >= LEAST,
            self.magnitude() < ENDLESS ==> r.1 <= 2045,
            self.magnitude() == LEAST * r.1 + r.0,
    {
        let m: u64 = self.magnitude_of();
        if m < ABOVE {
            (m, 0)
        } else {
            (LEAST + m % LEAST, m / LEAST - 1)
        }
    }

    /// The sum.
    pub fn sum(&self, o: &Millis) -> (r: Millis)
        ensures
            r == self.plus(*o),
    {
        let (a, b): (u64, u64) = (self.magnitude_of(), o.magnitude_of());
        if a > ENDLESS || b > ENDLESS || (a == ENDLESS && b == ENDLESS && (self.bits >= SIGN) != (o.bits
            >= SIGN)) {
            return Millis { bits: NO_NUMBER };
        }
        if a == ENDLESS {
            return *self;
        }
        if b == ENDLESS {
            return *o;
        }
        let (p, k): (u64, u64) = self.parts();
        let (q, j): (u64, u64) = o.parts();
        let (n, m): (bool, bool) = (self.bits >= SIGN, o.bits >= SIGN);
        let (negative, bits): (bool, u64) = if k >= j {
            sum_of_finite(LEAST, ENDLESS, n, p, k, m, q, j)
        } else {
            sum_of_finite(LEAST, ENDLESS, m, q, j, n, p, k)
        };
        with_sign(negative, bits)
    }

    /// The number nearest to a whole number of milliseconds.
    pub fn from_unsigned(n: u64) -> (r: Millis)
        ensures
            r == Millis::whole(n as int),
    {
        with_sign(false, rounded(LEAST, ENDLESS, n as u128, 1074))
    }

    /// The number nearest to a whole number of milliseconds.
    pub fn from_signed(n: i64) -> (r: Millis)
        ensures
            r == Millis::whole(n as int),
    {
        let size: u128 = if n < 0 { (-(n as i128)) as u128 } else { n as u128 };
        with_sign(n < 0, rounded(LEAST, ENDLESS, size, 1074))
    }

    /// The weight nearest to the number.
    pub fn to_weight(&self) -> (r: Weight)
        ensures
            r == self.narrowed(),
    {
        let m: u64 = self.magnitude_of();
        if m > ENDLESS {
            return Weight { bits: crate::engine::weight::NO_NUMBER };
        }
        let bits: u64 = if m == ENDLESS {
            INFINITE as u64
        } else {
            let (p, k): (u64, u64) = self.parts();
            rounded_over(crate::engine::weight::LEAST as u64, INFINITE as u64, p, k, 925)
        };
        Weight { bits: if self.bits >= SIGN { crate::engine::weight::SIGN + bits as u32 } else { bits as u32 } }
    }

    /// The number that a weight is.
    pub fn from_weight(w: &Weight) -> (r: Millis)
        ensures
            r == Millis::of_weight(*w),
    {
        if w.not_a_number() {
            return Millis { bits: NO_NUMBER };
        }
        let m: u32 = if w.bits >= 0x8000_0000 { w.bits - 0x8000_0000 } else { w.bits };
        if !w.finite() {
            return with_sign(w.bits >= 0x8000_0000, ENDLESS);
        }
        let small: bool = m < 0x80_0000;
        let significand: u128 = if small { m as u128 } else { 0x80_0000 + (m % 0x80_0000) as u128 };
        let k: u64 = if small { 925 } else { (m / 0x80_0000) as u64 + 924 };
        with_sign(w.bits >= 0x8000_0000, rounded(LEAST, ENDLESS, significand, k))
    }
}

/// Of two finite numbers the larger magnitude bits are the larger size.
proof fn lemma_size_grows(a: Millis, b: Millis)
    requires
        a.magnitude() < b.magnitude(),
    ensures
        0 <= size_of(a.units()) < size_of(b.units()),
{
    let (k, j) = (a.lift(), b.lift());
    let (p, q) = (a.significand(), b.significand());
    let (e, f) = (pow2(k) as int, pow2(j) as int);
    lemma_pow2_pos(k);
    lemma_pow2_pos(j);
    if k == j {
        assert(0 <= p * e < q * e) by (nonlinear_arith)
            requires
                0 <= p < q,
                e > 0,
        ;
    } else {
        lemma_pow2_unfold((k + 1) as nat);
        if k + 1 < j {
            lemma_pow2_strictly_increases((k + 1) as nat, j);
        }
        assert(0 <= p * e < q * f) by (nonlinear_arith)
            requires
                0 <= p < ABOVE,
                LEAST <= q,
                ABOVE == 2 * LEAST,
                2 * e <= f,
                e > 0,
        ;
    }
}

/// Finite numbers are ordered by what they are: one is at most another exactly where its exact
/// value is.
pub proof fn law_order_is_of_values(a: Millis, b: Millis)
    requires
        a.magnitude() < ENDLESS,
        b.magnitude() < ENDLESS,
    ensures
        a.le(b) <==> a.units() <= b.units(),
{
    let zero = Millis { bits: 0 };
    assert(zero.significand() == 0 && 0 * pow2(zero.lift()) == 0);
    lemma_pow2_pos(a.lift());
    lemma_pow2_pos(b.lift());
    assert(a.significand() * pow2(a.lift()) >= 0 && b.significand() * pow2(b.lift()) >= 0) by (nonlinear_arith)
        requires
            a.significand() >= 0,
            b.significand() >= 0,
    ;
    if a.magnitude() > 0 {
        lemma_size_grows(zero, a);
    }
    if b.magnitude() > 0 {
        lemma_size_grows(zero, b);
    }
    if a.magnitude() < b.magnitude() {
        lemma_size_grows(a, b);
    }
    if b.magnitude() < a.magnitude() {
        lemma_size_grows(b, a);
    }
}

proof fn lemma_kept(negative: bool, y: int, j: nat)
    requires
        0 <= y < ABOVE,
        j <= 2045,
    ensures
        signed(negative, nearest_to(y * pow2(j))).units() == exact(negative, y, j),
{
    let (q, k) = law_numbers_are_kept(LEAST as int, y, j);
    let m = LEAST * k + q;
    assert(nearest_unbounded(LEAST as int, y * pow2(j)) == m);
    assert(0 <= m < ENDLESS);
    if k > 0 {
        assert(m / (LEAST as int) == k + 1 && m % (LEAST as int) == q - LEAST);
    }
    let r = signed(negative, m);
    assert(r.magnitude() == m && r.negative() == negative);
    assert(r.significand() == q && r.lift() == k);
}

/// A weight that is finite, and a whole number of milliseconds of less than 54 bits, are kept exactly:
/// the time is the same number. The smallest positive weight is two to the power of 925 times the
/// smallest positive time.
pub proof fn law_times_are_exact(w: Weight, n: int)
    requires
        -ABOVE < n < ABOVE,
    ensures
        w.is_finite() ==> Millis::of_weight(w).units() == exact(
            w.bits >= 0x8000_0000,
            w.significand(),
            (w.exponent() + 1074) as nat,
        ),
        Millis::whole(n).units() == n * pow2(1074),
{
    lemma_kept(n < 0, size_of(n), 1074);
    assert((-n) * pow2(1074) == -(n * pow2(1074))) by (nonlinear_arith);
    if w.is_finite() {
        lemma_kept(w.bits >= 0x8000_0000, w.significand(), (w.exponent() + 1074) as nat);
    }
}

/// A sum is the finite number nearest to the exact one, where it is finite: no finite number is nearer.
pub proof fn law_sum_is_nearest(a: Millis, b: Millis, c: Millis)
    requires
        a.magnitude() < ENDLESS,
        b.magnitude() < ENDLESS,
        c.magnitude() < ENDLESS,
        a.plus(b).magnitude() < ENDLESS,
    ensures
        size_of(a.plus(b).units() - (a.units() + b.units())) <= size_of(c.units() - (a.units() + b.units())),
{
    let v = a.units() + b.units();
    let r = a.plus(b);
    let (q, k) = law_nearest_is_nearest(LEAST as int, size_of(v), c.significand(), c.lift());
    let (q0, k0) = law_nearest_is_nearest(LEAST as int, size_of(v), 0, 0);
    let m = nearest_unbounded(LEAST as int, size_of(v));
    assert(q == q0 && k == k0);
    assert(r.magnitude() == m);
    if k > 0 {
        assert(m / (LEAST as int) == k + 1 && m % (LEAST as int) == q - LEAST);
    }
    assert(r.significand() == q && r.lift() == k);
    lemma_pow2_pos(c.lift());
    lemma_pow2_pos(k);
    assert(c.significand() * pow2(c.lift()) >= 0 && q * pow2(k) >= 0 && 0 * pow2(0) == 0) by (nonlinear_arith)
        requires
            c.significand() >= 0,
            q >= 0,
    ;
}

}
