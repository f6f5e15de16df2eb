//! Sums of binary floating-point numbers, on whole numbers alone.
//!
//! A format is given by two numbers. `least` is the least significand of a number that is not tiny, a
//! power of two; every significand is below twice that. `endless` are the magnitude bits of an
//! infinite number. A number is a significand and how often it is doubled; an undoubled one counts the
//! smallest positive number of the format. The magnitude bits of a number are its significand and
//! `least` for each time that it is doubled.

#[allow(unused_imports)]
use vstd::arithmetic::div_mod::lemma_div_denominator;
#[allow(unused_imports)]
use vstd::arithmetic::div_mod::lemma_fundamental_div_mod;
#[allow(unused_imports)]
use vstd::arithmetic::div_mod::lemma_fundamental_div_mod_converse;
#[allow(unused_imports)]
use vstd::arithmetic::div_mod::lemma_mod_bound;
#[allow(unused_imports)]
use vstd::arithmetic::power2::lemma_pow2_adds;
#[allow(unused_imports)]
use vstd::arithmetic::power2::lemma_pow2_pos;
#[allow(unused_imports)]
use vstd::arithmetic::power2::lemma_pow2_strictly_increases;
#[allow(unused_imports)]
use vstd::arithmetic::power2::lemma_pow2_unfold;
#[allow(unused_imports)]
use vstd::arithmetic::power2::lemma2_to64;
#[allow(unused_imports)]
use vstd::arithmetic::power2::lemma2_to64_rest;
#[allow(unused_imports)]
use vstd::arithmetic::power2::pow2;
use vstd::prelude::*;

verus! {

/// How often a size is halved until it is below twice `least`.
pub open spec fn spare(least: int, v: int) -> nat
    decreases v,
{
    if least <= 0 || v < 2 * least { 0 } else { 1 + spare(least, v / 2) }
}

/// Whether what is left over, out of `p`, rounds a significand up: it is more than half, or half
/// of an odd one.
pub open spec fn rounds_up(q: int, r: int, p: int) -> bool {
    2 * r > p || (2 * r == p && q % 2 == 1)
}

/// The magnitude bits of the number nearest to a size, without a bound.
pub open spec fn nearest_unbounded(least: int, v: int) -> int {
    let p = pow2(spare(least, v)) as int;
    least * spare(least, v) + v / p + (if rounds_up(v / p, v % p, p) { 1int } else { 0int })
}

/// The magnitude bits of the number nearest to a size; of two equally near, the one with the
/// even significand. A size beyond all finite numbers is endless.
pub open spec fn nearest(least: int, endless: int, v: int) -> int {
    if nearest_unbounded(least, v) > endless { endless } else { nearest_unbounded(least, v) }
}

/// The magnitude bits of the number nearest to a size over two to the power of `c`, without a bound.
pub open spec fn nearest_part_unbounded(least: int, v: int, c: nat) -> int {
    let k = spare(least, v / pow2(c) as int);
    let p = pow2(c + k) as int;
    least * k + v / p + (if rounds_up(v / p, v % p, p) { 1int } else { 0int })
}

/// The magnitude bits of the number nearest to a size over two to the power of `c`.
pub open spec fn nearest_part(least: int, endless: int, v: int, c: nat) -> int {
    if nearest_part_unbounded(least, v, c) > endless { endless } else { nearest_part_unbounded(least, v, c) }
}

/// The exact value of a number, counted in the smallest positive one.
pub open spec fn exact(negative: bool, significand: int, lift: nat) -> int {
    if negative { -(significand * pow2(lift)) } else { significand * pow2(lift) }
}

pub open spec fn size_of(v: int) -> int {
    if v < 0 { -v } else { v }
}

proof fn lemma_spare_doubles(least: int, x: int, j: nat)
    requires
        x >= least > 0,
    ensures
        spare(least, x * pow2(j)) == spare(least, x) + j,
    decreases j,
{
    if j == 0 {
        lemma2_to64();
        assert(x * pow2(0) == x);
    } else {
        let half = x * pow2((j - 1) as nat);
        lemma_pow2_unfold(j);
        lemma_pow2_pos((j - 1) as nat);
        lemma_spare_doubles(least, x, (j - 1) as nat);
        assert(x * pow2(j) == 2 * half) by (nonlinear_arith)
            requires
                half == x * pow2((j - 1) as nat),
                pow2(j) == 2 * pow2((j - 1) as nat),
        ;
        assert(half >= x) by (nonlinear_arith)
            requires
                half == x * pow2((j - 1) as nat),
                pow2((j - 1) as nat) > 0,
                x >= 0,
        ;
    }
}

/// What is left over of a size stays the same part when both are multiplied.
proof fn lemma_leftover(x: int, p: int, e: int)
    requires
        x >= 0,
        p > 0,
        e > 0,
    ensures
        (x * e) / (p * e) == x / p,
        rounds_up(x / p, (x * e) % (p * e), p * e) == rounds_up(x / p, x % p, p),
{
    let (q, r) = (x / p, x % p);
    lemma_fundamental_div_mod(x, p);
    lemma_mod_bound(x, p);
    assert(x * e == q * (p * e) + r * e) by (nonlinear_arith)
        requires
            x == p * q + r,
    ;
    assert(0 <= r * e < p * e) by (nonlinear_arith)
        requires
            0 <= r < p,
            e > 0,
    ;
    lemma_fundamental_div_mod_converse(x * e, p * e, q, r * e);
    assert((2 * (r * e) > p * e <==> 2 * r > p) && (2 * (r * e) == p * e <==> 2 * r == p)) by (nonlinear_arith)
        requires
            e > 0,
    ;
}

/// A size that is doubled on and on is the same significand, doubled more.
proof fn lemma_nearest_doubles(least: int, x: int, j: nat)
    requires
        x >= least > 0,
    ensures
        nearest_unbounded(least, x * pow2(j)) == nearest_unbounded(least, x) + least * j,
{
    let k = spare(least, x);
    lemma_spare_doubles(least, x, j);
    lemma_pow2_adds(k, j);
    lemma_pow2_pos(k);
    lemma_pow2_pos(j);
    lemma_leftover(x, pow2(k) as int, pow2(j) as int);
    assert(least * (k + j) == least * k + least * j) by (nonlinear_arith);
}

/// A size that is doubled and divided again is the same.
proof fn lemma_part_of_doubled(least: int, x: int, l: nat, d: nat)
    requires
        x >= 0,
    ensures
        nearest_part_unbounded(least, x * pow2(l), l + d) == nearest_part_unbounded(least, x, d),
{
    lemma_pow2_pos(l);
    lemma_pow2_pos(d);
    lemma_pow2_adds(d, l);
    lemma_leftover(x, pow2(d) as int, pow2(l) as int);
    let k = spare(least, x / pow2(d) as int);
    lemma_pow2_pos(d + k);
    lemma_pow2_adds(d + k, l);
    lemma_leftover(x, pow2(d + k) as int, pow2(l) as int);
    assert(l + d == d + l && l + d + k == d + k + l);
}

/// How often a significand that was doubled is to be halved.
proof fn lemma_spare_within(least: int, v: int, k: nat)
    requires
        least > 0,
        least * pow2(k) <= v < 2 * least * pow2(k),
    ensures
        spare(least, v) == k,
    decreases k,
{
    if k == 0 {
        lemma2_to64();
        assert(2 * least * pow2(0) == 2 * least);
    } else {
        let h = pow2((k - 1) as nat) as int;
        lemma_pow2_unfold(k);
        lemma_pow2_pos((k - 1) as nat);
        assert(least * pow2(k) == 2 * (least * h) && 2 * least * pow2(k) == 2 * (2 * least * h)) by (nonlinear_arith)
            requires
                pow2(k) == 2 * h,
        ;
        assert(least * h >= least) by (nonlinear_arith)
            requires
                h >= 1,
                least > 0,
        ;
        lemma_spare_within(least, v / 2, (k - 1) as nat);
    }
}

/// What is much smaller than a number is lost in a sum with it.
proof fn lemma_nearest_far(least: int, q: int, k: nat, e: int)
    requires
        0 < least <= q < 2 * least,
        k >= 1,
        -pow2(k) < 4 * e < pow2(k),
    ensures
        nearest_unbounded(least, q * pow2(k) + e) == least * k + q,
{
    let p = pow2(k) as int;
    let h = pow2((k - 1) as nat) as int;
    let v = q * p + e;
    lemma_pow2_unfold(k);
    lemma_pow2_pos((k - 1) as nat);
    assert(least * p <= q * p && q * p + p <= 2 * least * p) by (nonlinear_arith)
        requires
            least <= q,
            q + 1 <= 2 * least,
            p > 0,
    ;
    if e >= 0 {
        lemma_spare_within(least, v, k);
        lemma_fundamental_div_mod_converse(v, p, q, e);
    } else if q > least {
        assert(least * p <= (q - 1) * p && (q - 1) * p == q * p - p) by (nonlinear_arith)
            requires
                least <= q - 1,
                p > 0,
        ;
        lemma_spare_within(least, v, k);
        lemma_fundamental_div_mod_converse(v, p, q - 1, p + e);
    } else {
        assert(q * p == 2 * least * h && (2 * least - 1) * h == 2 * least * h - h && least * h <= (2 * least - 1) * h)
            by (nonlinear_arith)
            requires
                q == least,
                p == 2 * h,
                h > 0,
                least > 0,
        ;
        lemma_spare_within(least, v, (k - 1) as nat);
        lemma_fundamental_div_mod_converse(v, h, 2 * least - 1, h + e);
        assert(least * (k - 1) == least * k - least) by (nonlinear_arith);
    }
}

/// A significand is its own nearest number.
proof fn lemma_nearest_small(least: int, y: int)
    requires
        0 <= y < 2 * least,
    ensures
        nearest_unbounded(least, y) == y,
{
    lemma2_to64();
    assert(spare(least, y) == 0);
    assert(y / 1int == y && y % 1int == 0);
    assert(least * 0 == 0);
}

/// The magnitude bits of the number nearest to `x`, doubled `k` times.
pub fn rounded(least: u64, endless: u64, x: u128, k: u64) -> (m: u64)
    requires
        0 < least <= 0x10_0000_0000_0000,
        x < 0x100_0000_0000_0000_0000_0000_0000_0000,
        k <= 2045,
    ensures
        m == nearest(least as int, endless as int, x * pow2(k as nat)),
        m <= endless,
{
    if x < 2 * least as u128 {
        let mut y: u64 = x as u64;
        let mut j: u64 = k;
        while y < least && j > 0
            invariant
                j <= k <= 2045,
                least <= 0x10_0000_0000_0000,
                y < 2 * least,
                y * pow2(j as nat) == x * pow2(k as nat),
            decreases j,
        {
            proof {
                lemma_pow2_unfold(j as nat);
                assert((2 * y) * pow2((j - 1) as nat) == y * (2 * pow2((j - 1) as nat))) by (nonlinear_arith);
            }
            y = 2 * y;
            j = j - 1;
        }
        proof {
            lemma_nearest_small(least as int, y as int);
            if j > 0 {
                lemma_nearest_doubles(least as int, y as int, j as nat);
            } else {
                lemma2_to64();
                assert(y * pow2(0) == y);
                assert(least * 0 == 0);
            }
            assert(nearest_unbounded(least as int, x * pow2(k as nat)) == least * j + y);
            assert(0 <= least * j <= 0x10_0000_0000_0000 * 2045) by (nonlinear_arith)
                requires
                    0 <= least <= 0x10_0000_0000_0000,
                    0 <= j <= 2045,
            ;
        }
        let m: u64 = least * j + y;
        if m > endless {
            endless
        } else {
            m
        }
    } else {
        let mut q: u128 = x;
        let mut p: u128 = 1;
        let mut s: u64 = 0;
        proof {
            lemma2_to64();
            lemma2_to64_rest();
            lemma_pow2_adds(64, 56);
            assert(pow2(120) == 0x100_0000_0000_0000_0000_0000_0000_0000);
        }
        while q >= 2 * least as u128
            invariant
                0 < least <= 0x10_0000_0000_0000,
                x < 0x100_0000_0000_0000_0000_0000_0000_0000,
                s <= 120,
                p == pow2(s as nat),
                q == x as int / p as int,
                q < pow2((120 - s) as nat),
                spare(least as int, x as int) == s + spare(least as int, q as int),
            decreases q,
        {
            proof {
                lemma2_to64();
                lemma_pow2_pos(s as nat);
                lemma_fundamental_div_mod(x as int, p as int);
                lemma_mod_bound(x as int, p as int);
                assert(2 * p <= p * q) by (nonlinear_arith)
                    requires
                        q >= 2,
                        p >= 0,
                ;
                lemma_div_denominator(x as int, p as int, 2);
                lemma_pow2_unfold((s + 1) as nat);
                assert(s < 120);
                lemma_pow2_unfold((120 - s) as nat);
            }
            q = q / 2;
            p = 2 * p;
            s = s + 1;
        }
        proof {
            lemma_pow2_pos(s as nat);
            lemma_fundamental_div_mod(x as int, p as int);
            lemma_mod_bound(x as int, p as int);
            assert(q * p == p * q) by (nonlinear_arith);
            lemma_nearest_doubles(least as int, x as int, k as nat);
            assert(spare(least as int, q as int) == 0);
            assert(0 <= least * (s + k) <= 0x10_0000_0000_0000 * 2165) by (nonlinear_arith)
                requires
                    0 <= least <= 0x10_0000_0000_0000,
                    0 <= s + k <= 2165,
            ;
        }
        let r: u128 = x - q * p;
        let up: u64 = if r > p - r || (r == p - r && q % 2 == 1) { 1 } else { 0 };
        let m: u64 = least * (s + k) + q as u64 + up;
        proof {
            assert(rounds_up(q as int, r as int, p as int) == (up == 1));
            assert(least * (s + k) == least * s + least * k) by (nonlinear_arith);
            assert(r as int == x as int % p as int);
            assert(nearest_unbounded(least as int, x as int) == least * s + q + up);
        }
        if m > endless {
            endless
        } else {
            m
        }
    }
}

/// The magnitude bits of the number nearest to `x` over two to the power of `d`.
fn rounded_part(least: u64, endless: u64, x: u64, d: u64) -> (m: u64)
    requires
        0 < least <= 0x10_0000_0000_0000,
        x < 0x20_0000_0000_0000,
    ensures
        m == nearest_part(least as int, endless as int, x as int, d as nat),
        m <= endless,
{
    proof {
        lemma2_to64();
        lemma2_to64_rest();
    }
    if d > 60 {
        proof {
            lemma_pow2_strictly_increases(60, d as nat);
            let p = pow2(d as nat) as int;
            lemma_fundamental_div_mod_converse(x as int, p, 0, x as int);
            assert(spare(least as int, 0) == 0);
            assert(least * 0 == 0);
        }
        return 0;
    }
    let mut p: u128 = 1;
    let mut i: u64 = 0;
    while i < d
        invariant
            i <= d <= 60,
            p == pow2(i as nat),
            pow2(60) == 0x1000_0000_0000_0000,
        decreases d - i,
    {
        proof {
            lemma_pow2_unfold((i + 1) as nat);
            lemma_pow2_strictly_increases(i as nat, 60);
        }
        p = 2 * p;
        i = i + 1;
    }
    proof {
        lemma_pow2_pos(d as nat);
        lemma_fundamental_div_mod(x as int, p as int);
        lemma_mod_bound(x as int, p as int);
        if d < 60 {
            lemma_pow2_strictly_increases(d as nat, 60);
        }
    }
    let mut q: u128 = x as u128 / p;
    let ghost first = q as int;
    let mut s: u64 = 0;
    proof {
        assert(first <= x) by (nonlinear_arith)
            requires
                x as int == p * first + x as int % p as int,
                x as int % p as int >= 0,
                p >= 1,
                first >= 0,
        ;
    }
    while q >= 2 * least as u128
        invariant
            0 < least <= 0x10_0000_0000_0000,
            x < 0x20_0000_0000_0000,
            d <= 60,
            s <= 53,
            p == pow2((d + s) as nat),
            q == x as int / p as int,
            q < pow2((53 - s) as nat),
            spare(least as int, first) == s + spare(least as int, q as int),
        decreases q,
    {
        proof {
            lemma2_to64();
            lemma_pow2_pos((d + s) as nat);
            lemma_fundamental_div_mod(x as int, p as int);
            lemma_mod_bound(x as int, p as int);
            assert(2 * p <= p * q) by (nonlinear_arith)
                requires
                    q >= 2,
                    p >= 0,
            ;
            lemma_div_denominator(x as int, p as int, 2);
            lemma_pow2_unfold((d + s + 1) as nat);
            assert(s < 53);
            lemma_pow2_unfold((53 - s) as nat);
        }
        q = q / 2;
        p = 2 * p;
        s = s + 1;
    }
    proof {
        lemma_pow2_pos((d + s) as nat);
        lemma_fundamental_div_mod(x as int, p as int);
        lemma_mod_bound(x as int, p as int);
        assert(q * p == p * q) by (nonlinear_arith);
        assert(spare(least as int, q as int) == 0);
        assert(0 <= least * s <= 0x10_0000_0000_0000 * 53) by (nonlinear_arith)
            requires
                0 <= least <= 0x10_0000_0000_0000,
                0 <= s <= 53,
        ;
    }
    let r: u128 = x as u128 - q * p;
    let up: u64 = if r > p - r || (r == p - r && q % 2 == 1) { 1 } else { 0 };
    let m: u64 = least * s + q as u64 + up;
    proof {
        assert(rounds_up(q as int, r as int, p as int) == (up == 1));
        assert(r as int == x as int % p as int);
        assert(nearest_part_unbounded(least as int, x as int, d as nat) == least * s + q + up);
    }
    if m > endless {
        endless
    } else {
        m
    }
}

/// The magnitude bits of the number nearest to `x`, doubled `k` times, over two to the power of `c`.
pub fn rounded_over(least: u64, endless: u64, x: u64, k: u64, c: u64) -> (m: u64)
    requires
        0 < least <= 0x10_0000_0000_0000,
        x < 0x20_0000_0000_0000,
        k <= 2045,
    ensures
        m == nearest_part(least as int, endless as int, x * pow2(k as nat), c as nat),
        m <= endless,
{
    if k >= c {
        proof {
            let y = x * pow2((k - c) as nat);
            lemma_pow2_pos((k - c) as nat);
            lemma_pow2_adds((k - c) as nat, c as nat);
            assert(y >= 0 && x * pow2(k as nat) == y * pow2(c as nat)) by (nonlinear_arith)
                requires
                    y == x * pow2((k - c) as nat),
                    pow2(k as nat) == pow2((k - c) as nat) * pow2(c as nat),
            ;
            lemma_part_of_doubled(least as int, y, c as nat, 0);
            lemma2_to64();
            assert(y / 1int == y);
            assert(nearest_part_unbounded(least as int, y, 0) == nearest_unbounded(least as int, y));
        }
        rounded(least, endless, x as u128, k - c)
    } else {
        proof {
            lemma_part_of_doubled(least as int, x as int, k as nat, (c - k) as nat);
        }
        rounded_part(least, endless, x, c - k)
    }
}

/// The sign and the magnitude bits of the sum of two finite numbers, of which the first is doubled at
/// least as often. A sum of nothing has a sign only where both numbers have it.
pub fn sum_of_finite(
    least: u64,
    endless: u64,
    n: bool,
    p: u64,
    k: u64,
    m: bool,
    q: u64,
    j: u64,
) -> (r: (bool, u64))
    requires
        0 < least <= 0x10_0000_0000_0000,
        j <= k <= 2045,
        p < 2 * least,
        q < 2 * least,
        k > 0 ==> p >= least,
        least * k + p <= endless,
    ensures
        ({
            let v = exact(n, p as int, k as nat) + exact(m, q as int, j as nat);
            &&& r.1 == nearest(least as int, endless as int, size_of(v))
            &&& r.0 == (v < 0 || (v == 0 && n && m))
        }),
        r.1 <= endless,
{
    let ghost v = exact(n, p as int, k as nat) + exact(m, q as int, j as nat);
    let ghost e = pow2(j as nat) as int;
    proof {
        lemma_pow2_pos(j as nat);
        lemma_pow2_pos(k as nat);
    }
    if k - j > 64 {
        proof {
            let f = pow2(k as nat) as int;
            lemma2_to64();
            lemma_pow2_adds(j as nat, 64);
            lemma_pow2_strictly_increases((j + 64) as nat, k as nat);
            assert(0 <= 4 * (q * e) < f) by (nonlinear_arith)
                requires
                    0 <= q < 0x20_0000_0000_0000,
                    e > 0,
                    e * 0x1_0000_0000_0000_0000 < f,
            ;
            assert(p * f >= f) by (nonlinear_arith)
                requires
                    p >= 1,
                    f > 0,
            ;
            lemma_nearest_far(least as int, p as int, k as nat, q * e);
            lemma_nearest_far(least as int, p as int, k as nat, -(q * e));
            assert(0 <= least * k <= 0x10_0000_0000_0000 * 2045) by (nonlinear_arith)
                requires
                    0 <= least <= 0x10_0000_0000_0000,
                    0 <= k <= 2045,
            ;
        }
        return (n, least * k + p);
    }
    let mut big: u128 = p as u128;
    let mut d: u64 = 0;
    proof {
        lemma2_to64();
        assert(p * pow2(0) == p) by (nonlinear_arith)
            requires
                pow2(0) == 1,
        ;
    }
    while d < k - j
        invariant
            j <= k,
            k - j <= 64,
            p < 0x20_0000_0000_0000,
            d <= k - j,
            big == p * pow2(d as nat),
            pow2(64) == 0x1_0000_0000_0000_0000,
        decreases k - j - d,
    {
        proof {
            if d < 64 {
                lemma_pow2_strictly_increases(d as nat, 64);
            }
            lemma_pow2_unfold((d + 1) as nat);
            let g = pow2(d as nat) as int;
            assert(0 <= p * g <= 0x20_0000_0000_0000 * 0x1_0000_0000_0000_0000) by (nonlinear_arith)
                requires
                    0 <= p <= 0x20_0000_0000_0000,
                    0 <= g <= 0x1_0000_0000_0000_0000,
            ;
            assert(p * (2 * g) == 2 * (p * g)) by (nonlinear_arith);
        }
        big = 2 * big;
        d = d + 1;
    }
    proof {
        let g = pow2(d as nat) as int;
        if d < 64 {
            lemma_pow2_strictly_increases(d as nat, 64);
        }
        assert(0 <= p * g <= 0x20_0000_0000_0000 * 0x1_0000_0000_0000_0000) by (nonlinear_arith)
            requires
                0 <= p <= 0x20_0000_0000_0000,
                0 <= g <= 0x1_0000_0000_0000_0000,
        ;
        lemma_pow2_adds(d as nat, j as nat);
        assert(p * (g * e) == (p * g) * e) by (nonlinear_arith);
    }
    let small: u128 = q as u128;
    let total: u128 = if n == m {
        big + small
    } else if big >= small {
        big - small
    } else {
        small - big
    };
    proof {
        let (b, s) = (big as int, small as int);
        assert(b * e + s * e == (b + s) * e && b * e - s * e == (b - s) * e && s * e - b * e == (s - b) * e)
            by (nonlinear_arith);
        assert(total * e >= 0 && (total * e == 0 <==> total == 0)) by (nonlinear_arith)
            requires
                total >= 0,
                e > 0,
        ;
        assert(size_of(v) == total * e);
    }
    let negative: bool = if total == 0 {
        n && m
    } else if n == m || big >= small {
        n
    } else {
        m
    };
    (negative, rounded(least, endless, total, j))
}

/// A number that the format can hold is kept: the magnitude bits nearest to a significand, doubled, are
/// those of a significand, doubled, of the same size.
pub proof fn law_numbers_are_kept(least: int, y: int, j: nat) -> (r: (int, nat))
    requires
        0 <= y < 2 * least,
    ensures
        0 <= r.0 < 2 * least,
        r.1 <= j,
        r.1 > 0 ==> r.0 >= least,
        r.0 * pow2(r.1) == y * pow2(j),
        nearest_unbounded(least, y * pow2(j)) == least * r.1 + r.0,
    decreases j,
{
    if y < least && j > 0 {
        lemma_pow2_unfold(j);
        assert((2 * y) * pow2((j - 1) as nat) == y * (2 * pow2((j - 1) as nat))) by (nonlinear_arith);
        law_numbers_are_kept(least, 2 * y, (j - 1) as nat)
    } else {
        lemma_nearest_small(least, y);
        if j > 0 {
            lemma_nearest_doubles(least, y, j);
        } else {
            lemma2_to64();
            assert(y * pow2(0) == y);
            assert(least * 0 == 0);
        }
        (y, j)
    }
}

/// What is left of a size that was halved is a significand.
proof fn lemma_spare_leaves(least: int, v: int)
    requires
        least > 0,
        v >= 0,
    ensures
        0 <= v / (pow2(spare(least, v)) as int) < 2 * least,
        spare(least, v) > 0 ==> v / (pow2(spare(least, v)) as int) >= least,
    decreases v,
{
    let k = spare(least, v);
    lemma2_to64();
    if v >= 2 * least {
        let h = (k - 1) as nat;
        lemma_spare_leaves(least, v / 2);
        lemma_pow2_unfold(k);
        lemma_pow2_pos(h);
        lemma_div_denominator(v, 2, pow2(h) as int);
        if h == 0 {
            assert(v / 2 >= least);
        }
    } else {
        assert(v / 1int == v);
    }
}

/// The number nearest to a size is nearest: no number of the format is nearer. Its magnitude bits are
/// those of the significand and the doublings that are returned.
pub proof fn law_nearest_is_nearest(least: int, v: int, p: int, j: nat) -> (r: (int, nat))
    requires
        least > 0,
        v >= 0,
        0 <= p < 2 * least,
        j > 0 ==> p >= least,
    ensures
        0 <= r.0 < 2 * least,
        r.1 > 0 ==> r.0 >= least,
        nearest_unbounded(least, v) == least * r.1 + r.0,
        size_of(r.0 * pow2(r.1) - v) <= size_of(p * pow2(j) - v),
{
    let k = spare(least, v);
    let e = pow2(k) as int;
    let (q, rest) = (v / e, v % e);
    lemma_spare_leaves(least, v);
    lemma_pow2_pos(k);
    lemma_pow2_pos(j);
    lemma_fundamental_div_mod(v, e);
    lemma_mod_bound(v, e);
    let (a, b) = (q * e, (q + 1) * e);
    assert(a == e * q && b == a + e) by (nonlinear_arith)
        requires
            a == q * e,
            b == (q + 1) * e,
    ;
    // No number lies between two that follow one another.
    let s = p * pow2(j);
    assert(s <= a || s >= b) by {
        if j < k {
            lemma_pow2_unfold((j + 1) as nat);
            if j + 1 < k {
                lemma_pow2_strictly_increases((j + 1) as nat, k);
            }
            let f = pow2(j) as int;
            assert(s <= a) by (nonlinear_arith)
                requires
                    s == p * f,
                    a == q * e,
                    0 <= p < 2 * least,
                    q >= least,
                    2 * f <= e,
                    f > 0,
            ;
        } else {
            let f = pow2((j - k) as nat) as int;
            lemma_pow2_adds((j - k) as nat, k);
            let t = p * f;
            assert(s == t * e) by (nonlinear_arith)
                requires
                    s == p * pow2(j),
                    pow2(j) == f * e,
                    t == p * f,
            ;
            if t <= q {
                assert(s <= a) by (nonlinear_arith)
                    requires
                        s == t * e,
                        a == q * e,
                        t <= q,
                        e > 0,
                ;
            } else {
                assert(s >= b) by (nonlinear_arith)
                    requires
                        s == t * e,
                        b == (q + 1) * e,
                        t >= q + 1,
                        e > 0,
                ;
            }
        }
    }
    if !rounds_up(q, rest, e) {
        (q, k)
    } else if q + 1 < 2 * least {
        (q + 1, k)
    } else {
        lemma_pow2_unfold((k + 1) as nat);
        assert(least * (2 * e) == (q + 1) * e && least * (k + 1) == least * k + least) by (nonlinear_arith)
            requires
                q + 1 == 2 * least,
        ;
        (least, (k + 1) as nat)
    }
}

}
