//! How many of the recorded values a quantile stands for.
//!
//! A quantile is a binary fraction of 53 bits, and so is the product of a quantile and a
//! count: what goes beyond 53 bits is rounded to the nearest, and to the even of two that
//! are equally near. All of it is worked out in whole numbers.

use vstd::arithmetic::div_mod::{lemma_fundamental_div_mod, lemma_fundamental_div_mod_converse};
use vstd::arithmetic::power2::{
    lemma2_to64, lemma2_to64_rest, lemma_pow2_adds, lemma_pow2_pos, lemma_pow2_strictly_increases,
    lemma_pow2_unfold, pow2,
};
use vstd::prelude::*;

verus! {

/// `2^53`: quantiles are given in parts of it.
pub const SCALE: u64 = 0x20_0000_0000_0000;

/// One half.
pub const MEDIAN: u64 = 4_503_599_627_370_496;

/// The fraction nearest to 0.9.
pub const NINETY: u64 = 8_106_479_329_266_893;

/// The fraction nearest to 0.99.
pub const NINETY_NINE: u64 = 8_917_127_262_193_582;

/// The fraction nearest to 0.999.
pub const NINETY_NINE_NINE: u64 = 8_998_192_055_486_251;

/// The distance between the numbers of 53 significant bits around `v`.
pub open spec fn unit(v: nat) -> nat
    decreases v,
{
    if v < SCALE {
        1
    } else {
        2 * unit(v / 2)
    }
}

/// The number of 53 significant bits nearest to `v`, and the even one of two.
pub open spec fn rounded(v: nat) -> nat {
    let u = unit(v);
    let below = v / u;
    let rest = v % u;
    if 2 * rest > u || (2 * rest == u && below % 2 == 1) {
        (below + 1) * u
    } else {
        below * u
    }
}

/// The least number of entries that are `quantile / 2^53` of `n` entries, where both `n` and
/// the product are rounded to 53 significant bits.
pub open spec fn rank(quantile: nat, n: nat) -> nat {
    (rounded(quantile * rounded(n)) + 0x1f_ffff_ffff_ffff) / 0x20_0000_0000_0000
}

proof fn lemma_unit(v: nat)
    ensures
        unit(v) >= 1,
        v < 0x20_0000_0000_0000 * unit(v),
        unit(v) > 1 ==> 0x20_0000_0000_0000 * unit(v) <= 2 * v,
    decreases v,
{
    if v >= SCALE {
        lemma_unit(v / 2);
    }
}

proof fn lemma_rounded(v: nat)
    ensures
        2 * rounded(v) <= 2 * v + unit(v),
        2 * v <= 2 * rounded(v) + unit(v),
        unit(v) == 1 ==> rounded(v) == v,
        0x20_0000_0000_0000 * rounded(v) <= 0x20_0000_0000_0001 * v,
        0x1f_ffff_ffff_ffff * v <= 0x20_0000_0000_0000 * rounded(v),
{
    let u = unit(v) as int;
    lemma_unit(v);
    lemma_fundamental_div_mod(v as int, u);
    let below = v as int / u;
    assert((below + 1) * u == below * u + u) by (nonlinear_arith);
    assert(u * below == below * u) by (nonlinear_arith);
}

/// Rounds to 53 significant bits.
fn round(v: u128) -> (r: u128)
    requires
        v < 0x20_0000_0000_0000_0000_0000_0000_0000,
    ensures
        r == rounded(v as nat),
{
    let mut below: u128 = v;
    let mut u: u128 = 1;
    while below >= 0x20_0000_0000_0000
        invariant
            v < 0x20_0000_0000_0000_0000_0000_0000_0000,
            1 <= u,
            u == 1 || 0x10_0000_0000_0000 * u <= v,
            unit(v as nat) == u * unit(below as nat),
            below * u <= v,
            v < (below + 1) * u,
        decreases below,
    {
        let ghost half = below / 2;
        let ghost w = unit(half as nat);
        assert(unit(below as nat) == 2 * w);
        assert(u * (2 * w) == (2 * u) * w) by (nonlinear_arith);
        assert(half * (2 * u) <= v) by (nonlinear_arith)
            requires
                2 * half <= below,
                below * u <= v,
                u >= 1,
        ;
        assert(v < (half + 1) * (2 * u)) by (nonlinear_arith)
            requires
                below + 1 <= 2 * (half + 1),
                v < (below + 1) * u,
                u >= 1,
        ;
        assert(0x10_0000_0000_0000 * (2 * u) <= v) by (nonlinear_arith)
            requires
                below >= 0x20_0000_0000_0000,
                below * u <= v,
                u >= 1,
        ;
        below = below / 2;
        u = 2 * u;
    }
    assert(unit(v as nat) == u) by {
        assert(unit(below as nat) == 1);
        assert(u * 1 == u);
    }
    let ghost rest = v - below * u;
    assert(below * u + rest == v && 0 <= rest < u) by (nonlinear_arith)
        requires
            rest == v - below * u,
            below * u <= v,
            v < (below + 1) * u,
    ;
    proof {
        assert(u * below == below * u) by (nonlinear_arith);
        lemma_fundamental_div_mod_converse(v as int, u as int, below as int, rest);
        assert((below + 1) * u == below * u + u) by (nonlinear_arith);
    }
    let floor: u128 = below * u;
    let over: u128 = v - floor;
    if 2 * over > u || (2 * over == u && below % 2 == 1) {
        floor + u
    } else {
        floor
    }
}

/// A quantile stands for at least one of some entries, and for no more than there are.
pub(crate) proof fn lemma_rank_bounds(quantile: nat, n: nat)
    requires
        0 < quantile <= NINETY_NINE_NINE,
    ensures
        rank(quantile, n) <= n,
        n > 0 ==> rank(quantile, n) > 0,
{
    let x = rounded(n);
    let v = quantile * x;
    let y = rounded(v);
    lemma_rounded(n);
    lemma_rounded(v);
    assert(0x20_0000_0000_0000 * v <= 8_998_192_055_486_251 * (0x20_0000_0000_0001 * n))
        by (nonlinear_arith)
        requires
            v == quantile * x,
            quantile <= 8_998_192_055_486_251,
            0x20_0000_0000_0000 * x <= 0x20_0000_0000_0001 * n,
    ;
    assert(y <= 0x20_0000_0000_0000 * n);
    if n > 0 {
        assert(x > 0);
        assert(v > 0) by (nonlinear_arith)
            requires
                v == quantile * x,
                quantile > 0,
                x > 0,
        ;
        assert(y > 0);
    }
}

/// How many of `n` entries a quantile stands for.
pub fn rank_of(quantile: u64, n: u64) -> (r: u64)
    requires
        0 < quantile <= NINETY_NINE_NINE,
    ensures
        r == rank(quantile as nat, n as nat),
{
    proof {
        lemma_rounded(n as nat);
        lemma_rank_bounds(quantile as nat, n as nat);
    }
    let count: u128 = round(n as u128);
    assert(quantile * count < 0x20_0000_0000_0000_0000_0000_0000_0000) by (nonlinear_arith)
        requires
            quantile <= 8_998_192_055_486_251,
            0x20_0000_0000_0000 * count <= 0x20_0000_0000_0001 * n,
            n < 0x1_0000_0000_0000_0000,
    ;
    let product: u128 = quantile as u128 * count;
    proof {
        lemma_rounded(product as nat);
    }
    let share: u128 = round(product);
    let r: u128 = (share + 0x1f_ffff_ffff_ffff) / 0x20_0000_0000_0000;
    r as u64
}

proof fn lemma_unit_grows(a: nat, b: nat)
    requires
        a <= b,
    ensures
        unit(a) == unit(b) || 2 * unit(a) <= unit(b),
    decreases b,
{
    if a >= SCALE {
        lemma_unit_grows(a / 2, b / 2);
    } else if b >= SCALE {
        lemma_unit(b / 2);
    }
}

proof fn lemma_rounded_grows(a: nat, b: nat)
    requires
        a <= b,
    ensures
        rounded(a) <= rounded(b),
{
    let u = unit(a) as int;
    let w = unit(b) as int;
    let i = a as int / u;
    let j = b as int / w;
    lemma_unit(a);
    lemma_unit(b);
    lemma_rounded(a);
    lemma_rounded(b);
    lemma_unit_grows(a, b);
    lemma_fundamental_div_mod(a as int, u);
    lemma_fundamental_div_mod(b as int, w);
    assert((i + 1) * u == i * u + u && u * i == i * u) by (nonlinear_arith);
    assert((j + 1) * w == j * w + w && w * j == j * w) by (nonlinear_arith);
    if u == w {
        assert(i <= j) by (nonlinear_arith)
            requires
                i * u <= a,
                a <= b,
                b < (j + 1) * u,
                u >= 1,
        ;
        if i < j {
            assert((i + 1) * u <= j * u) by (nonlinear_arith)
                requires
                    i + 1 <= j,
                    u >= 1,
            ;
        }
    } else {
        // All of `a` rounds to at most `2^53 * u`, and all of `b` to at least that.
        assert(i + 1 <= 0x20_0000_0000_0000) by (nonlinear_arith)
            requires
                i * u <= a,
                a < 0x20_0000_0000_0000 * u,
                u >= 1,
        ;
        assert((i + 1) * u <= 0x20_0000_0000_0000 * u) by (nonlinear_arith)
            requires
                i + 1 <= 0x20_0000_0000_0000,
                u >= 1,
        ;
        assert(j >= 0x10_0000_0000_0000) by (nonlinear_arith)
            requires
                0x20_0000_0000_0000 * w <= 2 * b,
                b < (j + 1) * w,
                w >= 1,
        ;
        assert(j * w >= 0x10_0000_0000_0000 * w) by (nonlinear_arith)
            requires
                j >= 0x10_0000_0000_0000,
                w >= 1,
        ;
    }
}

/// A higher quantile never stands for fewer entries.
pub proof fn law_rank_grows(s: nat, t: nat, n: nat)
    requires
        s <= t,
    ensures
        rank(s, n) <= rank(t, n),
{
    let x = rounded(n);
    assert(s * x <= t * x) by (nonlinear_arith)
        requires
            s <= t,
    ;
    lemma_rounded_grows(s * x, t * x);
}

/// A number that is nearer to `v` than half the distance between the numbers of 53 bits,
/// and is one of them, is what `v` is rounded to.
proof fn lemma_nearest(v: nat, t: int)
    requires
        2 * (v - t * unit(v)) < unit(v),
        2 * (t * unit(v) - v) < unit(v),
    ensures
        rounded(v) == t * unit(v),
{
    let u = unit(v) as int;
    let below = v as int / u;
    lemma_unit(v);
    lemma_rounded(v);
    let s = if rounded(v) == (below + 1) * u { below + 1 } else { below };
    assert(rounded(v) == s * u);
    assert(s == t) by (nonlinear_arith)
        requires
            s * u - t * u < u,
            t * u - s * u < u,
            u >= 1,
    ;
}

proof fn lemma_unit_divides(v: nat, j: nat) -> (w: nat)
    requires
        v < 0x20_0000_0000_0000 * pow2(j),
    ensures
        unit(v) * w == pow2(j),
    decreases j,
{
    if v < SCALE {
        assert(unit(v) * pow2(j) == pow2(j)) by (nonlinear_arith)
            requires
                unit(v) == 1,
        ;
        pow2(j)
    } else {
        if j == 0 {
            lemma2_to64();
        }
        lemma_pow2_unfold(j);
        let w = lemma_unit_divides(v / 2, (j - 1) as nat);
        assert(unit(v) * w == 2 * (unit(v / 2) * w)) by (nonlinear_arith)
            requires
                unit(v) == 2 * unit(v / 2),
        ;
        w
    }
}

/// A quantile that is within a quarter of `1 / d` parts of `m / d` stands for the least
/// number of entries that are `m / d` of them.
proof fn lemma_rank_is_share(quantile: int, m: int, d: int, e: int, n: nat)
    requires
        0x10_0000_0000_0000 <= quantile < 0x20_0000_0000_0000,
        0 < m < d <= 1000,
        quantile * d == m * 0x20_0000_0000_0000 + e,
        -d <= 4 * e <= d,
        n <= 0x400_0000_0000,
    ensures
        rank(quantile as nat, n) == (m * n + d - 1) / d,
{
    let v = (quantile * n) as nat;
    let y = rounded(v);
    let k = (m * n + d - 1) / d;
    let whole = 0x20_0000_0000_0000int;
    assert(0 <= quantile * n) by (nonlinear_arith)
        requires
            quantile >= 0,
            n >= 0,
    ;
    assert(0x10_0000_0000_0000 * n <= v <= whole * n) by (nonlinear_arith)
        requires
            v == quantile * n,
            0x10_0000_0000_0000 <= quantile <= whole,
    ;
    lemma_rounded(n);
    assert(unit(n) == 1);
    assert(rank(quantile as nat, n) == (y + 0x1f_ffff_ffff_ffff) / 0x20_0000_0000_0000);
    lemma_unit(v);
    lemma_rounded(v);
    assert(d * v == m * n * whole + e * n) by (nonlinear_arith)
        requires
            v == quantile * n,
            quantile * d == m * whole + e,
    ;
    assert(-(d * n) <= 4 * (e * n) <= d * n) by (nonlinear_arith)
        requires
            -d <= 4 * e <= d,
            n >= 0,
    ;
    assert(0 <= d * n <= 1000 * n) by (nonlinear_arith)
        requires
            0 <= d <= 1000,
            n >= 0,
    ;
    assert(d * k - d < m * n <= d * k) by (nonlinear_arith)
        requires
            k == (m * n + d - 1) / d,
            d > 0,
    ;
    assert(d * (k * whole) == d * k * whole) by (nonlinear_arith);
    if m * n == d * k {
        let far = v - k * whole;
        assert(d * far == e * n) by (nonlinear_arith)
            requires
                far == v - k * whole,
                d * v == m * n * whole + e * n,
                m * n == d * k,
        ;
        assert(-n <= 4 * far <= n) by (nonlinear_arith)
            requires
                d * far == e * n,
                -(d * n) <= 4 * (e * n) <= d * n,
                d > 0,
        ;
        lemma2_to64_rest();
        assert(v < whole * 0x400_0000_0000) by (nonlinear_arith)
            requires
                v == quantile * n,
                0 <= quantile < whole,
                0 <= n <= 0x400_0000_0000,
        ;
        let w = lemma_unit_divides(v, 42);
        let u = unit(v);
        assert((k * w * 2048) * u == k * whole) by (nonlinear_arith)
            requires
                u * w == 0x400_0000_0000,
                whole == 0x20_0000_0000_0000,
        ;
        if n > 0 {
            lemma_nearest(v, k * w * 2048);
        }
    } else {
        let off = y - v;
        assert(-n <= off <= n);
        assert(-(d * n) <= d * off <= d * n) by (nonlinear_arith)
            requires
                -n <= off <= n,
                d > 0,
        ;
        assert(d * y == d * v + d * off) by (nonlinear_arith)
            requires
                off == y - v,
        ;
        assert(y < k * whole) by (nonlinear_arith)
            requires
                d * y < d * (k * whole),
                d > 0,
        ;
        assert(d * ((k - 1) * whole) == (d * k - d) * whole) by (nonlinear_arith);
        assert(y > (k - 1) * whole) by (nonlinear_arith)
            requires
                d * y > d * ((k - 1) * whole),
                d > 0,
        ;
    }
}

/// As long as there are no more than `2^42` entries, nothing is lost to the rounding: the
/// quantiles stand for the least number of entries that are a half, 90 %, 99 % and 99.9 %
/// of them.
pub proof fn law_rank_is_exact(n: nat)
    requires
        n <= 0x400_0000_0000,
    ensures
        rank(MEDIAN as nat, n) == (n + 1) / 2,
        rank(NINETY as nat, n) == (9 * n + 9) / 10,
        rank(NINETY_NINE as nat, n) == (99 * n + 99) / 100,
        rank(NINETY_NINE_NINE as nat, n) == (999 * n + 999) / 1000,
{
    lemma_rank_is_share(MEDIAN as int, 1, 2, 0, n);
    lemma_rank_is_share(NINETY as int, 9, 10, 2, n);
    lemma_rank_is_share(NINETY_NINE as int, 99, 100, -8, n);
    lemma_rank_is_share(NINETY_NINE_NINE as int, 999, 1000, -8, n);
}

/// A rank is the least whole number that is not below the rounded product, in parts of `2^53`.
pub proof fn law_rank_is_the_ceiling(quantile: nat, n: nat)
    ensures
        rounded(quantile * rounded(n)) <= 0x20_0000_0000_0000 * rank(quantile, n),
        0x20_0000_0000_0000 * rank(quantile, n) < rounded(quantile * rounded(n))
            + 0x20_0000_0000_0000,
{
}

/// The distance between the numbers of 53 significant bits is a power of two, and `v` begins
/// with 53 bits above it, where it has that many.
proof fn lemma_unit_is_a_power(v: nat) -> (m: nat)
    ensures
        unit(v) == pow2(m),
        v < 0x20_0000_0000_0000 * pow2(m),
        m > 0 ==> 0x10_0000_0000_0000 * pow2(m) <= v,
    decreases v,
{
    lemma2_to64();
    if v < SCALE {
        0
    } else {
        let m = lemma_unit_is_a_power(v / 2);
        lemma_pow2_unfold(m + 1);
        m + 1
    }
}

/// What a number is rounded to has 53 significant bits: it is some `t * 2^k` with `t` at most
/// `2^53`.
pub proof fn law_rounded_has_53_bits(v: nat) -> (r: (nat, nat))
    ensures
        r.0 <= 0x20_0000_0000_0000,
        rounded(v) == r.0 * pow2(r.1),
{
    let m = lemma_unit_is_a_power(v);
    let u = unit(v) as int;
    let below = v as int / u;
    lemma_unit(v);
    lemma_fundamental_div_mod(v as int, u);
    assert(below + 1 <= 0x20_0000_0000_0000 && 0 <= below) by (nonlinear_arith)
        requires
            u * below <= v,
            v < 0x20_0000_0000_0000 * u,
            v < u * below + u,
            v >= 0,
            u >= 1,
    ;
    if rounded(v) == (below + 1) * u {
        ((below + 1) as nat, m)
    } else {
        (below as nat, m)
    }
}

/// No number of 53 significant bits is nearer to `v` than the one that it is rounded to.
pub proof fn law_rounded_is_nearest(v: nat, t: nat, k: nat)
    requires
        t <= 0x20_0000_0000_0000,
    ensures
        v <= t * pow2(k) ==> v - rounded(v) <= t * pow2(k) - v && rounded(v) - v <= t * pow2(k) - v,
        v >= t * pow2(k) ==> v - rounded(v) <= v - t * pow2(k) && rounded(v) - v <= v - t * pow2(k),
{
    let m = lemma_unit_is_a_power(v);
    let u = unit(v) as int;
    let below = v as int / u;
    let rest = v as int % u;
    let g = t * pow2(k);
    lemma_unit(v);
    lemma_fundamental_div_mod(v as int, u);
    assert((below + 1) * u == below * u + u && u * below == below * u) by (nonlinear_arith);
    if k >= m {
        lemma_pow2_adds((k - m) as nat, m);
        let s = (t * pow2((k - m) as nat)) as int;
        assert(g == s * u) by (nonlinear_arith)
            requires
                g == t * pow2(k),
                pow2(k) == pow2((k - m) as nat) * u,
                s == t * pow2((k - m) as nat),
        ;
        if s <= below {
            assert(s * u <= below * u) by (nonlinear_arith)
                requires
                    s <= below,
                    u >= 1,
            ;
        } else {
            assert(s * u >= (below + 1) * u) by (nonlinear_arith)
                requires
                    s >= below + 1,
                    u >= 1,
            ;
        }
    } else {
        lemma_pow2_unfold(m);
        lemma_pow2_strictly_increases(k, m);
        let half = pow2((m - 1) as nat);
        assert(pow2(k) <= half) by {
            if k < m - 1 {
                lemma_pow2_strictly_increases(k, (m - 1) as nat);
            }
        }
        assert(g <= 0x10_0000_0000_0000 * u) by (nonlinear_arith)
            requires
                g == t * pow2(k),
                t <= 0x20_0000_0000_0000,
                pow2(k) <= half,
                u == 2 * half,
        ;
        assert(below >= 0x10_0000_0000_0000) by (nonlinear_arith)
            requires
                0x10_0000_0000_0000 * u <= v,
                v < below * u + u,
                u >= 1,
        ;
        assert(0x10_0000_0000_0000 * u <= below * u) by (nonlinear_arith)
            requires
                below >= 0x10_0000_0000_0000,
                u >= 1,
        ;
    }
}

/// A number that lies halfway between two of 53 significant bits is rounded to the even one.
pub proof fn law_ties_are_rounded_to_even(a: nat, k: nat)
    requires
        0x10_0000_0000_0000 <= a < 0x20_0000_0000_0000,
    ensures
        a % 2 == 0 ==> rounded((2 * a + 1) * pow2(k)) == a * pow2(k + 1),
        a % 2 == 1 ==> rounded((2 * a + 1) * pow2(k)) == (a + 1) * pow2(k + 1),
{
    let v = (2 * a + 1) * pow2(k);
    let w = pow2(k);
    let m = lemma_unit_is_a_power(v);
    lemma_pow2_unfold(k + 1);
    lemma_pow2_pos(k);
    assert(0x20_0000_0000_0000 * w <= v < 0x40_0000_0000_0000 * w) by (nonlinear_arith)
        requires
            v == (2 * a + 1) * w,
            0x10_0000_0000_0000 <= a < 0x20_0000_0000_0000,
            w >= 1,
    ;
    if m < k + 1 {
        if m < k {
            lemma_pow2_strictly_increases(m, k);
        }
        assert(pow2(m) <= w);
    }
    if m > k + 1 {
        lemma_pow2_strictly_increases(k + 1, m);
        lemma_pow2_unfold(m);
        if m > k + 2 {
            lemma_pow2_strictly_increases(k + 2, m);
        }
        lemma_pow2_unfold(k + 2);
    }
    assert(m == k + 1);
    let u = unit(v) as int;
    assert(v == a * u + w && u == 2 * w) by (nonlinear_arith)
        requires
            v == (2 * a + 1) * w,
            u == 2 * w,
    ;
    assert(u * a == a * u) by (nonlinear_arith);
    lemma_fundamental_div_mod_converse(v as int, u, a as int, w as int);
}

} // verus!
