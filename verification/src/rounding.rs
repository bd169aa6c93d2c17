//! Rounding of ratios to 24 significant bits.
//!
//! Binary floating point with a 24-bit significand keeps, of every result, the
//! nearest value whose magnitude is a whole multiple of a power-of-two spacing
//! and has at most 24 significant bits; a result halfway between two such
//! values goes to the one with the even significand. This module states that
//! rule over the integers and implements it with integer arithmetic only.
//!
//! [`round24`] is the rule and [`round_ratio`] computes it. That the rule
//! gives the nearest value of 24 bits, that it leaves such values alone, and
//! that it is symmetric about zero is proved in
//! [`lemma_round24_is_nearest`], [`lemma_round24_exact`] and
//! [`lemma_round24_negate`].

use vstd::prelude::*;
use vstd::arithmetic::div_mod::lemma_fundamental_div_mod_converse;
use vstd::arithmetic::div_mod::lemma_fundamental_div_mod;
use vstd::arithmetic::div_mod::lemma_div_multiples_vanish;
use vstd::arithmetic::div_mod::lemma_mod_multiples_basic;
use vstd::arithmetic::power2::pow2;
use vstd::arithmetic::power2::lemma_pow2_pos;
use vstd::arithmetic::power2::lemma_pow2_unfold;

verus! {

/// The smallest magnitude that no longer fits in 24 bits: 2^24.
pub const SIGNIFICAND_LIMIT: u128 = 0x100_0000;

/// Largest magnitude of a numerator that [`round_ratio`] accepts: 2^100.
pub const NUMERATOR_LIMIT: i128 = 0x10_0000_0000_0000_0000_0000_0000;

/// The absolute value of `a`.
pub open spec fn magnitude(a: int) -> nat {
    if a < 0 {
        (-a) as nat
    } else {
        a as nat
    }
}

/// The integer nearest to `a / b`, for positive `b`; where `a / b` lies halfway
/// between two integers, the even one.
pub open spec fn nearest_even(a: int, b: int) -> int {
    let q = a / b;
    let r = a % b;
    if 2 * r > b || (2 * r == b && q % 2 != 0) {
        q + 1
    } else {
        q
    }
}

/// The distance between neighbouring values of 24 significant bits at
/// magnitude `m`: 1 below 2^24, and doubling with each further bit of `m`.
pub open spec fn spacing(m: nat) -> nat
    decreases m,
{
    if m < SIGNIFICAND_LIMIT {
        1
    } else {
        2 * spacing(m / 2)
    }
}

/// `a / b`, for positive `b`, rounded to 24 significant bits: to the nearest
/// multiple of the spacing at its magnitude, ties to the even multiple.
pub open spec fn round24(a: int, b: int) -> int {
    let step = spacing(magnitude(a) / (b as nat)) as int;
    nearest_even(a, b * step) * step
}

/// The spacing is positive and does not exceed the magnitude it belongs to
/// (or is 1).
pub proof fn lemma_spacing_bounds(m: nat)
    ensures
        1 <= spacing(m),
        spacing(m) <= m || spacing(m) == 1,
        spacing(m) * 0x80_0000 <= m || spacing(m) == 1,
    decreases m,
{
    if m >= SIGNIFICAND_LIMIT {
        lemma_spacing_bounds(m / 2);
    }
}

/// Rounding is symmetric about zero on integers nearest to a ratio.
pub proof fn lemma_nearest_even_negate(a: int, b: int)
    requires
        b > 0,
    ensures
        nearest_even(-a, b) == -nearest_even(a, b),
{
    let q = a / b;
    let r = a % b;
    lemma_fundamental_div_mod(a, b);
    assert(0 <= r < b);
    assert(a == b * q + r);
    if r == 0 {
        assert(-a == (-q) * b + 0) by (nonlinear_arith)
            requires
                a == b * q + r,
                r == 0,
        ;
        lemma_fundamental_div_mod_converse(-a, b, -q, 0);
    } else {
        assert(-a == (-q - 1) * b + (b - r)) by (nonlinear_arith)
            requires
                a == b * q + r,
        ;
        lemma_fundamental_div_mod_converse(-a, b, -q - 1, b - r);
    }
}

/// Rounding to 24 significant bits is symmetric about zero.
pub proof fn lemma_round24_negate(a: int, b: int)
    requires
        b > 0,
    ensures
        round24(-a, b) == -round24(a, b),
{
    let step = spacing(magnitude(a) / (b as nat)) as int;
    lemma_spacing_bounds(magnitude(a) / (b as nat));
    assert(magnitude(-a) == magnitude(a));
    assert(b * step > 0) by (nonlinear_arith)
        requires
            b > 0,
            step > 0,
    ;
    lemma_nearest_even_negate(a, b * step);
    let n = nearest_even(a, b * step);
    assert((-n) * step == -(n * step)) by (nonlinear_arith);
}

/// Whether `c` has at most 24 significant bits: it is a whole multiple of the
/// spacing at its own magnitude.
pub open spec fn representable(c: int) -> bool {
    c % (spacing(magnitude(c)) as int) == 0
}

/// A value of at most 24 significant bits is the rounded value of every ratio
/// that equals it.
pub proof fn lemma_round24_exact(c: int, b: int)
    requires
        b > 0,
        representable(c),
    ensures
        round24(c * b, b) == c,
{
    let a = c * b;
    let m = magnitude(c);
    let step = spacing(m) as int;
    lemma_spacing_bounds(m);
    assert(magnitude(a) == b * m) by (nonlinear_arith)
        requires
            a == c * b,
            b > 0,
            m == magnitude(c),
    ;
    lemma_div_multiples_vanish(m as int, b);
    assert(magnitude(a) / (b as nat) == m);
    lemma_fundamental_div_mod(c, step);
    let whole = c / step;
    assert(a == whole * (b * step) + 0) by (nonlinear_arith)
        requires
            a == c * b,
            c == step * whole,
    ;
    assert(b * step > 0) by (nonlinear_arith)
        requires
            b > 0,
            step > 0,
    ;
    lemma_fundamental_div_mod_converse(a, b * step, whole, 0);
    assert(nearest_even(a, b * step) == whole);
    assert(whole * step == c) by (nonlinear_arith)
        requires
            c == step * whole,
    ;
}

/// The spacing at a magnitude below 2^(24 + j) divides 2^j.
proof fn lemma_spacing_divides(m: nat, j: nat) -> (t: nat)
    requires
        m < SIGNIFICAND_LIMIT * pow2(j),
    ensures
        pow2(j) == t * spacing(m),
    decreases m,
{
    lemma_pow2_pos(j);
    if m < SIGNIFICAND_LIMIT {
        assert(pow2(j) * 1 == pow2(j)) by (nonlinear_arith);
        pow2(j)
    } else {
        assert(j > 0) by {
            if j == 0 {
                assert(pow2(0) == 1) by {
                    vstd::arithmetic::power2::lemma2_to64();
                }
            }
        }
        lemma_pow2_unfold(j);
        let t = lemma_spacing_divides(m / 2, (j - 1) as nat);
        assert(pow2(j) == t * spacing(m)) by (nonlinear_arith)
            requires
                pow2(j) == 2 * pow2((j - 1) as nat),
                pow2((j - 1) as nat) == t * spacing(m / 2),
                spacing(m) == 2 * spacing(m / 2),
        ;
        t
    }
}

/// A number below 2^24 in magnitude, times a power of two, has at most 24
/// significant bits.
pub proof fn lemma_representable_multiple(k: int, j: nat)
    requires
        magnitude(k) < SIGNIFICAND_LIMIT,
    ensures
        representable(k * pow2(j)),
{
    let g = pow2(j) as int;
    let c = k * g;
    lemma_pow2_pos(j);
    assert(magnitude(c) == magnitude(k) * g && magnitude(c) < SIGNIFICAND_LIMIT * g)
        by (nonlinear_arith)
        requires
            c == k * g,
            g > 0,
            magnitude(k) < SIGNIFICAND_LIMIT,
    ;
    let t = lemma_spacing_divides(magnitude(c), j);
    let step = spacing(magnitude(c)) as int;
    lemma_spacing_bounds(magnitude(c));
    assert(c == (k * t) * step) by (nonlinear_arith)
        requires
            c == k * g,
            g == t * step,
    ;
    lemma_mod_multiples_basic(k * t, step);
}

/// The nearest integer is nearest: it is off by at most one half, and where
/// it is off by exactly one half it is even.
pub proof fn lemma_nearest_even_is_nearest(a: int, b: int)
    requires
        b > 0,
    ensures
        2 * magnitude(nearest_even(a, b) * b - a) <= b,
        2 * magnitude(nearest_even(a, b) * b - a) == b ==> nearest_even(a, b) % 2 == 0,
{
    let q = a / b;
    let r = a % b;
    lemma_fundamental_div_mod(a, b);
    assert(q * b - a == -r && (q + 1) * b - a == b - r) by (nonlinear_arith)
        requires
            a == b * q + r,
    ;
}

/// The spacing at a magnitude is a power of two, and the magnitude is less
/// than 2^24 times it.
pub proof fn lemma_spacing_is_power(m: nat) -> (e: nat)
    ensures
        spacing(m) == pow2(e),
        m < SIGNIFICAND_LIMIT * spacing(m),
    decreases m,
{
    if m < SIGNIFICAND_LIMIT {
        assert(pow2(0) == 1) by {
            vstd::arithmetic::power2::lemma2_to64();
        }
        0
    } else {
        let e = lemma_spacing_is_power(m / 2);
        lemma_pow2_unfold(e + 1);
        e + 1
    }
}

/// What rounding to 24 significant bits gives: a whole multiple of the
/// spacing at the magnitude of the ratio, off from the ratio by at most half
/// of that spacing, the even multiple where it is off by exactly half, and a
/// value of at most 24 significant bits.
pub proof fn lemma_round24_is_nearest(a: int, b: int)
    requires
        b > 0,
    ensures
        ({
            let step = spacing(magnitude(a) / (b as nat)) as int;
            let r = round24(a, b);
            &&& r == nearest_even(a, b * step) * step
            &&& 2 * magnitude(r * b - a) <= b * step
            &&& 2 * magnitude(r * b - a) == b * step ==> nearest_even(a, b * step) % 2 == 0
            &&& representable(r)
        }),
{
    let m = magnitude(a) / (b as nat);
    let step = spacing(m) as int;
    let e = lemma_spacing_is_power(m);
    lemma_pow2_pos(e);
    let d = b * step;
    assert(d > 0) by (nonlinear_arith)
        requires
            d == b * step,
            b > 0,
            step > 0,
    ;
    let n = nearest_even(a, d);
    let r = n * step;
    lemma_nearest_even_is_nearest(a, d);
    assert(r * b - a == n * d - a) by (nonlinear_arith)
        requires
            r == n * step,
            d == b * step,
    ;
    // The nearest integer has at most 24 bits, or is 2^24 itself.
    lemma_fundamental_div_mod(magnitude(a) as int, b);
    assert(magnitude(a) < SIGNIFICAND_LIMIT * d) by (nonlinear_arith)
        requires
            magnitude(a) == b * m + (magnitude(a) as int) % b,
            0 <= (magnitude(a) as int) % b < b,
            m < SIGNIFICAND_LIMIT * step,
            d == b * step,
            b > 0,
            step > 0,
    ;
    assert(magnitude(n) <= SIGNIFICAND_LIMIT) by (nonlinear_arith)
        requires
            2 * magnitude(n * d - a) <= d,
            magnitude(a) < SIGNIFICAND_LIMIT * d,
            d > 0,
    ;
    if magnitude(n) < SIGNIFICAND_LIMIT {
        lemma_representable_multiple(n, e);
    } else {
        let half = if n < 0 {
            -0x80_0000int
        } else {
            0x80_0000int
        };
        lemma_pow2_unfold(e + 1);
        lemma_representable_multiple(half, e + 1);
        assert(half * pow2(e + 1) == n * step) by (nonlinear_arith)
            requires
                pow2(e + 1) == 2 * pow2(e),
                step == pow2(e),
                n == 2 * half,
        ;
    }
}

/// Rounding a whole number keeps it even: the spacing is 1, where nothing is
/// rounded, or even itself.
pub proof fn lemma_round24_keeps_even(a: int)
    requires
        a % 2 == 0,
    ensures
        round24(a, 1) % 2 == 0,
{
    let m = magnitude(a);
    let step = spacing(m) as int;
    lemma_spacing_bounds(m);
    assert(magnitude(a) / 1 == m);
    assert(1 * step == step);
    let n = nearest_even(a, step);
    if m < SIGNIFICAND_LIMIT {
        assert(step == 1);
        assert(n == a);
        assert(n * step == a);
    } else {
        let half = spacing(m / 2) as int;
        assert(n * step == 2 * (n * half)) by (nonlinear_arith)
            requires
                step == 2 * half,
        ;
    }
}

/// Half of an even value of at most 24 significant bits is such a value
/// too, so that halving it rounds nothing away.
pub proof fn lemma_round24_halves_exactly(a: int)
    requires
        a % 2 == 0,
        representable(a),
    ensures
        2 * round24(a, 2) == a,
{
    let c = a / 2;
    assert(magnitude(a) == 2 * magnitude(c));
    if magnitude(a) >= SIGNIFICAND_LIMIT {
        let fine = spacing(magnitude(c)) as int;
        lemma_spacing_bounds(magnitude(c));
        assert(spacing(magnitude(a)) == 2 * fine);
        lemma_fundamental_div_mod(a, 2 * fine);
        let whole = a / (2 * fine);
        assert(c == whole * fine) by (nonlinear_arith)
            requires
                a == (2 * fine) * whole,
                a == 2 * c,
        ;
        lemma_mod_multiples_basic(whole, fine);
    } else {
        assert(spacing(magnitude(c)) == 1);
    }
    lemma_round24_exact(c, 2);
    assert(c * 2 == a);
}

/// Rounds `a / b` to 24 significant bits, for a non-negative numerator.
fn round_magnitude(a: u128, b: u32) -> (r: u128)
    requires
        b > 0,
        a <= NUMERATOR_LIMIT,
    ensures
        r == round24(a as int, b as int),
        r <= 2 * a + 1,
{
    let wide: u128 = b as u128;
    let q: u128 = a / wide;
    let mut step: u128 = 1;
    let mut m: u128 = q;
    while m >= SIGNIFICAND_LIMIT
        invariant
            step >= 1,
            m * step <= q,
            q <= NUMERATOR_LIMIT,
            spacing(q as nat) == step * spacing(m as nat),
        decreases m,
    {
        proof {
            let half = (m / 2) as int;
            assert(half * (2 * step) <= m * step) by (nonlinear_arith)
                requires
                    half * 2 <= m,
                    step >= 1,
            ;
            assert(step * (2 * spacing((m / 2) as nat)) == (2 * step) * spacing((m / 2) as nat))
                by (nonlinear_arith);
            assert(2 * step <= m * step) by (nonlinear_arith)
                requires
                    m >= 2,
                    step >= 1,
            ;
        }
        m = m / 2;
        step = step * 2;
    }
    proof {
        assert(step * 1 == step) by (nonlinear_arith);
        lemma_spacing_bounds(q as nat);
        lemma_fundamental_div_mod(a as int, wide as int);
        assert(1 <= wide * step && (wide * step <= a || step == 1) && wide * step
            <= 0x10_0000_0000_0000_0000_0000_0000 + 0xffff_ffff) by (nonlinear_arith)
            requires
                step <= q || step == 1,
                step >= 1,
                wide * q <= a,
                1 <= wide <= 0xffff_ffff,
                a <= 0x10_0000_0000_0000_0000_0000_0000,
        ;
    }
    let d: u128 = wide * step;
    let whole: u128 = a / d;
    let rest: u128 = a % d;
    proof {
        lemma_fundamental_div_mod(a as int, d as int);
        assert(whole * step <= a) by (nonlinear_arith)
            requires
                d * whole <= a,
                d == wide * step,
                wide >= 1,
                step >= 1,
        ;
        assert(step <= a || step == 1);
    }
    let up: bool = 2 * rest > d || (2 * rest == d && whole % 2 != 0);
    let n: u128 = if up {
        whole + 1
    } else {
        whole
    };
    assert(n * step <= whole * step + step) by (nonlinear_arith)
        requires
            n <= whole + 1,
            step >= 1,
    ;
    n * step
}

/// Rounds `a / b` to 24 significant bits: nearest, ties to even.
pub fn round_ratio(a: i128, b: u32) -> (r: i128)
    requires
        b > 0,
        -NUMERATOR_LIMIT <= a <= NUMERATOR_LIMIT,
    ensures
        r == round24(a as int, b as int),
        -(2 * magnitude(a as int) + 1) <= r <= 2 * magnitude(a as int) + 1,
{
    if a >= 0 {
        round_magnitude(a as u128, b) as i128
    } else {
        let flipped: u128 = (-a) as u128;
        proof {
            lemma_round24_negate(flipped as int, b as int);
        }
        -(round_magnitude(flipped, b) as i128)
    }
}

} // verus!
