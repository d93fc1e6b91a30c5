//! Fixed-point scalar arithmetic.
//!
//! A scalar is an `i64` counting millionths: [`ONE`] units stand for `1.0`.
//! Every operation saturates at `FX_MAX` / `-FX_MAX`, so the arithmetic is
//! total; a saturated value plays the role of an infinite one. Multiplication
//! and division truncate toward zero, like hardware floating point rounds —
//! the specification functions below pin the result of every operation
//! exactly.

use vstd::prelude::*;

verus! {

/// Number of fixed-point units in `1.0`.
pub const ONE: i64 = 1_000_000;

/// Number of fixed-point units in `2.0`.
pub const TWO: i64 = 2_000_000;

/// Number of fixed-point units in `4.0`.
pub const FOUR: i64 = 4_000_000;

/// Number of fixed-point units in `0.5`.
pub const HALF: i64 = 500_000;

/// Largest magnitude a scalar can carry; arithmetic saturates here, and the
/// value doubles as "infinity" (for instance as the upper hit bound).
pub const FX_MAX: i64 = 9_223_372_036_854_775_807;

/// Saturate an unbounded integer into the symmetric representable range.
pub open spec fn spec_clip(v: int) -> int {
    if v > FX_MAX as int {
        FX_MAX as int
    } else if v < -(FX_MAX as int) {
        -(FX_MAX as int)
    } else {
        v
    }
}

/// Division truncating toward zero (the rounding of `/` on machine integers),
/// defined for any non-zero divisor.
pub open spec fn spec_tdiv(n: int, d: int) -> int
    recommends
        d != 0,
{
    let q = (vstd::math::abs(n) / vstd::math::abs(d)) as int;
    if (n >= 0) == (d >= 0) {
        q
    } else {
        -q
    }
}

/// Saturating fixed-point addition.
pub open spec fn spec_add(a: int, b: int) -> int {
    spec_clip(a + b)
}

/// Saturating fixed-point subtraction.
pub open spec fn spec_sub(a: int, b: int) -> int {
    spec_clip(a - b)
}

/// Saturating fixed-point negation.
pub open spec fn spec_neg(a: int) -> int {
    spec_clip(-a)
}

/// Saturating fixed-point multiplication: the exact product scaled back down,
/// truncated toward zero.
pub open spec fn spec_mul(a: int, b: int) -> int {
    spec_clip(spec_tdiv(a * b, ONE as int))
}

/// Saturating fixed-point division. Division by zero saturates to the signed
/// "infinity", and `0 / 0` is zero.
pub open spec fn spec_div(a: int, b: int) -> int {
    if b == 0 {
        if a > 0 {
            FX_MAX as int
        } else if a < 0 {
            -(FX_MAX as int)
        } else {
            0
        }
    } else {
        spec_clip(spec_tdiv(a * ONE, b))
    }
}

/// The integer square root: the largest `r` with `r * r <= n`.
pub open spec fn sqrt_floor(n: nat) -> nat
    decreases n,
{
    if n == 0 {
        0
    } else {
        let r = sqrt_floor((n - 1) as nat);
        if (r + 1) * (r + 1) <= n {
            r + 1
        } else {
            r
        }
    }
}

/// Fixed-point square root; non-positive inputs give zero.
pub open spec fn spec_sqrt(a: int) -> int {
    if a <= 0 {
        0
    } else {
        sqrt_floor((a * ONE) as nat) as int
    }
}

/// `sqrt_floor` is what its name says: its square is at most `n`, and the
/// next square is beyond `n`.
pub proof fn lemma_sqrt_floor(n: nat)
    ensures
        sqrt_floor(n) * sqrt_floor(n) <= n,
        n < (sqrt_floor(n) + 1) * (sqrt_floor(n) + 1),
    decreases n,
{
    if n > 0 {
        lemma_sqrt_floor((n - 1) as nat);
        let r = sqrt_floor((n - 1) as nat);
        if (r + 1) * (r + 1) <= n {
            assert(sqrt_floor(n) == r + 1);
            assert(n < (r + 2) * (r + 2)) by (nonlinear_arith)
                requires
                    (r + 1) * (r + 1) <= n,
                    n - 1 < (r + 1) * (r + 1),
                    r >= 0,
            {
            }
            assert(n < (sqrt_floor(n) + 1) * (sqrt_floor(n) + 1));
        } else {
            assert(sqrt_floor(n) == r);
            assert(r * r <= n - 1);
            assert(n < (sqrt_floor(n) + 1) * (sqrt_floor(n) + 1));
        }
    } else {
        let s = sqrt_floor(n);
        assert(s == 0);
        assert(n < (s + 1) * (s + 1)) by (nonlinear_arith)
            requires
                s == 0,
                n == 0,
        {
        }
    }
}

/// Only one value can sit between the two squares, so any witness equals
/// `sqrt_floor(n)`.
pub proof fn lemma_sqrt_floor_unique(n: nat, r: nat)
    requires
        r * r <= n,
        n < (r + 1) * (r + 1),
    ensures
        r == sqrt_floor(n),
{
    lemma_sqrt_floor(n);
    let s = sqrt_floor(n);
    assert(r == s) by (nonlinear_arith)
        requires
            r * r <= n,
            n < (r + 1) * (r + 1),
            s * s <= n,
            n < (s + 1) * (s + 1),
            r >= 0,
            s >= 0,
    {
        if r < s {
            assert((r + 1) * (r + 1) <= s * s);
        }
        if s < r {
            assert((s + 1) * (s + 1) <= r * r);
        }
    }
}

/// Truncating division is monotone in the numerator, for a positive divisor.
pub proof fn lemma_spec_tdiv_mono(n1: int, n2: int, d: int)
    requires
        n1 <= n2,
        d > 0,
    ensures
        spec_tdiv(n1, d) <= spec_tdiv(n2, d),
{
    if n1 >= 0 {
        vstd::arithmetic::div_mod::lemma_div_is_ordered(n1, n2, d);
    } else if n2 < 0 {
        vstd::arithmetic::div_mod::lemma_div_is_ordered(-n2, -n1, d);
    } else {
        vstd::arithmetic::div_mod::lemma_div_pos_is_pos(-n1, d);
        vstd::arithmetic::div_mod::lemma_div_pos_is_pos(n2, d);
    }
}

/// Saturating division is monotone in the numerator, for a non-negative
/// divisor (division by zero saturates by the numerator's sign).
pub proof fn lemma_spec_div_mono(n1: int, n2: int, d: int)
    requires
        n1 <= n2,
        d >= 0,
    ensures
        spec_div(n1, d) <= spec_div(n2, d),
{
    if d > 0 {
        lemma_spec_tdiv_mono(n1 * ONE, n2 * ONE, d);
    }
}

/// A fixed-point square is non-negative.
pub proof fn lemma_spec_mul_self_nonneg(a: int)
    ensures
        spec_mul(a, a) >= 0,
{
    assert(a * a >= 0) by (nonlinear_arith);
    vstd::arithmetic::div_mod::lemma_div_pos_is_pos(a * a, ONE as int);
}

/// A fixed-point product of non-negative factors is non-negative.
pub proof fn lemma_spec_mul_nonneg(a: int, b: int)
    requires
        a >= 0,
        b >= 0,
    ensures
        spec_mul(a, b) >= 0,
{
    vstd::arithmetic::mul::lemma_mul_nonnegative(a, b);
    vstd::arithmetic::div_mod::lemma_div_pos_is_pos(a * b, ONE as int);
}

/// Truncating division lands within one divisor of the exact quotient.
pub proof fn lemma_tdiv_close(n: int, d: int)
    requires
        d > 0,
    ensures
        n - d < spec_tdiv(n, d) * d < n + d,
{
    if n >= 0 {
        vstd::arithmetic::div_mod::lemma_remainder(n, d);
        vstd::arithmetic::mul::lemma_mul_is_commutative(n / d, d);
    } else {
        vstd::arithmetic::div_mod::lemma_remainder(-n, d);
        vstd::arithmetic::mul::lemma_mul_is_commutative((-n) / d, d);
        assert(spec_tdiv(n, d) * d == -(((-n) / d) * d)) by (nonlinear_arith)
            requires
                spec_tdiv(n, d) == -((-n) / d),
        {
        }
    }
}

/// Truncating division of an exact multiple recovers the factor.
pub proof fn lemma_tdiv_exact(k: int, d: int)
    requires
        d > 0,
    ensures
        spec_tdiv(k * d, d) == k,
{
    if k >= 0 {
        vstd::arithmetic::div_mod::lemma_div_multiples_vanish(k, d);
        vstd::arithmetic::mul::lemma_mul_nonnegative(k, d);
        vstd::arithmetic::mul::lemma_mul_is_commutative(k, d);
    } else {
        vstd::arithmetic::div_mod::lemma_div_multiples_vanish(-k, d);
        assert((-k) * d == d * (-k)) by (nonlinear_arith);
        assert(k * d < 0) by (nonlinear_arith)
            requires
                k < 0,
                d > 0,
        {
        }
        assert(vstd::math::abs(k * d) == (-k) * d) by (nonlinear_arith)
            requires
                k * d < 0,
        {
        }
    }
}

/// Dividing by the fixed-point `2.0` halves the value, truncating toward
/// zero.
pub proof fn lemma_spec_div_two(n: int)
    requires
        -(FX_MAX as int) <= n <= FX_MAX as int,
    ensures
        spec_div(n, TWO as int) == spec_tdiv(n, 2),
{
    let e = ONE as int;
    let m = vstd::math::abs(n) as int;
    vstd::arithmetic::div_mod::lemma_div_denominator(m * e, e, 2);
    vstd::arithmetic::div_mod::lemma_div_multiples_vanish(m, e);
    vstd::arithmetic::mul::lemma_mul_is_commutative(m, e);
    assert(e * 2 == TWO);
    assert(vstd::math::abs(n * e) == m * e) by (nonlinear_arith)
        requires
            m == vstd::math::abs(n),
            e > 0,
    {
    }
    assert(spec_tdiv(n * e, TWO as int) == spec_tdiv(n, 2));
    vstd::arithmetic::div_mod::lemma_div_pos_is_pos(m, 2);
    vstd::arithmetic::div_mod::lemma_div_nonincreasing(m, 2);
}

/// The integer square root is monotone.
pub proof fn lemma_sqrt_floor_mono(a: nat, b: nat)
    requires
        a <= b,
    ensures
        sqrt_floor(a) <= sqrt_floor(b),
{
    lemma_sqrt_floor(a);
    lemma_sqrt_floor(b);
    let ra = sqrt_floor(a);
    let rb = sqrt_floor(b);
    if ra > rb {
        assert(false) by (nonlinear_arith)
            requires
                ra * ra <= a,
                b < (rb + 1) * (rb + 1),
                a <= b,
                rb < ra,
        {
            assert((rb + 1) * (rb + 1) <= ra * ra);
        }
    }
}

/// The integer square root of a perfect square is its root.
pub proof fn lemma_sqrt_floor_square(k: nat)
    ensures
        sqrt_floor(k * k) == k,
{
    assert(k * k < (k + 1) * (k + 1)) by (nonlinear_arith);
    lemma_sqrt_floor_unique(k * k, k);
}

/// Multiplying by zero gives zero.
pub proof fn lemma_spec_mul_zero(a: int)
    ensures
        spec_mul(a, 0) == 0,
        spec_mul(0, a) == 0,
{
    vstd::arithmetic::div_mod::lemma_div_of0(ONE as int);
}

/// A squared difference, expanded.
pub(crate) proof fn lemma_expand_sub_sq(a: int, b: int)
    by (nonlinear_arith)
    ensures
        (a - b) * (a - b) == a * a - 2 * (a * b) + b * b,
{
}

/// Factors of a product of products, exchanged.
pub(crate) proof fn lemma_mul_exchange(a: int, b: int, c: int, d: int)
    by (nonlinear_arith)
    ensures
        (a * b) * (c * d) == (a * c) * (b * d),
{
}

/// Factors of a product of products, exchanged crosswise.
pub(crate) proof fn lemma_mul_exchange2(a: int, b: int, c: int, d: int)
    by (nonlinear_arith)
    ensures
        (a * b) * (c * d) == (a * d) * (b * c),
{
}

/// The outer factor of a nested product, swapped inward.
pub(crate) proof fn lemma_mul_swap3(a: int, b: int, c: int)
    by (nonlinear_arith)
    ensures
        (a * b) * c == (a * c) * b,
{
}

/// The product of two `i64` values stays well inside the `i128` range.
proof fn lemma_i64_prod_fits(a: int, b: int)
    by (nonlinear_arith)
    requires
        -0x8000000000000000 <= a <= 0x7fffffffffffffff,
        -0x8000000000000000 <= b <= 0x7fffffffffffffff,
    ensures
        -0x40000000000000000000000000000000 <= a * b <= 0x40000000000000000000000000000000,
{
}

/// Saturate a wide intermediate result back into an `i64` scalar.
fn clip_i128(v: i128) -> (r: i64)
    ensures
        r == spec_clip(v as int),
{
    if v > FX_MAX as i128 {
        FX_MAX
    } else if v < -(FX_MAX as i128) {
        -FX_MAX
    } else {
        v as i64
    }
}

/// Division of wide intermediates, truncating toward zero.
fn tdiv_i128(n: i128, d: i128) -> (q: i128)
    requires
        d > 0,
        n > i128::MIN,
    ensures
        q == spec_tdiv(n as int, d as int),
        if n >= 0 {
            0 <= q <= n
        } else {
            n <= q <= 0
        },
{
    if n >= 0 {
        let q = n as u128 / d as u128;
        proof {
            vstd::arithmetic::div_mod::lemma_div_pos_is_pos(n as int, d as int);
            vstd::arithmetic::div_mod::lemma_div_nonincreasing(n as int, d as int);
        }
        q as i128
    } else {
        let m = (-n) as u128;
        let q = m / d as u128;
        proof {
            vstd::arithmetic::div_mod::lemma_div_pos_is_pos(m as int, d as int);
            vstd::arithmetic::div_mod::lemma_div_nonincreasing(m as int, d as int);
        }
        -(q as i128)
    }
}

/// Saturating fixed-point addition.
pub fn fx_add(a: i64, b: i64) -> (r: i64)
    ensures
        r == spec_add(a as int, b as int),
{
    clip_i128(a as i128 + b as i128)
}

/// Saturating fixed-point subtraction.
pub fn fx_sub(a: i64, b: i64) -> (r: i64)
    ensures
        r == spec_sub(a as int, b as int),
{
    clip_i128(a as i128 - b as i128)
}

/// Saturating fixed-point negation.
pub fn fx_neg(a: i64) -> (r: i64)
    ensures
        r == spec_neg(a as int),
{
    clip_i128(-(a as i128))
}

/// Saturating fixed-point multiplication.
pub fn fx_mul(a: i64, b: i64) -> (r: i64)
    ensures
        r == spec_mul(a as int, b as int),
{
    proof {
        lemma_i64_prod_fits(a as int, b as int);
    }
    let p: i128 = a as i128 * b as i128;
    clip_i128(tdiv_i128(p, ONE as i128))
}

/// Saturating fixed-point division; division by zero saturates.
pub fn fx_div(a: i64, b: i64) -> (r: i64)
    ensures
        r == spec_div(a as int, b as int),
{
    if b == 0 {
        if a > 0 {
            FX_MAX
        } else if a < 0 {
            -FX_MAX
        } else {
            0
        }
    } else {
        proof {
            lemma_i64_prod_fits(a as int, ONE as int);
        }
        let n: i128 = a as i128 * ONE as i128;
        if b > 0 {
            clip_i128(tdiv_i128(n, b as i128))
        } else {
            clip_i128(-tdiv_i128(n, -(b as i128)))
        }
    }
}

/// Binary-search integer square root over wide unsigned intermediates.
fn isqrt_u128(n: u128) -> (r: u128)
    requires
        n <= FX_MAX as int * ONE as int,
    ensures
        r * r <= n,
        n < (r + 1) * (r + 1),
{
    let mut lo: u128 = 0;
    let mut hi: u128 = 1_125_899_906_842_624;
    proof {
        assert(n < 1_125_899_906_842_624 * 1_125_899_906_842_624) by (nonlinear_arith)
            requires
                n <= FX_MAX as int * ONE as int,
        {
        }
    }
    while lo + 1 < hi
        invariant
            lo < hi,
            hi <= 1_125_899_906_842_624,
            lo * lo <= n,
            n < hi * hi,
        decreases hi - lo,
    {
        let mid = lo + (hi - lo) / 2;
        proof {
            vstd::arithmetic::div_mod::lemma_fundamental_div_mod((hi - lo) as int, 2);
            assert(lo < mid < hi);
            assert(mid * mid < hi * hi && hi * hi <= 1_125_899_906_842_624 * 1_125_899_906_842_624)
                by (nonlinear_arith)
                requires
                    0 <= mid < hi <= 1_125_899_906_842_624,
            {
            }
        }
        if mid * mid <= n {
            lo = mid;
        } else {
            hi = mid;
        }
    }
    lo
}

/// Fixed-point square root; non-positive inputs give zero.
pub fn fx_sqrt(a: i64) -> (r: i64)
    ensures
        r == spec_sqrt(a as int),
{
    if a <= 0 {
        0
    } else {
        proof {
            assert(a as int * ONE as int <= FX_MAX as int * ONE as int) by (nonlinear_arith)
                requires
                    0 < a <= FX_MAX as int,
            {
            }
        }
        let n: u128 = a as u128 * ONE as u128;
        let r = isqrt_u128(n);
        proof {
            lemma_sqrt_floor_unique(n as nat, r as nat);
            assert(r < 0x7fffffffffffffff) by (nonlinear_arith)
                requires
                    r * r <= FX_MAX as int * ONE as int,
                    r >= 0,
            {
                assert(r >= 0x7fffffffffffffff ==> r * r >= 0x7fffffffffffffff * 0x7fffffffffffffff);
            }
        }
        r as i64
    }
}

} // verus!
