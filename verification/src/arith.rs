//! Integer powers: an exact executable power function and the facts about
//! `pow` that the curve evaluation needs.

use vstd::prelude::*;
use vstd::arithmetic::power::{pow, lemma_pow_increases, lemma0_pow};
use vstd::arithmetic::power2::{
    pow2, lemma_pow2_adds, lemma_pow2_strictly_increases, lemma2_to64, lemma2_to64_rest,
};
use vstd::math::abs;

verus! {

/// A power of a non-negative base is non-negative.
pub proof fn lemma_pow_nonneg(b: int, e: nat)
    requires
        b >= 0,
    ensures
        pow(b, e) >= 0,
    decreases e,
{
    reveal(pow);
    if e > 0 {
        lemma_pow_nonneg(b, (e - 1) as nat);
        vstd::arithmetic::mul::lemma_mul_nonnegative(b, pow(b, (e - 1) as nat));
    }
}

/// The absolute value of a power is the power of the absolute value.
pub proof fn lemma_pow_abs(b: int, e: nat)
    ensures
        abs(pow(b, e)) == pow(abs(b) as int, e),
    decreases e,
{
    reveal(pow);
    if e > 0 {
        let p = pow(b, (e - 1) as nat);
        lemma_pow_abs(b, (e - 1) as nat);
        assert(abs(b * p) == abs(b) * abs(p)) by (nonlinear_arith);
    }
}

/// Raising to a power is monotone in a non-negative base.
pub proof fn lemma_pow_le_base(x: int, y: int, e: nat)
    requires
        0 <= x <= y,
    ensures
        pow(x, e) <= pow(y, e),
    decreases e,
{
    reveal(pow);
    if e > 0 {
        lemma_pow_le_base(x, y, (e - 1) as nat);
        lemma_pow_nonneg(x, (e - 1) as nat);
        assert(x * pow(x, (e - 1) as nat) <= y * pow(y, (e - 1) as nat)) by (nonlinear_arith)
            requires
                0 <= x <= y,
                0 <= pow(x, (e - 1) as nat) <= pow(y, (e - 1) as nat),
        ;
    }
}

/// The absolute value of a product is the product of the absolute values.
pub proof fn lemma_abs_mul(x: int, y: int)
    ensures
        abs(x * y) == abs(x) * abs(y),
{
    assert(abs(x * y) == abs(x) * abs(y)) by (nonlinear_arith);
}

/// Bounds on the absolute values of two factors bound their product.
pub proof fn lemma_abs_mul_le(x: int, y: int, xb: int, yb: int)
    requires
        abs(x) <= xb,
        abs(y) <= yb,
    ensures
        abs(x * y) <= xb * yb,
{
    lemma_abs_mul(x, y);
    vstd::arithmetic::mul::lemma_mul_upper_bound(abs(x) as int, xb, abs(y) as int, yb);
}

/// Raises `base` to the power `exp` exactly.
///
/// An exponent of zero yields exactly one, whatever the base; there is no
/// `0^0` ambiguity here, since `pow` itself defines it as one.
pub fn pow_i128(base: i128, exp: usize) -> (r: i128)
    requires
        pow(abs(base as int) as int, exp as nat) <= i128::MAX,
    ensures
        r == pow(base as int, exp as nat),
{
    let mut acc: i128 = 1;
    let mut j: usize = 0;
    proof {
        reveal(pow);
    }
    while j < exp
        invariant
            j <= exp,
            acc == pow(base as int, j as nat),
            pow(abs(base as int) as int, exp as nat) <= i128::MAX,
        decreases exp - j,
    {
        proof {
            reveal(pow);
            assert(base * pow(base as int, j as nat) == pow(base as int, (j + 1) as nat));
            assert(acc * base == base * pow(base as int, j as nat)) by (nonlinear_arith)
                requires
                    acc == pow(base as int, j as nat),
            ;
            lemma_pow_abs(base as int, (j + 1) as nat);
            if base == 0 {
                lemma0_pow((j + 1) as nat);
            } else {
                lemma_pow_increases(abs(base as int), (j + 1) as nat, exp as nat);
            }
            assert(abs(pow(base as int, (j + 1) as nat)) <= i128::MAX);
            assert(-(i128::MAX as int) <= acc * base <= i128::MAX as int);
        }
        acc = acc * base;
        j = j + 1;
    }
    acc
}

/// `2^e`, exactly, for the small exponents a curve degree can take.
pub fn pow2_u128(e: usize) -> (r: u128)
    requires
        e <= 63,
    ensures
        r == pow2(e as nat),
{
    let mut r: u128 = 1;
    let mut j: usize = 0;
    proof {
        lemma2_to64();
    }
    while j < e
        invariant
            j <= e <= 63,
            r == pow2(j as nat),
        decreases e - j,
    {
        proof {
            lemma_pow2_adds(1, j as nat);
            lemma2_to64();
            lemma2_to64_rest();
            assert(pow2((j + 1) as nat) == 2 * pow2(j as nat));
            if j + 1 < 63 {
                lemma_pow2_strictly_increases((j + 1) as nat, 63);
            }
            assert(pow2((j + 1) as nat) <= pow2(63));
        }
        r = r * 2;
        j = j + 1;
    }
    r
}

} // verus!
