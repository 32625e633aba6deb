//! Ratio arithmetic on 128-bit amounts with a 256-bit intermediate, and
//! the division facts the accounting proofs lean on.

use vstd::prelude::*;
use vstd::arithmetic::div_mod::*;
use vstd::arithmetic::mul::*;

verus! {

/// Relies on `cosmwasm_std::Uint128::multiply_ratio`: it computes
/// `floor(a * b / c)` on a 256-bit intermediate and panics only on a zero
/// denominator or a quotient above `u128::MAX`, both excluded here.
#[verifier::external_body]
pub(crate) fn mul_ratio(a: u128, b: u128, c: u128) -> (r: u128)
    requires
        c != 0,
        (a as int) * (b as int) / (c as int) <= u128::MAX as int,
    ensures
        r as int == (a as int) * (b as int) / (c as int),
{
    cosmwasm_std::Uint128::new(a).multiply_ratio(b, c).u128()
}

/// A product divided by one of its factors' bounds stays within that
/// bound: for `b <= c`, `a * b / c <= a`.
pub proof fn lemma_ratio_le_left(a: int, b: int, c: int)
    requires
        0 <= a,
        0 <= b,
        0 < c,
        b <= c,
    ensures
        a * b / c <= a,
{
    lemma_mul_inequality(b, c, a);
    assert(b * a <= c * a) by (nonlinear_arith)
        requires b <= c && 0 <= a;
    lemma_mul_is_commutative(a, b);
    lemma_mul_is_commutative(a, c);
    lemma_div_is_ordered(a * b, a * c, c);
    lemma_div_by_multiple(a, c);
    assert(a * c / c == a);
}

/// Floor division distributes over addition with a loss of at most one
/// per summand: `a / d + b / d <= (a + b) / d`.
pub proof fn lemma_div_add_le(a: int, b: int, d: int)
    requires
        0 <= a,
        0 <= b,
        0 < d,
    ensures
        a / d + b / d <= (a + b) / d,
{
    let q = a / d + b / d;
    lemma_fundamental_div_mod(a, d);
    lemma_fundamental_div_mod(b, d);
    lemma_mod_bound(a, d);
    lemma_mod_bound(b, d);
    lemma_mul_is_distributive_add(d, a / d, b / d);
    assert(a + b >= d * q);
    lemma_div_is_ordered(d * q, a + b, d);
    lemma_div_multiples_vanish(q, d);
}

/// Floor division undercounts: `(a / c) * c <= a`.
pub proof fn lemma_div_mul_le(a: int, c: int)
    requires
        0 <= a,
        0 < c,
    ensures
        (a / c) * c <= a,
        a < (a / c) * c + c,
{
    lemma_fundamental_div_mod(a, c);
    lemma_mod_bound(a, c);
    lemma_mul_is_commutative(a / c, c);
}

} // verus!
