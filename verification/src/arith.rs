//! Small facts about Euclidean division and remainder by a positive
//! divisor, used by the calendar arithmetic.

use vstd::prelude::*;
use vstd::arithmetic::div_mod::lemma_fundamental_div_mod;
use vstd::arithmetic::div_mod::lemma_fundamental_div_mod_converse;
use vstd::arithmetic::mul::lemma_mul_inequality;

verus! {

/// For a positive divisor, a bound on the quotient is the same as a bound
/// on the dividend: `n <= x / d` holds exactly when `n * d <= x`.
pub proof fn lemma_le_div(n: int, x: int, d: int)
    requires
        d > 0,
    ensures
        (n <= x / d) <==> (n * d <= x),
{
    lemma_fundamental_div_mod(x, d);
    let q = x / d;
    let r = x % d;
    if n <= q {
        lemma_mul_inequality(n, q, d);
        assert(q * d == d * q) by (nonlinear_arith);
    }
    if n * d <= x && n > q {
        lemma_mul_inequality(q + 1, n, d);
        assert((q + 1) * d == d * q + d) by (nonlinear_arith);
        assert(false);
    }
}

/// Stepping the dividend from `y + k - 1` to `y + k` raises the quotient
/// exactly when `y` is a multiple of `k`.
pub proof fn lemma_div_step_at_multiple(y: int, k: int)
    requires
        k > 0,
    ensures
        (y + k) / k == (y + k - 1) / k + (if y % k == 0 { 1int } else { 0int }),
{
    lemma_fundamental_div_mod(y, k);
    let q = y / k;
    let r = y % k;
    assert(k * (q + 1) == k * q + k) by (nonlinear_arith);
    assert((q + 1) * k == k * (q + 1)) by (nonlinear_arith);
    assert(q * k == k * q) by (nonlinear_arith);
    if r == 0 {
        lemma_fundamental_div_mod_converse(y + k, k, q + 1, 0);
        lemma_fundamental_div_mod_converse(y + k - 1, k, q, k - 1);
    } else {
        lemma_fundamental_div_mod_converse(y + k, k, q + 1, r);
        lemma_fundamental_div_mod_converse(y + k - 1, k, q + 1, r - 1);
    }
}

/// A year divisible by 400 is divisible by 100 and by 4, and one
/// divisible by 100 is divisible by 4.
pub proof fn lemma_divisibility_by_year_periods(y: int)
    ensures
        y % 400 == 0 ==> y % 100 == 0 && y % 4 == 0,
        y % 100 == 0 ==> y % 4 == 0,
{
    if y % 400 == 0 {
        lemma_fundamental_div_mod(y, 400);
        let q = y / 400;
        assert(y == (4 * q) * 100 + 0) by (nonlinear_arith)
            requires y == 400 * q + 0;
        lemma_fundamental_div_mod_converse(y, 100, 4 * q, 0);
        assert(y == (100 * q) * 4 + 0) by (nonlinear_arith)
            requires y == 400 * q + 0;
        lemma_fundamental_div_mod_converse(y, 4, 100 * q, 0);
    }
    if y % 100 == 0 {
        lemma_fundamental_div_mod(y, 100);
        let q = y / 100;
        assert(y == (25 * q) * 4 + 0) by (nonlinear_arith)
            requires y == 100 * q + 0;
        lemma_fundamental_div_mod_converse(y, 4, 25 * q, 0);
    }
}

} // verus!
