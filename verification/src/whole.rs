//! Products and quotients of whole numbers are whole, and so are products with
//! halves of them; nothing of them is rounded away.
use vstd::arithmetic::power2::*;
use vstd::prelude::*;

use crate::double::Double;
use crate::rounding::BINADE;

verus! {

pub open spec fn absolute(n: int) -> nat {
    if n < 0 {
        (-n) as nat
    } else {
        n as nat
    }
}

/// The pattern of a whole number does not depend on its sign.
proof fn lemma_pattern_of_int(n: int)
    requires
        -(2 * BINADE) <= n <= 2 * BINADE,
    ensures
        Double::of_int(n).pattern() == crate::rounding::nearest(absolute(n) * pow2(1074), 1),
        Double::of_int(n).size() == absolute(n) * pow2(1074),
        Double::of_int(n).is_neg() == (n < 0),
        Double::of_int(n).is_int(n),
{
    let unit = pow2(1074) as int;
    crate::order::lemma_of_int_exact(n);
    crate::order::lemma_of_int(n);
    reveal(Double::of_int);
    crate::order::lemma_signed(n < 0, crate::rounding::nearest(absolute(n) * pow2(1074), 1));
    assert((-n) * unit == -(n * unit)) by (nonlinear_arith);
}

/// A whole number is one of the two numbers of its value.
pub proof fn lemma_is_int(a: Double, n: int)
    requires
        a.is_int(n),
        -(2 * BINADE) <= n <= 2 * BINADE,
    ensures
        a.size() == absolute(n) * pow2(1074),
        a.pattern() == Double::of_int(n).pattern(),
        n != 0 ==> a == Double::of_int(n),
        n != 0 ==> (a.is_neg() <==> n < 0),
        n == 0 <==> a.pattern() == 0,
        a.is_neg() <==> Double::of_int(n) != a || n < 0,
{
    let unit = pow2(1074) as int;
    lemma_pow2_pos(1074);
    lemma_pattern_of_int(n);
    crate::order::lemma_rounded_value(a);
    crate::order::lemma_rounded_value(Double::of_int(n));
    crate::order::lemma_rounded(n * unit, a.is_neg());
    crate::order::lemma_rounded(n * unit, n < 0);
    assert((-n) * unit == -(n * unit)) by (nonlinear_arith);
    assert((n < 0) == (n * unit < 0) && (n == 0) == (n * unit == 0)) by (nonlinear_arith)
        requires
            unit > 0,
    ;
}

proof fn lemma_signed_int(neg: bool, n: int)
    requires
        -(2 * BINADE) <= n <= 2 * BINADE,
        n != 0 ==> neg == (n < 0),
    ensures
        crate::double::signed(
            neg,
            crate::rounding::nearest(absolute(n) * pow2(1074), 1),
        ).is_int(n),
{
    let unit = pow2(1074);
    let p = crate::rounding::nearest(absolute(n) * unit, 1);
    lemma_pattern_of_int(n);
    crate::order::lemma_signed(neg, p);
    if n == 0 {
        assert(absolute(n) * unit == 0) by (nonlinear_arith)
            requires
                absolute(n) == 0,
        ;
        crate::rounding::lemma_nearest_zero(1);
        assert(crate::rounding::units(0) == 0);
        assert(0 * unit == 0);
    }
}

/// Whole numbers are multiplied without rounding, as far as 53 digits hold the
/// product.
pub proof fn lemma_times_of_ints(a: Double, b: Double, m: int, n: int)
    requires
        a.is_int(m),
        b.is_int(n),
        -(2 * BINADE) <= m <= 2 * BINADE,
        -(2 * BINADE) <= n <= 2 * BINADE,
        -(2 * BINADE) <= m * n <= 2 * BINADE,
    ensures
        a.times(b).is_int(m * n),
        a.times(b).is_neg() == (a.is_neg() != b.is_neg()),
{
    reveal(Double::times);
    let unit = pow2(1074);
    lemma_pow2_pos(1074);
    lemma_is_int(a, m);
    lemma_is_int(b, n);
    let p = absolute(m);
    let q = absolute(n);
    assert(absolute(m * n) == p * q && (m * n == 0 <==> m == 0 || n == 0) && (m * n < 0 <==> (m
        != 0 && n != 0 && (m < 0) != (n < 0)))) by (nonlinear_arith)
        requires
            p == absolute(m),
            q == absolute(n),
    ;
    assert((p * unit) * (q * unit) == ((p * q) * unit) * unit && 1 * unit == unit)
        by (nonlinear_arith);
    crate::order::lemma_nearest_scale((p * q) * unit, 1, unit);
    lemma_signed_int(a.is_neg() != b.is_neg(), m * n);
    lemma_pattern_of_int(m * n);
    crate::order::lemma_signed(
        a.is_neg() != b.is_neg(),
        crate::rounding::nearest((p * q) * unit, 1),
    );
}

/// A multiple of a whole number, divided by it, is the factor.
pub proof fn lemma_over_of_ints(a: Double, b: Double, m: int, n: int)
    requires
        a.is_int(m * n),
        b.is_int(n),
        n != 0,
        -(2 * BINADE) <= m <= 2 * BINADE,
        -(2 * BINADE) <= n <= 2 * BINADE,
        -(2 * BINADE) <= m * n <= 2 * BINADE,
    ensures
        a.over(b).is_int(m),
        a.over(b).is_neg() == (a.is_neg() != b.is_neg()),
{
    reveal(Double::over);
    let unit = pow2(1074);
    lemma_pow2_pos(1074);
    lemma_is_int(a, m * n);
    lemma_is_int(b, n);
    let p = absolute(m);
    let q = absolute(n);
    assert(absolute(m * n) == p * q && (m * n == 0 <==> m == 0 || n == 0) && (m * n < 0 <==> (m
        != 0 && n != 0 && (m < 0) != (n < 0)))) by (nonlinear_arith)
        requires
            p == absolute(m),
            q == absolute(n),
    ;
    let c = q * unit;
    assert(c > 0 && ((p * q) * unit) * unit == (p * unit) * c && 1 * c == c) by (nonlinear_arith)
        requires
            c == q * unit,
            q > 0,
            unit > 0,
    ;
    crate::order::lemma_nearest_scale(p * unit, 1, c);
    lemma_signed_int(a.is_neg() != b.is_neg(), m);
    lemma_pattern_of_int(m);
    crate::order::lemma_signed(
        a.is_neg() != b.is_neg(),
        crate::rounding::nearest(p * unit, 1),
    );
}

/// Scaling both sides of a quotient of whole numbers by one factor does not
/// change it.
pub proof fn lemma_over_scaled(m: int, n: int, k: int)
    requires
        n >= 1,
        k >= 1,
        -(2 * BINADE) <= m <= 2 * BINADE,
        n <= 2 * BINADE,
        -(2 * BINADE) <= m * k <= 2 * BINADE,
        n * k <= 2 * BINADE,
    ensures
        Double::of_int(m * k).over(Double::of_int(n * k)) == Double::of_int(m).over(
            Double::of_int(n),
        ),
{
    reveal(Double::over);
    let unit = pow2(1074);
    lemma_pow2_pos(1074);
    assert(n * k >= 1 && absolute(m * k) == absolute(m) * absolute(k) && absolute(n * k)
        == absolute(n) * absolute(k) && (m * k < 0) == (m < 0)) by (nonlinear_arith)
        requires
            n >= 1,
            k >= 1,
    ;
    lemma_pattern_of_int(m);
    lemma_pattern_of_int(n);
    lemma_pattern_of_int(m * k);
    lemma_pattern_of_int(n * k);
    lemma_is_int(Double::of_int(n), n);
    lemma_is_int(Double::of_int(n * k), n * k);
    let p = absolute(m);
    let q = absolute(n);
    let c = absolute(k);
    assert(((p * c) * unit) * unit == ((p * unit) * unit) * c && (q * c) * unit == (q * unit) * c
        && q * unit > 0) by (nonlinear_arith)
        requires
            q > 0,
            unit > 0,
    ;
    crate::order::lemma_nearest_scale((p * unit) * unit, q * unit, c);
}

impl Double {
    /// The number is half of the integer `n`.
    pub open spec fn is_half_of(self, n: int) -> bool {
        self.is_finite() && self.value() == n * pow2(1073)
    }
}

/// Whole numbers are halved without rounding.
pub proof fn lemma_half_of_int(a: Double, n: int)
    requires
        a.is_int(n),
        -(2 * BINADE) < n < 2 * BINADE,
    ensures
        a.over(Double::of_int(2)).is_half_of(n),
{
    reveal(Double::over);
    let two = Double::of_int(2);
    let unit = pow2(1074);
    let half = pow2(1073);
    let p = absolute(n);
    lemma_pow2_pos(1073);
    lemma_pow2_unfold(1074);
    lemma_is_int(a, n);
    lemma_pattern_of_int(2);
    lemma_is_int(two, 2);
    assert((p * unit) * unit == (p * half) * (2 * unit) && 1 * (2 * unit) == 2 * unit && p * half
        >= 0) by (nonlinear_arith)
        requires
            unit == 2 * half,
    ;
    crate::order::lemma_nearest_scale(p * half, 1, 2 * unit);
    crate::rounding::lemma_nearest_exact(p, 1073);
    let r = crate::rounding::nearest(p * half, 1);
    crate::order::lemma_signed(a.is_neg(), r);
    assert((-n) * half == -(n * half)) by (nonlinear_arith);
    assert(n == 0 ==> p * half == 0) by (nonlinear_arith)
        requires
            n == 0 ==> p == 0,
    ;
}

/// Half of an integer times an even one is whole.
pub proof fn lemma_half_times_even(a: Double, b: Double, n: int, k: int)
    requires
        a.is_half_of(n),
        b.is_int(2 * k),
        -(2 * BINADE) <= 2 * k <= 2 * BINADE,
        -(2 * BINADE) <= n * k <= 2 * BINADE,
    ensures
        a.times(b).is_int(n * k),
{
    reveal(Double::times);
    let unit = pow2(1074);
    let half = pow2(1073);
    let p = absolute(n);
    let q = absolute(k);
    lemma_pow2_pos(1073);
    lemma_pow2_unfold(1074);
    lemma_is_int(b, 2 * k);
    assert((-n) * half == -(n * half) && (n > 0 ==> n * half > 0) && (n < 0 ==> n * half < 0))
        by (nonlinear_arith)
        requires
            half > 0,
    ;
    assert(a.size() == p * half);
    assert(absolute(2 * k) == 2 * q);
    assert(absolute(n * k) == p * q && (n * k == 0 <==> n == 0 || k == 0) && (n * k < 0 <==> (n
        != 0 && k != 0 && (n < 0) != (k < 0)))) by (nonlinear_arith)
        requires
            p == absolute(n),
            q == absolute(k),
    ;
    assert((p * half) * ((2 * q) * unit) == ((p * q) * unit) * unit && 1 * unit == unit)
        by (nonlinear_arith)
        requires
            unit == 2 * half,
    ;
    crate::order::lemma_nearest_scale((p * q) * unit, 1, unit);
    lemma_signed_int(a.is_neg() != b.is_neg(), n * k);
}

/// Rounding a whole number to an integer gives that integer.
pub proof fn lemma_round_of_int(a: Double, n: int)
    requires
        a.is_int(n),
        -(2 * BINADE) <= n <= 2 * BINADE,
    ensures
        crate::event::rounded_i64(a) == n,
{
    let unit = pow2(1074) as int;
    let p = absolute(n) as int;
    lemma_pow2_pos(1074);
    lemma_is_int(a, n);
    let x = 2 * (p * unit) + unit;
    assert(x == p * (2 * unit) + unit) by (nonlinear_arith)
        requires
            x == 2 * (p * unit) + unit,
    ;
    vstd::arithmetic::div_mod::lemma_fundamental_div_mod_converse(x, 2 * unit, p, unit);
    assert(a.round_int() == n);
}

/// A whole number over its double is a half.
pub proof fn lemma_over_double(a: Double, b: Double, n: int)
    requires
        a.is_int(n),
        b.is_int(2 * n),
        1 <= n,
        2 * n <= 2 * BINADE,
    ensures
        a.over(b).is_half_of(1),
{
    reveal(Double::over);
    let unit = pow2(1074);
    let half = pow2(1073);
    let p = n as nat;
    lemma_pow2_pos(1073);
    lemma_pow2_unfold(1074);
    lemma_is_int(a, n);
    lemma_is_int(b, 2 * n);
    let c = (2 * p) * unit;
    assert((p * unit) * unit == (1 * half) * c && 1 * c == c && c > 0) by (nonlinear_arith)
        requires
            unit == 2 * half,
            c == (2 * p) * unit,
            p >= 1,
            half > 0,
    ;
    crate::order::lemma_nearest_scale(1 * half, 1, c);
    crate::rounding::lemma_nearest_exact(1, 1073);
    crate::order::lemma_signed(false, crate::rounding::nearest(1 * half, 1));
}

} // verus!
