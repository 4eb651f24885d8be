//! How the arithmetic of binary64 numbers goes with their order.
use vstd::arithmetic::div_mod::*;
use vstd::arithmetic::power2::*;
use vstd::prelude::*;

use crate::double::Double;
use crate::rounding::{BINADE, INFINITY_BITS};

verus! {

impl Double {
    /// Zero or a positive number, infinity included, with a positive sign.
    pub open spec fn non_negative(self) -> bool {
        !self.is_neg() && !self.is_nan()
    }
}

pub proof fn lemma_signed(neg: bool, pattern: nat)
    requires
        pattern <= INFINITY_BITS,
    ensures
        crate::double::signed(neg, pattern).is_neg() == neg,
        crate::double::signed(neg, pattern).pattern() == pattern,
{
}

/// Finite numbers are ordered as their values are.
pub proof fn lemma_order_of_values(a: Double, b: Double)
    requires
        a.is_finite(),
        b.is_finite(),
    ensures
        a.below(b) <==> a.value() < b.value(),
        a.at_most(b) <==> a.value() <= b.value(),
        a.same(b) <==> a.value() == b.value(),
{
    let p = a.pattern();
    let q = b.pattern();
    assert(crate::rounding::units(0) == 0);
    if p < q {
        crate::rounding::lemma_units_increasing(p, q);
    }
    if q < p {
        crate::rounding::lemma_units_increasing(q, p);
    }
    if p > 0 {
        crate::rounding::lemma_units_increasing(0, p);
    }
    if q > 0 {
        crate::rounding::lemma_units_increasing(0, q);
    }
}

/// What rounding an exact result gives.
pub proof fn lemma_rounded(u: int, neg_zero: bool)
    ensures
        ({
            let r = crate::double::rounded(u, neg_zero);
            let size = (if u < 0 {
                -u
            } else {
                u
            }) as nat;
            &&& !r.is_nan()
            &&& r.is_neg() <==> (u < 0 || (u == 0 && neg_zero))
            &&& r.pattern() == crate::rounding::nearest(size, 1)
            &&& u == 0 <==> r.pattern() == 0
        }),
{
    crate::rounding::lemma_nearest_zero(1);
    let size = (if u < 0 {
        -u
    } else {
        u
    }) as nat;
    lemma_signed(u < 0 || (u == 0 && neg_zero), crate::rounding::nearest(size, 1));
    if u != 0 {
        crate::rounding::lemma_nearest_monotone(1, size, 1);
        crate::rounding::lemma_nearest_of_units(1);
    }
}

/// Rounding keeps the order.
pub proof fn lemma_rounded_monotone(u: int, v: int, x: bool, y: bool)
    requires
        u <= v,
    ensures
        crate::double::rounded(u, x).at_most(crate::double::rounded(v, y)),
{
    lemma_rounded(u, x);
    lemma_rounded(v, y);
    if u < 0 {
        if v < 0 {
            crate::rounding::lemma_nearest_monotone((-v) as nat, (-u) as nat, 1);
        }
    } else {
        crate::rounding::lemma_nearest_monotone(u as nat, v as nat, 1);
    }
}

/// A number is what its own value rounds to.
pub proof fn lemma_rounded_value(a: Double)
    requires
        a.is_finite(),
    ensures
        crate::double::rounded(a.value(), a.is_neg()) == a,
{
    crate::rounding::lemma_nearest_of_units(a.pattern());
    if a.pattern() > 0 {
        crate::rounding::lemma_units_increasing(0, a.pattern());
    }
    assert(crate::rounding::units(0) == 0);
}

pub proof fn lemma_negated(a: Double)
    ensures
        a.negated().pattern() == a.pattern(),
        a.negated().is_neg() == !a.is_neg(),
        a.negated().value() == -a.value(),
        a.negated().rank() == -a.rank(),
        a.negated().negated() == a,
{
}

/// The sum of finite numbers is its exact value, rounded.
pub proof fn lemma_plus(a: Double, b: Double)
    requires
        a.is_finite(),
        b.is_finite(),
    ensures
        a.plus(b) == crate::double::rounded(a.value() + b.value(), a.is_neg() && b.is_neg()),
        !a.plus(b).is_nan(),
{
    reveal(Double::plus);
    lemma_rounded(a.value() + b.value(), a.is_neg() && b.is_neg());
}

/// The difference of finite numbers is its exact value, rounded.
pub proof fn lemma_minus(a: Double, b: Double)
    requires
        a.is_finite(),
        b.is_finite(),
    ensures
        a.minus(b) == crate::double::rounded(a.value() - b.value(), a.is_neg() && !b.is_neg()),
        !a.minus(b).is_nan(),
{
    lemma_negated(b);
    lemma_plus(a, b.negated());
}

/// Every integer of 64 bits has a finite number next to it, of its own sign.
pub proof fn lemma_of_int(n: int)
    requires
        -0x1_0000_0000_0000_0000 <= n <= 0x1_0000_0000_0000_0000,
    ensures
        Double::of_int(n).is_finite(),
        Double::of_int(n).is_neg() <==> n < 0,
        n == 0 ==> Double::of_int(n).bits == 0,
        n != 0 ==> Double::of_int(n).pattern() > 0,
{
    reveal(Double::of_int);
    let m = (if n < 0 {
        -n
    } else {
        n
    }) as nat;
    let top = 0x1_0000_0000_0000_0000nat;
    lemma2_to64();
    lemma2_to64_rest();
    lemma_pow2_pos(1074);
    lemma_pow2_adds(64, 1074);
    let unit = pow2(1074);
    assert(m * unit <= top * unit) by (nonlinear_arith)
        requires
            m <= top,
    ;
    assert(top * unit == 1 * pow2(1138));
    crate::rounding::lemma_nearest_exact(1, 1138);
    crate::rounding::lemma_nearest_monotone(m * unit, top * unit, 1);
    lemma_signed(n < 0, crate::rounding::nearest(m * unit, 1));
    crate::rounding::lemma_nearest_zero(1);
    if m == 0 {
        assert(m * unit == 0) by (nonlinear_arith)
            requires
                m == 0,
        ;
    } else {
        assert(unit <= m * unit) by (nonlinear_arith)
            requires
                m >= 1,
        ;
        crate::rounding::lemma_nearest_exact(1, 1074);
        crate::rounding::lemma_nearest_monotone(1 * unit, m * unit, 1);
        assert(crate::rounding::units(0) == 0);
    }
}

proof fn lemma_size_of_int(n: int)
    requires
        -0x8000_0000_0000_0000 <= n <= 0x8000_0000_0000_0000,
    ensures
        Double::of_int(n).size() <= pow2(1137),
{
    reveal(Double::of_int);
    let m = (if n < 0 {
        -n
    } else {
        n
    }) as nat;
    let unit = pow2(1074);
    lemma2_to64();
    lemma2_to64_rest();
    lemma_pow2_adds(63, 1074);
    assert(m * unit <= pow2(63) * unit) by (nonlinear_arith)
        requires
            m <= pow2(63),
    ;
    assert(1 * pow2(1137) == pow2(1137));
    crate::rounding::lemma_nearest_exact(1, 1137);
    crate::rounding::lemma_nearest_monotone(m * unit, pow2(1137), 1);
    let a = crate::rounding::nearest(m * unit, 1);
    let b = crate::rounding::nearest(pow2(1137), 1);
    lemma_signed(n < 0, a);
    if a < b {
        crate::rounding::lemma_units_increasing(a, b);
    }
}

/// The difference of the numbers of two integers of 64 bits is finite, and no
/// negative zero.
pub proof fn lemma_difference_of_ints(m: int, n: int)
    requires
        -0x8000_0000_0000_0000 <= m <= 0x8000_0000_0000_0000,
        -0x8000_0000_0000_0000 <= n <= 0x8000_0000_0000_0000,
    ensures
        ({
            let a = Double::of_int(m);
            let b = Double::of_int(n);
            let d = a.minus(b);
            &&& d == crate::double::rounded(a.value() - b.value(), false)
            &&& d.is_finite()
            &&& d.is_neg() ==> d.pattern() > 0
        }),
{
    let a = Double::of_int(m);
    let b = Double::of_int(n);
    lemma_of_int(m);
    lemma_of_int(n);
    lemma_size_of_int(m);
    lemma_size_of_int(n);
    lemma_minus(a, b);
    let u = a.value() - b.value();
    if a.is_neg() && !b.is_neg() {
        crate::rounding::lemma_units_increasing(0, a.pattern());
    }
    lemma_rounded(u, false);
    let size = (if u < 0 {
        -u
    } else {
        u
    }) as nat;
    lemma_pow2_unfold(1138);
    assert(1 * pow2(1138) == pow2(1138));
    crate::rounding::lemma_nearest_exact(1, 1138);
    crate::rounding::lemma_nearest_monotone(size, pow2(1138), 1);
}

/// Integers of up to 53 binary digits are numbers themselves.
pub proof fn lemma_of_int_exact(n: int)
    requires
        -(2 * BINADE) <= n <= 2 * BINADE,
    ensures
        Double::of_int(n).is_finite(),
        Double::of_int(n).value() == n * pow2(1074),
{
    reveal(Double::of_int);
    let m = (if n < 0 {
        -n
    } else {
        n
    }) as nat;
    let unit = pow2(1074);
    if m < 2 * BINADE {
        crate::rounding::lemma_nearest_exact(m, 1074);
    } else {
        lemma_pow2_unfold(1075);
        assert(m * unit == BINADE * pow2(1075)) by (nonlinear_arith)
            requires
                m == 2 * BINADE,
                pow2(1075) == 2 * unit,
        ;
        crate::rounding::lemma_nearest_exact(BINADE as nat, 1075);
    }
    lemma_signed(n < 0, crate::rounding::nearest(m * unit, 1));
    if n < 0 {
        assert(-(m * unit) == n * unit) by (nonlinear_arith)
            requires
                m == -n,
        ;
    }
}

/// A larger integer never has a smaller number.
pub proof fn lemma_of_int_monotone(m: int, n: int)
    requires
        -0x1_0000_0000_0000_0000 <= m <= n <= 0x1_0000_0000_0000_0000,
    ensures
        Double::of_int(m).at_most(Double::of_int(n)),
{
    lemma_of_int(m);
    lemma_of_int(n);
    reveal(Double::of_int);
    let unit = pow2(1074);
    if n < 0 {
        let a = (-n) as nat;
        let b = (-m) as nat;
        assert(a * unit <= b * unit) by (nonlinear_arith)
            requires
                a <= b,
        ;
        crate::rounding::lemma_nearest_monotone(a * unit, b * unit, 1);
    } else if m >= 0 {
        let a = m as nat;
        let b = n as nat;
        assert(a * unit <= b * unit) by (nonlinear_arith)
            requires
                a <= b,
        ;
        crate::rounding::lemma_nearest_monotone(a * unit, b * unit, 1);
    }
}

/// A product grows with either of its non-negative factors.
pub proof fn lemma_times_monotone(a: Double, b: Double, c: Double)
    requires
        a.non_negative(),
        b.non_negative(),
        b.is_finite(),
        a.at_most(b),
        c.non_negative(),
        c.is_finite(),
    ensures
        a.times(c).non_negative(),
        a.times(c).at_most(b.times(c)),
{
    reveal(Double::times);
    let unit = pow2(1074);
    lemma_pow2_pos(1074);
    if a.pattern() < b.pattern() {
        crate::rounding::lemma_units_increasing(a.pattern(), b.pattern());
    }
    assert(a.size() * c.size() <= b.size() * c.size()) by (nonlinear_arith)
        requires
            a.size() <= b.size(),
    ;
    crate::rounding::lemma_nearest_monotone(a.size() * c.size(), b.size() * c.size(), unit);
    lemma_signed(false, crate::rounding::nearest(a.size() * c.size(), unit));
    lemma_signed(false, crate::rounding::nearest(b.size() * c.size(), unit));
}

pub proof fn lemma_times_commutes(a: Double, b: Double)
    ensures
        a.times(b) == b.times(a),
{
    reveal(Double::times);
    assert(a.size() * b.size() == b.size() * a.size()) by (nonlinear_arith);
}

/// Scaling both sides of a quotient does not change what it rounds to.
pub proof fn lemma_nearest_scale(num: nat, den: nat, c: nat)
    requires
        den > 0,
        c > 0,
    ensures
        crate::rounding::nearest(num * c, den * c) == crate::rounding::nearest(num, den),
{
    crate::rounding::lemma_nearest_even_scale(num, den, c);
    let k = crate::rounding::spacing(num, den);
    lemma_pow2_pos(k);
    assert(den * c > 0 && den * pow2(k) > 0 && (den * c) * pow2(k) == (den * pow2(k)) * c)
        by (nonlinear_arith)
        requires
            den > 0,
            c > 0,
            pow2(k) > 0,
    ;
    crate::rounding::lemma_nearest_even_scale(num, den * pow2(k), c);
}

/// A number divided by itself is one.
pub proof fn lemma_over_itself(a: Double)
    requires
        a.is_finite(),
        a.pattern() > 0,
    ensures
        a.over(a) == Double::of_int(1),
{
    reveal(Double::over);
    reveal(Double::of_int);
    let unit = pow2(1074);
    lemma_pow2_pos(1074);
    crate::rounding::lemma_units_increasing(0, a.pattern());
    assert(a.size() * unit == unit * a.size() && 1 * a.size() == a.size() && 1 * unit == unit)
        by (nonlinear_arith);
    lemma_nearest_scale(unit, 1, a.size());
}

/// One times a number is that number.
pub proof fn lemma_times_one(a: Double)
    requires
        a.is_finite(),
    ensures
        a.times(Double::of_int(1)) == a,
{
    let one = Double::of_int(1);
    let unit = pow2(1074);
    lemma_of_int(1);
    lemma_of_int_exact(1);
    lemma_pow2_pos(1074);
    reveal(Double::times);
    assert(one.size() == unit) by {
        assert(1 * unit == unit);
    }
    assert(1 * unit == unit);
    lemma_nearest_scale(a.size(), 1, unit);
    crate::rounding::lemma_nearest_of_units(a.pattern());
    lemma_signed(a.is_neg(), a.pattern());
}

/// Zero times a non-negative number is zero.
pub proof fn lemma_times_zero(a: Double)
    requires
        a.non_negative(),
        a.is_finite(),
    ensures
        a.times(Double::of_int(0)) == Double::of_int(0),
{
    lemma_of_int(0);
    reveal(Double::times);
    lemma_pow2_pos(1074);
    assert(crate::rounding::units(0) == 0);
    assert(a.size() * 0 == 0);
    crate::rounding::lemma_nearest_zero(pow2(1074));
}

/// Nothing off a non-negative number leaves it as it is.
pub proof fn lemma_minus_zero(a: Double)
    requires
        !a.is_nan(),
    ensures
        a.minus(Double::of_int(0)) == a,
{
    lemma_of_int(0);
    if a.is_finite() {
        lemma_minus(a, Double::of_int(0));
        assert(crate::rounding::units(0) == 0);
        lemma_rounded_value(a);
    } else {
        reveal(Double::plus);
        lemma_negated(Double::of_int(0));
    }
}

/// A quotient grows with its dividend.
pub proof fn lemma_over_monotone(a: Double, b: Double, c: Double)
    requires
        a.non_negative(),
        b.non_negative(),
        b.is_finite(),
        a.at_most(b),
        c.non_negative(),
        c.is_finite(),
        c.pattern() > 0,
    ensures
        a.over(c).non_negative(),
        a.over(c).at_most(b.over(c)),
{
    reveal(Double::over);
    let unit = pow2(1074);
    crate::rounding::lemma_units_increasing(0, c.pattern());
    if a.pattern() < b.pattern() {
        crate::rounding::lemma_units_increasing(a.pattern(), b.pattern());
    }
    assert(a.size() * unit <= b.size() * unit) by (nonlinear_arith)
        requires
            a.size() <= b.size(),
    ;
    crate::rounding::lemma_nearest_monotone(a.size() * unit, b.size() * unit, c.size());
    lemma_signed(false, crate::rounding::nearest(a.size() * unit, c.size()));
    lemma_signed(false, crate::rounding::nearest(b.size() * unit, c.size()));
}

/// The more is taken off a number, the less is left of it.
pub proof fn lemma_minus_monotone(a: Double, x: Double, y: Double)
    requires
        !a.is_nan(),
        x.is_finite(),
        y.is_finite(),
        x.at_most(y),
    ensures
        a.minus(y).at_most(a.minus(x)),
{
    if a.is_finite() {
        lemma_order_of_values(x, y);
        lemma_minus(a, x);
        lemma_minus(a, y);
        lemma_rounded_monotone(
            a.value() - y.value(),
            a.value() - x.value(),
            a.is_neg() && !y.is_neg(),
            a.is_neg() && !x.is_neg(),
        );
    } else {
        reveal(Double::plus);
        lemma_negated(x);
        lemma_negated(y);
    }
}

/// A quotient shrinks as its divisor grows.
pub proof fn lemma_over_antitone(a: Double, b: Double, c: Double)
    requires
        a.non_negative(),
        a.is_finite(),
        b.non_negative(),
        b.pattern() > 0,
        c.is_finite(),
        b.at_most(c),
    ensures
        a.over(c).non_negative(),
        a.over(b).non_negative(),
        a.over(c).at_most(a.over(b)),
{
    reveal(Double::over);
    let n = a.size() * pow2(1074);
    crate::rounding::lemma_units_increasing(0, b.pattern());
    if b.pattern() < c.pattern() {
        crate::rounding::lemma_units_increasing(b.pattern(), c.pattern());
    }
    let x = b.size();
    let y = c.size();
    lemma_nearest_scale(n, x, y);
    lemma_nearest_scale(n, y, x);
    assert(n * x <= n * y && x * y == y * x && x * y > 0) by (nonlinear_arith)
        requires
            0 < x <= y,
    ;
    crate::rounding::lemma_nearest_monotone(n * x, n * y, x * y);
    lemma_signed(false, crate::rounding::nearest(n, x));
    lemma_signed(false, crate::rounding::nearest(n, y));
}

/// Dividing a negated number negates the quotient.
pub proof fn lemma_over_negated(a: Double, b: Double)
    requires
        a.is_finite(),
        b.is_finite(),
        b.pattern() > 0,
    ensures
        a.negated().over(b) == a.over(b).negated(),
{
    reveal(Double::over);
    lemma_negated(a);
    let p = crate::rounding::nearest(a.size() * pow2(1074), b.size());
    crate::rounding::lemma_units_increasing(0, b.pattern());
    lemma_signed(a.is_neg() != b.is_neg(), p);
    lemma_signed(!a.is_neg() != b.is_neg(), p);
}

pub proof fn lemma_of_int_negated(n: int)
    requires
        -0x1_0000_0000_0000_0000 <= n <= 0x1_0000_0000_0000_0000,
        n != 0,
    ensures
        Double::of_int(-n) == Double::of_int(n).negated(),
{
    reveal(Double::of_int);
    lemma_of_int(n);
    lemma_of_int(-n);
}

/// Zero divided by a positive number is zero.
pub proof fn lemma_zero_over(a: Double)
    requires
        a.non_negative(),
        a.is_finite(),
        a.pattern() > 0,
    ensures
        Double::of_int(0).over(a) == Double::of_int(0),
{
    lemma_of_int(0);
    reveal(Double::over);
    crate::rounding::lemma_units_increasing(0, a.pattern());
    crate::rounding::lemma_nearest_zero(a.size());
    assert(crate::rounding::units(0) == 0);
    assert(0 * pow2(1074) == 0);
}

/// Negating a factor negates the product.
pub proof fn lemma_times_negated(a: Double, b: Double)
    requires
        !a.times(b).is_nan(),
    ensures
        a.negated().times(b) == a.times(b).negated(),
{
    reveal(Double::times);
    lemma_negated(a);
    lemma_pow2_pos(1074);
    let p = crate::rounding::nearest(a.size() * b.size(), pow2(1074));
    lemma_signed(a.is_neg() != b.is_neg(), p);
    lemma_signed(!a.is_neg() != b.is_neg(), p);
}

impl Double {
    /// The number is the integer `n` itself.
    pub open spec fn is_int(self, n: int) -> bool {
        self.is_finite() && self.value() == n * pow2(1074)
    }
}

/// Integers of up to 53 binary digits add up without rounding.
pub proof fn lemma_plus_of_ints(a: Double, b: Double, m: int, n: int)
    requires
        a.is_int(m),
        b.is_int(n),
        -(2 * BINADE) <= m + n <= 2 * BINADE,
    ensures
        a.plus(b).is_int(m + n),
{
    let unit = pow2(1074) as int;
    lemma_plus(a, b);
    assert(m * unit + n * unit == (m + n) * unit) by (nonlinear_arith);
    let u = (m + n) * unit;
    let exact = Double::of_int(m + n);
    lemma_of_int_exact(m + n);
    lemma_rounded_value(exact);
    lemma_rounded(u, a.is_neg() && b.is_neg());
    lemma_rounded(u, exact.is_neg());
    let r = a.plus(b);
    assert(r.pattern() == exact.pattern());
    assert(crate::rounding::units(0) == 0);
}

/// Integers of up to 53 binary digits are taken off each other without
/// rounding.
pub proof fn lemma_minus_of_ints(a: Double, b: Double, m: int, n: int)
    requires
        a.is_int(m),
        b.is_int(n),
        -(2 * BINADE) <= m - n <= 2 * BINADE,
    ensures
        a.minus(b).is_int(m - n),
{
    lemma_negated(b);
    let unit = pow2(1074) as int;
    assert(-(n * unit) == (-n) * unit) by (nonlinear_arith);
    lemma_plus_of_ints(a, b.negated(), m, -n);
}

/// Multiplying by a non-negative number keeps the order.
pub proof fn lemma_times_keeps_order(a: Double, b: Double, c: Double)
    requires
        a.is_finite(),
        b.is_finite(),
        a.at_most(b),
        c.non_negative(),
        c.is_finite(),
    ensures
        a.times(c).at_most(b.times(c)),
        !a.times(c).is_nan(),
{
    reveal(Double::times);
    let unit = pow2(1074);
    lemma_pow2_pos(1074);
    let p = a.size() * c.size();
    let q = b.size() * c.size();
    lemma_signed(a.is_neg(), crate::rounding::nearest(p, unit));
    lemma_signed(b.is_neg(), crate::rounding::nearest(q, unit));
    lemma_order_of_values(a, b);
    if a.is_neg() {
        if b.is_neg() {
            assert(q <= p) by (nonlinear_arith)
                requires
                    p == a.size() * c.size(),
                    q == b.size() * c.size(),
                    b.size() <= a.size(),
            ;
            crate::rounding::lemma_nearest_monotone(q, p, unit);
        }
    } else if b.is_neg() {
        assert(a.size() == 0 && b.size() == 0);
        assert(p == 0 && q == 0) by (nonlinear_arith)
            requires
                p == a.size() * c.size(),
                q == b.size() * c.size(),
                a.size() == 0,
                b.size() == 0,
        ;
        crate::rounding::lemma_nearest_zero(unit);
    } else {
        assert(p <= q) by (nonlinear_arith)
            requires
                p == a.size() * c.size(),
                q == b.size() * c.size(),
                a.size() <= b.size(),
        ;
        crate::rounding::lemma_nearest_monotone(p, q, unit);
    }
}

/// Dividing by a positive number keeps the order.
pub proof fn lemma_over_keeps_order(a: Double, b: Double, c: Double)
    requires
        a.is_finite(),
        b.is_finite(),
        a.at_most(b),
        c.non_negative(),
        c.is_finite(),
        c.pattern() > 0,
    ensures
        a.over(c).at_most(b.over(c)),
        !a.over(c).is_nan(),
{
    reveal(Double::over);
    let unit = pow2(1074);
    crate::rounding::lemma_units_increasing(0, c.pattern());
    let p = a.size() * unit;
    let q = b.size() * unit;
    lemma_signed(a.is_neg(), crate::rounding::nearest(p, c.size()));
    lemma_signed(b.is_neg(), crate::rounding::nearest(q, c.size()));
    lemma_order_of_values(a, b);
    if a.is_neg() {
        if b.is_neg() {
            assert(q <= p) by (nonlinear_arith)
                requires
                    p == a.size() * unit,
                    q == b.size() * unit,
                    b.size() <= a.size(),
            ;
            crate::rounding::lemma_nearest_monotone(q, p, c.size());
        }
    } else if b.is_neg() {
        assert(a.size() == 0 && b.size() == 0);
        assert(p == 0 && q == 0) by (nonlinear_arith)
            requires
                p == a.size() * unit,
                q == b.size() * unit,
                a.size() == 0,
                b.size() == 0,
        ;
        crate::rounding::lemma_nearest_zero(c.size());
    } else {
        assert(p <= q) by (nonlinear_arith)
            requires
                p == a.size() * unit,
                q == b.size() * unit,
                a.size() <= b.size(),
        ;
        crate::rounding::lemma_nearest_monotone(p, q, c.size());
    }
}

/// Adding a number keeps the order.
pub proof fn lemma_plus_keeps_order(a: Double, b: Double, c: Double)
    requires
        a.is_finite(),
        b.is_finite(),
        a.at_most(b),
        c.is_finite(),
    ensures
        a.plus(c).at_most(b.plus(c)),
        c.plus(a).at_most(c.plus(b)),
{
    lemma_order_of_values(a, b);
    lemma_plus(a, c);
    lemma_plus(b, c);
    lemma_plus(c, a);
    lemma_plus(c, b);
    lemma_rounded_monotone(
        a.value() + c.value(),
        b.value() + c.value(),
        a.is_neg() && c.is_neg(),
        b.is_neg() && c.is_neg(),
    );
    lemma_rounded_monotone(
        c.value() + a.value(),
        c.value() + b.value(),
        c.is_neg() && a.is_neg(),
        c.is_neg() && b.is_neg(),
    );
}

/// Taking a number off keeps the order.
pub proof fn lemma_minus_keeps_order(a: Double, b: Double, c: Double)
    requires
        a.is_finite(),
        b.is_finite(),
        a.at_most(b),
        c.is_finite(),
    ensures
        a.minus(c).at_most(b.minus(c)),
{
    lemma_negated(c);
    lemma_plus_keeps_order(a, b, c.negated());
}

/// Rounding to the nearest integer keeps the order.
pub proof fn lemma_round_keeps_order(a: Double, b: Double)
    requires
        a.at_most(b),
    ensures
        crate::event::rounded_i64(a) <= crate::event::rounded_i64(b),
{
    let unit = pow2(1074) as int;
    lemma_pow2_pos(1074);
    if a.is_finite() && b.is_finite() {
        lemma_order_of_values(a, b);
        let x = 2 * a.size() + unit;
        let y = 2 * b.size() + unit;
        if a.is_neg() == b.is_neg() {
            if a.is_neg() {
                lemma_div_is_ordered(y, x, 2 * unit);
            } else {
                lemma_div_is_ordered(x, y, 2 * unit);
            }
        } else if b.is_neg() {
            assert(a.size() == 0 && b.size() == 0);
            lemma_basic_div(unit, 2 * unit);
        } else {
            lemma_div_pos_is_pos(x, 2 * unit);
            lemma_div_pos_is_pos(y, 2 * unit);
        }
    }
}

} // verus!
