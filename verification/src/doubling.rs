//! Doubling is exact, and goes through sums, products and quotients.
use vstd::arithmetic::div_mod::*;
use vstd::arithmetic::power2::*;
use vstd::prelude::*;

use crate::double::Double;
use crate::rounding::{BINADE, INFINITY_BITS};

verus! {

/// The pattern of twice the number, where that is finite.
pub open spec fn doubled(pattern: nat) -> nat {
    if pattern < BINADE {
        2 * pattern
    } else {
        pattern + BINADE as nat
    }
}

impl Double {
    /// A number added to itself.
    pub open spec fn twice(self) -> Double {
        self.plus(self)
    }
}

proof fn lemma_units_doubled(p: nat)
    ensures
        crate::rounding::units(doubled(p)) == 2 * crate::rounding::units(p),
{
    let step = BINADE as nat;
    lemma2_to64();
    if p < step {
        if 2 * p >= step {
            crate::rounding::lemma_units_of_binade(2 * p, 0);
            assert(0 * step + 2 * p == 2 * p);
            assert((2 * p) * pow2(0) == 2 * p) by (nonlinear_arith)
                requires
                    pow2(0) == 1,
            ;
        }
    } else {
        let k = (p / step - 1) as nat;
        let m = step + p % step;
        lemma_fundamental_div_mod(p as int, step as int);
        assert(p == k * step + m) by (nonlinear_arith)
            requires
                p == step * (p / step) + p % step,
                k == p / step - 1,
                m == step + p % step,
        ;
        assert((k + 1) * step + m == p + step) by (nonlinear_arith)
            requires
                p == k * step + m,
        ;
        crate::rounding::lemma_units_of_binade(m, k);
        crate::rounding::lemma_units_of_binade(m, k + 1);
        lemma_pow2_unfold(k + 1);
        assert(m * (2 * pow2(k)) == 2 * (m * pow2(k))) by (nonlinear_arith);
    }
}

/// Twice a quotient rounds to twice what the quotient rounds to, as long as no
/// digit of it is lost for want of range.
proof fn lemma_nearest_doubled(num: nat, den: nat)
    requires
        den > 0,
        crate::rounding::nearest(num, den) < INFINITY_BITS,
        den == 1 || num / den >= BINADE,
    ensures
        crate::rounding::nearest(2 * num, den) == {
            let p = doubled(crate::rounding::nearest(num, den));
            if p > INFINITY_BITS {
                INFINITY_BITS as nat
            } else {
                p
            }
        },
{
    let q = num / den;
    let k = crate::rounding::spacing(num, den);
    let p = crate::rounding::nearest(num, den);
    lemma2_to64();
    lemma2_to64_rest();
    lemma_pow2_pos(k);
    if q >= BINADE {
        let q2 = (2 * num) / den;
        assert(num * 2 == 2 * num && den * 2 == 2 * den);
        lemma_div_denominator(2 * num as int, den as int, 2);
        crate::rounding::lemma_nearest_even_scale(num, den, 2);
        assert(q2 / 2 == q);
        assert(crate::rounding::bit_len(q2) == 1 + crate::rounding::bit_len(q));
        crate::rounding::lemma_bit_len(q);
        if crate::rounding::bit_len(q) < 53 {
            if crate::rounding::bit_len(q) < 52 {
                lemma_pow2_strictly_increases(crate::rounding::bit_len(q), 52);
            }
            assert(false);
        }
        assert(crate::rounding::spacing(2 * num, den) == k + 1);
        lemma_pow2_unfold(k + 1);
        let wide = den * pow2(k);
        assert(den * pow2(k + 1) == wide * 2) by (nonlinear_arith)
            requires
                pow2(k + 1) == 2 * pow2(k),
                wide == den * pow2(k),
        ;
        assert(wide > 0) by (nonlinear_arith)
            requires
                den > 0,
                pow2(k) > 0,
                wide == den * pow2(k),
        ;
        crate::rounding::lemma_nearest_even_scale(num, wide, 2);
        let m = crate::rounding::nearest_even(num, wide);
        assert(p == k * BINADE as nat + m);
        if k == 0 {
            assert(wide == den) by (nonlinear_arith)
                requires
                    wide == den * pow2(0),
                    pow2(0) == 1,
            ;
            assert(m >= q);
        } else {
            assert(k * BINADE as nat >= BINADE) by (nonlinear_arith)
                requires
                    k >= 1,
            ;
        }
        assert((k + 1) * BINADE as nat == k * BINADE as nat + BINADE as nat) by (nonlinear_arith);
    } else {
        lemma_div_basics(num as int);
        assert(q == num);
        lemma_small_digits(num);
        lemma_small_digits(2 * num);
        lemma_div_basics(2 * num as int);
        lemma_mod_self_0(1);
        assert(1 * pow2(0) == 1);
        assert(num % 1 == 0 && (2 * num) % 1 == 0);
    }
}

proof fn lemma_small_digits(t: nat)
    requires
        t < 2 * BINADE,
    ensures
        crate::rounding::bit_len(t) <= 53,
{
    lemma2_to64();
    lemma2_to64_rest();
    crate::rounding::lemma_bit_len(t);
    let n = crate::rounding::bit_len(t);
    if n > 53 {
        if n - 1 > 53 {
            lemma_pow2_strictly_increases(53, (n - 1) as nat);
        }
    }
}

pub proof fn lemma_twice(a: Double)
    requires
        a.is_finite(),
    ensures
        a.twice().is_neg() == a.is_neg(),
        !a.twice().is_nan(),
        a.twice().is_finite() <==> doubled(a.pattern()) < INFINITY_BITS,
        a.twice().is_finite() ==> a.twice().pattern() == doubled(a.pattern()),
        a.twice().is_finite() ==> a.twice().value() == 2 * a.value(),
{
    crate::order::lemma_plus(a, a);
    let size = a.size();
    crate::rounding::lemma_nearest_of_units(a.pattern());
    lemma_nearest_doubled(size, 1);
    lemma_units_doubled(a.pattern());
    crate::order::lemma_rounded(2 * a.value(), a.is_neg());
    assert(crate::rounding::units(0) == 0);
    if a.pattern() > 0 {
        crate::rounding::lemma_units_increasing(0, a.pattern());
    }
}

/// The double of a rounded number is its double, rounded.
proof fn lemma_rounded_twice(u: int, neg_zero: bool)
    requires
        crate::double::rounded(u, neg_zero).is_finite(),
        crate::double::rounded(u, neg_zero).twice().is_finite(),
    ensures
        crate::double::rounded(2 * u, neg_zero) == crate::double::rounded(u, neg_zero).twice(),
{
    let r = crate::double::rounded(u, neg_zero);
    let size = (if u < 0 {
        -u
    } else {
        u
    }) as nat;
    crate::order::lemma_rounded(u, neg_zero);
    crate::order::lemma_rounded(2 * u, neg_zero);
    lemma_twice(r);
    lemma_nearest_doubled(size, 1);
}

pub proof fn lemma_plus_twice(a: Double, b: Double)
    requires
        a.is_finite(),
        b.is_finite(),
        a.twice().is_finite(),
        b.twice().is_finite(),
        a.plus(b).is_finite(),
        a.plus(b).twice().is_finite(),
    ensures
        a.twice().plus(b.twice()) == a.plus(b).twice(),
{
    lemma_twice(a);
    lemma_twice(b);
    crate::order::lemma_plus(a, b);
    crate::order::lemma_plus(a.twice(), b.twice());
    lemma_rounded_twice(a.value() + b.value(), a.is_neg() && b.is_neg());
}

/// A number that keeps all its digits: zero, or above the smallest normal one.
pub open spec fn is_full(a: Double) -> bool {
    a.pattern() == 0 || a.pattern() > BINADE
}

pub proof fn lemma_over_twice(a: Double, c: Double)
    requires
        a.is_finite(),
        a.twice().is_finite(),
        c.non_negative(),
        c.is_finite(),
        c.pattern() > 0,
        a.over(c).is_finite(),
        a.over(c).twice().is_finite(),
        is_full(a.over(c)),
        a.over(c).pattern() == 0 ==> a.pattern() == 0,
    ensures
        a.twice().over(c) == a.over(c).twice(),
{
    reveal(Double::over);
    let unit = pow2(1074);
    let num = a.size() * unit;
    let den = c.size();
    lemma_twice(a);
    lemma_twice(a.over(c));
    crate::rounding::lemma_units_increasing(0, c.pattern());
    let p = crate::rounding::nearest(num, den);
    crate::order::lemma_signed(a.is_neg(), p);
    assert(a.twice().size() == 2 * a.size());
    assert((2 * a.size()) * unit == 2 * num) by (nonlinear_arith)
        requires
            num == a.size() * unit,
    ;
    assert(crate::rounding::units(0) == 0);
    if a.pattern() == 0 {
        assert(num == 0) by (nonlinear_arith)
            requires
                num == a.size() * unit,
                a.size() == 0,
        ;
        crate::rounding::lemma_nearest_zero(den);
    } else {
        lemma_floor_of_full(num, den);
        lemma_nearest_doubled(num, den);
    }
    let p2 = crate::rounding::nearest(2 * num, den);
    crate::order::lemma_signed(a.is_neg(), p2);
}

proof fn lemma_floor_of_full(num: nat, den: nat)
    requires
        den > 0,
        crate::rounding::nearest(num, den) > BINADE,
    ensures
        num / den >= BINADE,
{
    lemma2_to64();
    let q = num / den;
    if q < BINADE {
        lemma_small_digits(q);
        assert(den * pow2(0) == den) by (nonlinear_arith)
            requires
                pow2(0) == 1,
        ;
        assert(crate::rounding::nearest_even(num, den) <= q + 1);
    }
}

/// Doubling both sides of a quotient does not change it.
pub proof fn lemma_twice_over_twice(a: Double, b: Double)
    requires
        a.is_finite(),
        b.is_finite(),
        b.pattern() > 0,
        a.twice().is_finite(),
        b.twice().is_finite(),
    ensures
        a.twice().over(b.twice()) == a.over(b),
{
    lemma_twice(a);
    lemma_twice(b);
    reveal(Double::over);
    let unit = pow2(1074);
    crate::rounding::lemma_units_increasing(0, b.pattern());
    let num = a.size() * unit;
    assert((2 * a.size()) * unit == num * 2) by (nonlinear_arith)
        requires
            num == a.size() * unit,
    ;
    crate::order::lemma_nearest_scale(num, b.size(), 2);
}

pub proof fn lemma_negated_twice(a: Double)
    requires
        a.is_finite(),
        a.twice().is_finite(),
    ensures
        a.negated().is_finite(),
        a.negated().twice() == a.twice().negated(),
{
    crate::order::lemma_negated(a);
    crate::order::lemma_negated(a.twice());
    lemma_twice(a);
    lemma_twice(a.negated());
    assert(a.negated().twice().pattern() == a.twice().negated().pattern());
}

pub proof fn lemma_minus_twice(a: Double, b: Double)
    requires
        a.is_finite(),
        b.is_finite(),
        a.twice().is_finite(),
        b.twice().is_finite(),
        a.minus(b).is_finite(),
        a.minus(b).twice().is_finite(),
    ensures
        a.twice().minus(b.twice()) == a.minus(b).twice(),
{
    lemma_negated_twice(b);
    crate::order::lemma_negated(b.twice());
    lemma_plus_twice(a, b.negated());
}

/// Doubling one factor doubles the product, as long as no digit of it is lost
/// for want of range.
pub proof fn lemma_times_twice(a: Double, c: Double)
    requires
        a.is_finite(),
        a.twice().is_finite(),
        c.is_finite(),
        a.times(c).is_finite(),
        a.times(c).twice().is_finite(),
        is_full(a.times(c)),
        a.times(c).pattern() == 0 ==> a.pattern() == 0 || c.pattern() == 0,
    ensures
        a.twice().times(c) == a.times(c).twice(),
{
    reveal(Double::times);
    let unit = pow2(1074);
    lemma_pow2_pos(1074);
    let num = a.size() * c.size();
    let neg = a.is_neg() != c.is_neg();
    lemma_twice(a);
    lemma_twice(a.times(c));
    let p = crate::rounding::nearest(num, unit);
    crate::order::lemma_signed(neg, p);
    assert(a.twice().size() == 2 * a.size());
    assert((2 * a.size()) * c.size() == 2 * num) by (nonlinear_arith)
        requires
            num == a.size() * c.size(),
    ;
    assert(crate::rounding::units(0) == 0);
    if a.pattern() == 0 || c.pattern() == 0 {
        assert(num == 0) by (nonlinear_arith)
            requires
                num == a.size() * c.size(),
                a.size() == 0 || c.size() == 0,
        ;
        crate::rounding::lemma_nearest_zero(unit);
    } else {
        lemma_floor_of_full(num, unit);
        lemma_nearest_doubled(num, unit);
    }
    let p2 = crate::rounding::nearest(2 * num, unit);
    crate::order::lemma_signed(neg, p2);
}

} // verus!
