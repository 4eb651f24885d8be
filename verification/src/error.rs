//! How far rounding goes.
use vstd::arithmetic::div_mod::*;
use vstd::arithmetic::power2::*;
use vstd::prelude::*;

use crate::double::Double;
use crate::rounding::{BINADE, INFINITY_BITS};

verus! {

/// Two to the power of 53: a rounding moves a number by at most one part in this.
pub const PRECISION: u64 = 0x20_0000_0000_0000;

pub open spec fn gap(a: int, b: int) -> int {
    if a < b {
        b - a
    } else {
        a - b
    }
}

pub proof fn lemma_gap_scales(a: int, b: int, c: int)
    requires
        c >= 0,
    ensures
        gap(a * c, b * c) == gap(a, b) * c,
{
    assert(a * c - b * c == (a - b) * c) by (nonlinear_arith);
    assert(b * c - a * c == (b - a) * c) by (nonlinear_arith);
    assert(a < b ==> a * c <= b * c) by (nonlinear_arith)
        requires
            c >= 0,
    ;
    assert(b <= a ==> b * c <= a * c) by (nonlinear_arith)
        requires
            c >= 0,
    ;
}

proof fn lemma_units_of_rounded(m: nat, k: nat)
    requires
        k == 0 || BINADE <= m,
        m <= 2 * BINADE,
    ensures
        crate::rounding::units(k * BINADE as nat + m) == m * pow2(k),
{
    lemma2_to64();
    if m < BINADE {
        assert(0 * BINADE as nat + m == m);
        assert(m * 1 == m);
    } else if m < 2 * BINADE {
        crate::rounding::lemma_units_of_binade(m, k);
    } else {
        crate::rounding::lemma_units_of_binade(BINADE as nat, k + 1);
        lemma_pow2_unfold(k + 1);
        assert((k + 1) * BINADE as nat + BINADE as nat == k * BINADE as nat + m)
            by (nonlinear_arith)
            requires
                m == 2 * BINADE,
        ;
        assert(BINADE as nat * (2 * pow2(k)) == m * pow2(k)) by (nonlinear_arith)
            requires
                m == 2 * BINADE,
        ;
    }
}

/// A quotient that is rounded is met up to one part in [`PRECISION`], or up to
/// half a unit where it is too small for that.
pub proof fn lemma_nearest_error(num: nat, den: nat)
    requires
        den > 0,
        crate::rounding::nearest(num, den) < INFINITY_BITS,
    ensures
        gap((crate::rounding::units(crate::rounding::nearest(num, den)) * den) as int, num as int)
            * PRECISION <= num + den * BINADE,
        den == 1 ==> gap(
            crate::rounding::units(crate::rounding::nearest(num, den)) as int,
            num as int,
        ) * PRECISION <= num,
{
    let q = num / den;
    let digits = crate::rounding::bit_len(q);
    let k = crate::rounding::spacing(num, den);
    let wide = den * pow2(k);
    let m = crate::rounding::nearest_even(num, wide);
    lemma2_to64();
    lemma2_to64_rest();
    lemma_pow2_pos(k);
    assert(wide > 0) by (nonlinear_arith)
        requires
            den > 0,
            pow2(k) > 0,
            wide == den * pow2(k),
    ;
    lemma_fundamental_div_mod(num as int, den as int);
    lemma_fundamental_div_mod(num as int, wide as int);
    let f = num / wide;
    let r = num % wide;
    if m == f {
        assert(m * wide == wide * f) by (nonlinear_arith)
            requires
                m == f,
        ;
        assert(2 * r <= wide);
    } else {
        assert(m * wide == wide * f + wide) by (nonlinear_arith)
            requires
                m == f + 1,
        ;
        assert(2 * r >= wide);
    }
    assert(2 * gap((m * wide) as int, num as int) <= wide);
    crate::rounding::lemma_bit_len(q);
    // The digits of the quotient bound it from both sides.
    if k == 0 {
        assert(wide == den) by (nonlinear_arith)
            requires
                wide == den * pow2(0),
                pow2(0) == 1,
        ;
        if digits < 53 {
            lemma_pow2_strictly_increases(digits, 53);
        }
        assert(q < 2 * BINADE);
        assert(m <= 2 * BINADE);
        lemma_units_of_rounded(m, 0);
        assert(0 * BINADE as nat + m == m);
        assert(m * 1 == m);
    } else {
        lemma_pow2_adds(52, k);
        lemma_pow2_adds(53, k);
        let p = pow2(k);
        assert(digits == 53 + k);
        assert(BINADE * p <= q < 2 * BINADE * p) by (nonlinear_arith)
            requires
                pow2(52) * p == pow2(52 + k),
                pow2(53) * p == pow2(53 + k),
                pow2(52) == BINADE,
                pow2(53) == 2 * BINADE,
                pow2(52 + k) <= q < pow2(53 + k),
        ;
        assert(BINADE * wide <= num) by (nonlinear_arith)
            requires
                BINADE * p <= q,
                wide == den * p,
                den * q <= num,
                den > 0,
        ;
        assert(num < 2 * BINADE * wide) by (nonlinear_arith)
            requires
                q + 1 <= 2 * BINADE * p,
                wide == den * p,
                num < den * q + den,
                den > 0,
        ;
        assert(BINADE <= f < 2 * BINADE) by (nonlinear_arith)
            requires
                BINADE * wide <= num < 2 * BINADE * wide,
                num == wide * f + r,
                0 <= r < wide,
        ;
        lemma_units_of_rounded(m, k);
    }
    let v = crate::rounding::units(crate::rounding::nearest(num, den));
    assert(v == m * pow2(k));
    assert(v * den == m * wide) by (nonlinear_arith)
        requires
            v == m * pow2(k),
            wide == den * pow2(k),
    ;
    if den == 1 {
        assert(v * 1 == v);
    }
}

/// The sum of finite numbers is met up to one part in [`PRECISION`].
pub proof fn lemma_rounded_error(u: int, neg_zero: bool)
    requires
        crate::double::rounded(u, neg_zero).is_finite(),
    ensures
        gap(crate::double::rounded(u, neg_zero).value(), u) * PRECISION <= gap(u, 0),
{
    let size = gap(u, 0) as nat;
    crate::order::lemma_rounded(u, neg_zero);
    lemma_nearest_error(size, 1);
    assert(crate::rounding::units(0) == 0);
}

/// The product of finite numbers, counted in units, is met up to one part in
/// [`PRECISION`] or half a unit.
pub proof fn lemma_times_error(a: Double, b: Double)
    requires
        a.is_finite(),
        b.is_finite(),
        a.times(b).is_finite(),
    ensures
        gap(a.times(b).value() * pow2(1074), a.value() * b.value()) * PRECISION <= gap(
            a.value() * b.value(),
            0,
        ) + pow2(1074) * BINADE,
{
    reveal(Double::times);
    let unit = pow2(1074);
    lemma_pow2_pos(1074);
    let n = a.size() * b.size();
    let p = crate::rounding::nearest(n, unit);
    crate::order::lemma_signed(a.is_neg() != b.is_neg(), p);
    lemma_nearest_error(n, unit);
    let v = crate::rounding::units(p);
    let x = a.value();
    let y = b.value();
    assert(x * y == if a.is_neg() != b.is_neg() {
        -(n as int)
    } else {
        n as int
    }) by (nonlinear_arith)
        requires
            n == a.size() * b.size(),
            x == if a.is_neg() {
                -(a.size() as int)
            } else {
                a.size() as int
            },
            y == if b.is_neg() {
                -(b.size() as int)
            } else {
                b.size() as int
            },
    ;
    assert((-(v as int)) * unit == -(v * unit)) by (nonlinear_arith);
}

/// Half of a finite number is met up to one part in [`PRECISION`] or half a unit.
pub proof fn lemma_half_error(a: Double)
    requires
        a.is_finite(),
        a.over(Double::of_int(2)).is_finite(),
    ensures
        gap(2 * a.over(Double::of_int(2)).value(), a.value()) * PRECISION <= gap(a.value(), 0)
            + PRECISION,
{
    reveal(Double::over);
    let two = Double::of_int(2);
    let unit = pow2(1074);
    lemma_pow2_pos(1074);
    crate::order::lemma_of_int(2);
    crate::order::lemma_of_int_exact(2);
    let n = a.size() * unit;
    let den = two.size();
    assert(den == 2 * unit);
    let p = crate::rounding::nearest(n, den);
    crate::order::lemma_signed(a.is_neg(), p);
    lemma_nearest_error(n, den);
    let v = crate::rounding::units(p);
    assert(v * den == (2 * v) * unit) by (nonlinear_arith)
        requires
            den == 2 * unit,
    ;
    let g = gap(2 * v as int, a.size() as int);
    lemma_gap_scales(2 * v as int, a.size() as int, unit as int);
    assert(g * PRECISION <= a.size() + PRECISION) by (nonlinear_arith)
        requires
            (g * unit) * PRECISION <= a.size() * unit + (2 * unit) * BINADE,
            unit > 0,
            PRECISION == 2 * BINADE,
    ;
}

/// What is not a multiple of the spacing around `t` lies below its binade.
proof fn lemma_units_by_spacing(p: nat, k: nat)
    requires
        crate::rounding::units(p) % pow2(k) != 0,
    ensures
        crate::rounding::units(p) < BINADE * pow2(k),
{
    let step = BINADE as nat;
    lemma2_to64();
    lemma_pow2_pos(k);
    if p < step {
        assert(p < BINADE * pow2(k)) by (nonlinear_arith)
            requires
                p < BINADE,
                pow2(k) >= 1,
        ;
    } else {
        let e = (p / step - 1) as nat;
        let m = step + p % step;
        if e >= k {
            let f = (e - k) as nat;
            lemma_pow2_adds(f, k);
            assert(m * (pow2(f) * pow2(k)) == (m * pow2(f)) * pow2(k)) by (nonlinear_arith);
            lemma_mod_multiples_basic((m * pow2(f)) as int, pow2(k) as int);
            assert(false);
        }
        if e + 1 < k {
            lemma_pow2_strictly_increases(e + 1, k);
        }
        lemma_pow2_unfold(e + 1);
        lemma_pow2_pos(e);
        assert(m * pow2(e) < BINADE * pow2(k)) by (nonlinear_arith)
            requires
                m < 2 * BINADE,
                2 * pow2(e) <= pow2(k),
                pow2(e) > 0,
        ;
    }
}

/// No number lies nearer than the one that is rounded to.
proof fn lemma_nearest_is_nearest(t: nat, p: nat)
    requires
        crate::rounding::nearest(t, 1) < INFINITY_BITS,
    ensures
        gap(crate::rounding::units(crate::rounding::nearest(t, 1)) as int, t as int) <= gap(
            crate::rounding::units(p) as int,
            t as int,
        ),
{
    let k = crate::rounding::spacing(t, 1);
    let w = pow2(k);
    let m = crate::rounding::nearest_even(t, 1 * w);
    let v = crate::rounding::units(p);
    lemma2_to64();
    lemma2_to64_rest();
    lemma_pow2_pos(k);
    lemma_div_basics(t as int);
    lemma_nearest_units(t);
    assert(1 * w == w);
    lemma_fundamental_div_mod(t as int, w as int);
    let f = t / w;
    let r = t % w;
    if v % w == 0 {
        lemma_fundamental_div_mod(v as int, w as int);
        lemma_nearest_multiple(t, w, v / w);
    } else {
        lemma_units_by_spacing(p, k);
        if k == 0 {
            lemma_mod_self_0(1);
            assert(v % 1 == 0);
            assert(false);
        }
        crate::rounding::lemma_bit_len(t);
        lemma_pow2_adds(52, k);
        assert(BINADE * w <= t);
        lemma_nearest_multiple(t, w, BINADE as nat);
        assert(w * BINADE == BINADE * w) by (nonlinear_arith);
    }
}

/// No multiple of the spacing lies nearer.
proof fn lemma_nearest_multiple(t: nat, w: nat, c: nat)
    requires
        w > 0,
    ensures
        gap((crate::rounding::nearest_even(t, w) * w) as int, t as int) <= gap(
            (w * c) as int,
            t as int,
        ),
{
    let f = t / w;
    let r = t % w;
    let m = crate::rounding::nearest_even(t, w);
    lemma_fundamental_div_mod(t as int, w as int);
    if m == f {
        assert(m * w == w * f) by (nonlinear_arith)
            requires
                m == f,
        ;
    } else {
        assert(m * w == w * f + w) by (nonlinear_arith)
            requires
                m == f + 1,
        ;
    }
    if c <= f {
        assert(w * c <= w * f) by (nonlinear_arith)
            requires
                c <= f,
        ;
    } else {
        assert(w * c >= w * f + w) by (nonlinear_arith)
            requires
                c >= f + 1,
        ;
    }
}

proof fn lemma_nearest_units(t: nat)
    requires
        crate::rounding::nearest(t, 1) < INFINITY_BITS,
    ensures
        ({
            let k = crate::rounding::spacing(t, 1);
            crate::rounding::units(crate::rounding::nearest(t, 1)) == crate::rounding::nearest_even(
                t,
                1 * pow2(k),
            ) * pow2(k)
        }),
{
    let k = crate::rounding::spacing(t, 1);
    let w = pow2(k);
    let m = crate::rounding::nearest_even(t, 1 * w);
    let digits = crate::rounding::bit_len(t);
    lemma2_to64();
    lemma2_to64_rest();
    lemma_pow2_pos(k);
    lemma_div_basics(t as int);
    lemma_fundamental_div_mod(t as int, w as int);
    crate::rounding::lemma_bit_len(t);
    let f = t / w;
    let r = t % w;
    assert(1 * w == w);
    if k == 0 {
        if digits < 53 {
            lemma_pow2_strictly_increases(digits, 53);
        }
        assert(w * f == f) by (nonlinear_arith)
            requires
                w == 1,
        ;
        assert(m <= 2 * BINADE);
    } else {
        lemma_pow2_adds(52, k);
        lemma_pow2_adds(53, k);
        assert(BINADE <= f < 2 * BINADE) by (nonlinear_arith)
            requires
                BINADE * w <= t < 2 * BINADE * w,
                t == w * f + r,
                0 <= r < w,
        ;
    }
    lemma_units_of_rounded(m, k);
}

/// No finite number lies nearer to `u` than the one that it is rounded to.
pub proof fn lemma_rounded_is_nearest(u: int, neg_zero: bool, v: Double)
    requires
        crate::double::rounded(u, neg_zero).is_finite(),
        v.is_finite(),
    ensures
        gap(crate::double::rounded(u, neg_zero).value(), u) <= gap(v.value(), u),
{
    let size = gap(u, 0) as nat;
    let r = crate::double::rounded(u, neg_zero);
    crate::order::lemma_rounded(u, neg_zero);
    assert(crate::rounding::units(0) == 0);
    if u != 0 {
        lemma_nearest_is_nearest(size, v.pattern());
        lemma_nearest_is_nearest(size, 0);
    }
}

/// The quotient of finite numbers is met up to one part in [`PRECISION`] or half
/// a unit.
pub proof fn lemma_over_error(a: Double, b: Double)
    requires
        a.is_finite(),
        b.is_finite(),
        b.value() > 0,
        a.over(b).is_finite(),
    ensures
        gap(a.over(b).value() * b.value(), a.value() * pow2(1074)) * PRECISION <= gap(a.value(), 0)
            * pow2(1074) + b.value() * BINADE,
{
    reveal(Double::over);
    let unit = pow2(1074);
    let n = a.size() * unit;
    let den = b.size();
    assert(b.pattern() > 0) by {
        assert(crate::rounding::units(0) == 0);
    }
    let p = crate::rounding::nearest(n, den);
    crate::order::lemma_signed(a.is_neg(), p);
    lemma_nearest_error(n, den);
    let v = crate::rounding::units(p) as int;
    let s = a.size() as int;
    assert((-v) * den == -(v * den)) by (nonlinear_arith);
    assert((-s) * unit == -(s * unit)) by (nonlinear_arith);
}

/// A finite sum comes of finite numbers.
pub proof fn lemma_finite_plus(a: Double, b: Double)
    requires
        a.plus(b).is_finite(),
    ensures
        a.is_finite(),
        b.is_finite(),
{
    reveal(Double::plus);
}

/// A finite difference comes of finite numbers.
pub proof fn lemma_finite_minus(a: Double, b: Double)
    requires
        a.minus(b).is_finite(),
    ensures
        a.is_finite(),
        b.is_finite(),
{
    lemma_finite_plus(a, b.negated());
    crate::order::lemma_negated(b);
}

/// A finite product comes of finite numbers.
pub proof fn lemma_finite_times(a: Double, b: Double)
    requires
        a.times(b).is_finite(),
    ensures
        a.is_finite(),
        b.is_finite(),
{
    reveal(Double::times);
    crate::order::lemma_signed(true, INFINITY_BITS as nat);
    crate::order::lemma_signed(false, INFINITY_BITS as nat);
}

/// A finite quotient by a finite number comes of a finite number.
pub proof fn lemma_finite_over(a: Double, b: Double)
    requires
        b.is_finite(),
        a.over(b).is_finite(),
    ensures
        a.is_finite(),
        b.pattern() > 0,
{
    reveal(Double::over);
    crate::order::lemma_signed(true, INFINITY_BITS as nat);
    crate::order::lemma_signed(false, INFINITY_BITS as nat);
}

/// An integer of 64 bits is met up to one part in [`PRECISION`].
pub proof fn lemma_of_int_error(n: int)
    requires
        0 <= n <= 0x1_0000_0000_0000_0000,
    ensures
        gap(Double::of_int(n).value(), n * pow2(1074)) * PRECISION <= n * pow2(1074),
{
    let unit = pow2(1074);
    crate::order::lemma_of_int(n);
    reveal(Double::of_int);
    let t = (n * unit) as nat;
    assert(n * unit >= 0) by (nonlinear_arith)
        requires
            n >= 0,
    ;
    lemma_nearest_error(t, 1);
}

} // verus!
