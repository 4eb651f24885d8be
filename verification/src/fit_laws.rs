//! How a fit goes with the density of the flow, up to rounding.
//!
//! A denser flow multiplies every rate by one factor, and so adds one number to
//! every logarithm of a rate. That number goes to the logarithm of the intensity
//! at the mid, and the decay stays.
use vstd::arithmetic::power2::*;
use vstd::prelude::*;

use crate::double::Double;
use crate::error::PRECISION;

verus! {

/// Every number is at most `w` units in size.
pub open spec fn sized(xs: Seq<Double>, w: int) -> bool {
    forall|i: int| 0 <= i < xs.len() ==> crate::error::gap((#[trigger] xs[i]).value(), 0) <= w
}

/// Every number of `zs` is `d` units above that of `ys`, up to four parts in
/// [`PRECISION`] of `w`.
pub open spec fn moved(ys: Seq<Double>, zs: Seq<Double>, d: int, w: int) -> bool {
    &&& ys.len() == zs.len()
    &&& forall|i: int|
        0 <= i < ys.len() ==> crate::error::gap(
            (#[trigger] zs[i]).value(),
            ys[i].value() + d,
        ) * PRECISION <= 4 * w
}

proof fn lemma_sized_rest(xs: Seq<Double>, w: int)
    requires
        sized(xs, w),
        xs.len() > 0,
    ensures
        sized(xs.drop_last(), w),
        crate::error::gap(xs.last().value(), 0) <= w,
{
    assert(crate::error::gap(xs[xs.len() - 1].value(), 0) <= w);
    assert forall|i: int| 0 <= i < xs.drop_last().len() implies crate::error::gap(
        (#[trigger] xs.drop_last()[i]).value(),
        0,
    ) <= w by {
        assert(xs[i] == xs.drop_last()[i]);
    }
}

proof fn lemma_moved_rest(ys: Seq<Double>, zs: Seq<Double>, d: int, w: int)
    requires
        moved(ys, zs, d, w),
        ys.len() > 0,
    ensures
        moved(ys.drop_last(), zs.drop_last(), d, w),
        crate::error::gap(zs.last().value(), ys.last().value() + d) * PRECISION <= 4 * w,
{
    let y = ys.drop_last();
    let z = zs.drop_last();
    assert(crate::error::gap(zs[zs.len() - 1].value(), ys[zs.len() - 1].value() + d) * PRECISION
        <= 4 * w);
    assert forall|i: int| 0 <= i < y.len() implies crate::error::gap(
        (#[trigger] z[i]).value(),
        y[i].value() + d,
    ) * PRECISION <= 4 * w by {
        assert(zs[i] == z[i] && ys[i] == y[i]);
    }
}

/// A finite sum comes of finite numbers.
proof fn lemma_total_finite(xs: Seq<Double>)
    requires
        crate::stats::total(xs).is_finite(),
    ensures
        forall|i: int| 0 <= i < xs.len() ==> (#[trigger] xs[i]).is_finite(),
    decreases xs.len(),
{
    if xs.len() > 0 {
        let rest = xs.drop_last();
        crate::error::lemma_finite_plus(crate::stats::total(rest), xs.last());
        lemma_total_finite(rest);
        assert forall|i: int| 0 <= i < xs.len() implies (#[trigger] xs[i]).is_finite() by {
            if i < rest.len() {
                assert(rest[i] == xs[i]);
            }
        }
    }
}

/// What the sizes of the numbers say of their sum.
proof fn lemma_total_size(xs: Seq<Double>, w: int)
    requires
        crate::stats::total(xs).is_finite(),
        sized(xs, w),
    ensures
        crate::error::gap(crate::stats::total(xs).value(), 0) <= 2 * xs.len() * w,
    decreases xs.len(),
{
    crate::order::lemma_of_int(0);
    crate::order::lemma_negated(Double::of_int(0));
    assert(crate::rounding::units(0) == 0);
    let k = xs.len() as int;
    if k == 0 {
        assert(2 * k * w == 0) by (nonlinear_arith)
            requires
                k == 0,
        ;
    } else {
        let rest = xs.drop_last();
        lemma_sized_rest(xs, w);
        crate::error::lemma_finite_plus(crate::stats::total(rest), xs.last());
        lemma_total_size(rest, w);
        crate::shifting::lemma_one_more_draw(crate::stats::total(rest), xs.last(), k - 1, w);
    }
}

/// The sums of numbers that moved together.
proof fn lemma_totals_apart(ys: Seq<Double>, zs: Seq<Double>, d: int, w: int)
    requires
        crate::stats::total(ys).is_finite(),
        crate::stats::total(zs).is_finite(),
        sized(ys, w),
        sized(zs, 3 * w),
        moved(ys, zs, d, w),
    ensures
        ({
            let n = ys.len() as int;
            let s = crate::stats::total(ys).value();
            let t = crate::stats::total(zs).value();
            &&& crate::error::gap(s, 0) <= 2 * n * w
            &&& crate::error::gap(t, 0) <= 2 * n * (3 * w)
            &&& crate::error::gap(t, s + n * d) * PRECISION <= (4 * n * n + 4 * n) * w
        }),
    decreases ys.len(),
{
    crate::order::lemma_of_int(0);
    crate::order::lemma_negated(Double::of_int(0));
    assert(crate::rounding::units(0) == 0);
    let k = ys.len() as int;
    if k == 0 {
        assert(2 * k * w == 0 && 2 * k * (3 * w) == 0 && k * d == 0 && (4 * k * k + 4 * k) * w
            == 0) by (nonlinear_arith)
            requires
                k == 0,
        ;
    } else {
        let y = ys.drop_last();
        let z = zs.drop_last();
        let s = crate::stats::total(y);
        let t = crate::stats::total(z);
        lemma_sized_rest(ys, w);
        lemma_sized_rest(zs, 3 * w);
        lemma_moved_rest(ys, zs, d, w);
        crate::error::lemma_finite_plus(s, ys.last());
        crate::error::lemma_finite_plus(t, zs.last());
        lemma_totals_apart(y, z, d, w);
        crate::shifting::lemma_sums_apart(s, t, ys.last(), zs.last(), d, k - 1, w);
    }
}

/// How large a mean is.
proof fn lemma_mean_size(xs: Seq<Double>, w: int)
    requires
        0 < xs.len() <= u64::MAX,
        crate::stats::mean_of(xs).is_finite(),
        sized(xs, w),
        w >= PRECISION,
    ensures
        crate::stats::total(xs).is_finite(),
        crate::error::gap(crate::stats::mean_of(xs).value(), 0) <= 3 * w,
{
    let n = xs.len() as int;
    let p = PRECISION as int;
    let sum = crate::stats::total(xs);
    crate::order::lemma_of_int(n);
    crate::error::lemma_finite_over(sum, Double::of_int(n));
    lemma_total_size(xs, w);
    crate::shifting::lemma_mean_error(sum, n);
    let m = crate::stats::mean_of(xs).value();
    let g = crate::error::gap(m * n, sum.value());
    let a = crate::error::gap(m, 0);
    let nw = n * w;
    crate::error::lemma_gap_scales(m, 0, n);
    assert(0 * n == 0);
    assert(2 * n * w == 2 * nw) by (nonlinear_arith)
        requires
            nw == n * w,
    ;
    assert(a * n <= 2 * nw + g);
    assert(g * p <= 8 * nw + 2 * n * p);
    assert(a <= 3 * w) by (nonlinear_arith)
        requires
            a * n <= 2 * nw + g,
            g * p <= 8 * nw + 2 * n * p,
            nw == n * w,
            n >= 1,
            w >= p,
            p == 0x20_0000_0000_0000,
    ;
}

/// The means of numbers that moved together.
proof fn lemma_means_apart(ys: Seq<Double>, zs: Seq<Double>, d: int, w: int)
    requires
        0 < ys.len() <= u64::MAX,
        crate::stats::mean_of(ys).is_finite(),
        crate::stats::mean_of(zs).is_finite(),
        sized(ys, w),
        sized(zs, 3 * w),
        moved(ys, zs, d, w),
        w >= PRECISION,
    ensures
        crate::error::gap(
            crate::stats::mean_of(zs).value(),
            crate::stats::mean_of(ys).value() + d,
        ) * PRECISION <= 44 * ys.len() * w,
{
    let n = ys.len() as int;
    let p = PRECISION as int;
    let s = crate::stats::total(ys);
    let t = crate::stats::total(zs);
    lemma_mean_size(ys, w);
    lemma_mean_size(zs, 3 * w);
    lemma_totals_apart(ys, zs, d, w);
    crate::shifting::lemma_mean_error(s, n);
    crate::shifting::lemma_mean_error(t, n);
    let a = crate::stats::mean_of(ys).value();
    let b = crate::stats::mean_of(zs).value();
    let g = crate::error::gap(b, a + d);
    let ea = crate::error::gap(a * n, s.value());
    let eb = crate::error::gap(b * n, t.value());
    let e = crate::error::gap(t.value(), s.value() + n * d);
    crate::error::lemma_gap_scales(b, a + d, n);
    assert((a + d) * n == a * n + n * d) by (nonlinear_arith);
    assert(g * n <= ea + eb + e);
    let nw = n * w;
    let nnw = n * nw;
    assert(2 * n * w == 2 * nw && 2 * n * (3 * w) == 6 * nw && (4 * n * n + 4 * n) * w == 4 * nnw
        + 4 * nw && 44 * n * w == 44 * nw) by (nonlinear_arith)
        requires
            nw == n * w,
            nnw == n * nw,
    ;
    assert(n * p <= nw && nw <= nnw) by (nonlinear_arith)
        requires
            nw == n * w,
            nnw == n * nw,
            n >= 1,
            w >= p,
            p > 0,
    ;
    assert(2 * n * p == 2 * (n * p)) by (nonlinear_arith);
    assert((g * n) * p <= ea * p + eb * p + e * p) by (nonlinear_arith)
        requires
            g * n <= ea + eb + e,
            p > 0,
    ;
    assert(g * p <= 44 * nw) by (nonlinear_arith)
        requires
            (g * n) * p <= 44 * nnw,
            nnw == n * nw,
            n >= 1,
    ;
}

/// One number less another, where neither is larger than said.
proof fn lemma_difference(x: Double, m: Double, a: int, b: int)
    requires
        x.minus(m).is_finite(),
        crate::error::gap(x.value(), 0) <= a,
        crate::error::gap(m.value(), 0) <= b,
    ensures
        x.is_finite(),
        m.is_finite(),
        crate::error::gap(x.minus(m).value(), x.value() - m.value()) * PRECISION <= a + b,
        crate::error::gap(x.minus(m).value(), 0) <= 2 * (a + b),
{
    let u = x.value() - m.value();
    crate::error::lemma_finite_minus(x, m);
    crate::order::lemma_minus(x, m);
    crate::error::lemma_rounded_error(u, x.is_neg() && !m.is_neg());
    crate::order::lemma_of_int(0);
    crate::error::lemma_rounded_is_nearest(u, x.is_neg() && !m.is_neg(), Double::of_int(0));
    assert(crate::rounding::units(0) == 0);
}

/// The products of one number with two that lie close together.
proof fn lemma_products_apart(
    a: Double,
    b: Double,
    c: Double,
    x: int,
    w: int,
    g: int,
)
    requires
        a.times(b).is_finite(),
        a.times(c).is_finite(),
        crate::error::gap(a.value(), 0) <= 8 * x,
        crate::error::gap(b.value(), 0) <= 8 * w,
        crate::error::gap(c.value(), 0) <= 24 * w,
        crate::error::gap(b.value(), c.value()) * PRECISION <= g,
        x >= pow2(1074),
        w >= PRECISION,
    ensures
        ({
            let u = pow2(1074) as int;
            let p = a.times(b).value();
            let q = a.times(c).value();
            &&& crate::error::gap(p, 0) * u <= 193 * (x * w)
            &&& crate::error::gap(q, 0) * u <= 193 * (x * w)
            &&& (crate::error::gap(p, q) * u) * PRECISION <= 8 * (x * g) + 258 * (x * w)
        }),
{
    let u = pow2(1074) as int;
    let p = PRECISION as int;
    let xw = x * w;
    let av = a.value();
    let bv = b.value();
    let cv = c.value();
    let s = a.times(b).value();
    let t = a.times(c).value();
    lemma_pow2_pos(1074);
    crate::error::lemma_finite_times(a, b);
    crate::error::lemma_finite_times(a, c);
    crate::error::lemma_times_error(a, b);
    crate::error::lemma_times_error(a, c);
    crate::shifting::lemma_gap_times(av, bv, 0);
    crate::shifting::lemma_gap_times(av, cv, 0);
    crate::shifting::lemma_gap_times(av, bv, cv);
    assert(av * 0 == 0);
    let aa = crate::error::gap(av, 0);
    let ba = crate::error::gap(bv, 0);
    let ca = crate::error::gap(cv, 0);
    let d = crate::error::gap(bv, cv);
    assert(aa * ba <= 64 * xw && aa * ca <= 192 * xw) by (nonlinear_arith)
        requires
            0 <= aa <= 8 * x,
            0 <= ba <= 8 * w,
            0 <= ca <= 24 * w,
            xw == x * w,
            x >= 0,
            w >= 0,
    ;
    assert(u * crate::rounding::BINADE <= xw) by (nonlinear_arith)
        requires
            u <= x,
            crate::rounding::BINADE <= w,
            xw == x * w,
            u > 0,
    ;
    let e = crate::error::gap(s * u, av * bv);
    let f = crate::error::gap(t * u, av * cv);
    assert(e * p <= 65 * xw);
    assert(f * p <= 193 * xw);
    assert(e <= xw && f <= xw) by (nonlinear_arith)
        requires
            e * p <= 65 * xw,
            f * p <= 193 * xw,
            p >= 193,
            e >= 0,
            f >= 0,
    ;
    crate::error::lemma_gap_scales(s, 0, u);
    crate::error::lemma_gap_scales(t, 0, u);
    crate::error::lemma_gap_scales(s, t, u);
    assert(0 * u == 0);
    let h = crate::error::gap(s, t) * u;
    assert(h <= e + f + aa * d);
    assert(h * p <= e * p + f * p + (aa * d) * p) by (nonlinear_arith)
        requires
            h <= e + f + aa * d,
            p > 0,
    ;
    assert((aa * d) * p <= 8 * (x * g)) by (nonlinear_arith)
        requires
            0 <= aa <= 8 * x,
            0 <= d,
            d * p <= g,
            p > 0,
    ;
}

/// What stays the same while a sum of products is taken.
ghost struct Frame {
    pub mx: Double,
    pub my: Double,
    pub mz: Double,
    pub x: int,
    pub w: int,
    pub g: int,
    pub m: int,
}

impl Frame {
    /// The bounds that the products are taken under: `x` on the one coordinate,
    /// `w` on the other, `g` on how far a deviation moves, and `m` on a product.
    spec fn holds(self, d: int) -> bool {
        let p = PRECISION as int;
        let u = pow2(1074) as int;
        &&& self.x >= u
        &&& self.w >= p
        &&& crate::error::gap(self.mx.value(), 0) <= 3 * self.x
        &&& crate::error::gap(self.my.value(), 0) <= 3 * self.w
        &&& crate::error::gap(self.mz.value(), 0) <= 9 * self.w
        &&& crate::error::gap(self.mz.value(), self.my.value() + d) * p + 20 * self.w <= self.g
        &&& self.m == (193 * (self.x * self.w)) / u
    }

    /// One more term: how far two sums of products lie apart.
    spec fn apart(self, n: int) -> int {
        n * (8 * (self.x * self.g) + 258 * (self.x * self.w)) + 2 * (n * n) * (193 * (self.x
            * self.w))
    }
}

/// The terms of the two sums.
proof fn lemma_terms_apart(f: Frame, xv: Double, yv: Double, zv: Double, d: int)
    requires
        f.holds(d),
        crate::error::gap(xv.value(), 0) <= f.x,
        crate::error::gap(yv.value(), 0) <= f.w,
        crate::error::gap(zv.value(), 0) <= 3 * f.w,
        crate::error::gap(zv.value(), yv.value() + d) * PRECISION <= 4 * f.w,
        xv.minus(f.mx).times(yv.minus(f.my)).is_finite(),
        xv.minus(f.mx).times(zv.minus(f.mz)).is_finite(),
    ensures
        ({
            let p = xv.minus(f.mx).times(yv.minus(f.my)).value();
            let q = xv.minus(f.mx).times(zv.minus(f.mz)).value();
            let u = pow2(1074) as int;
            &&& crate::error::gap(p, 0) <= f.m
            &&& crate::error::gap(q, 0) <= f.m
            &&& (crate::error::gap(p, q) * u) * PRECISION <= 8 * (f.x * f.g) + 258 * (f.x * f.w)
        }),
{
    let u = pow2(1074) as int;
    let p = PRECISION as int;
    let a = xv.minus(f.mx);
    let b = yv.minus(f.my);
    let c = zv.minus(f.mz);
    lemma_pow2_pos(1074);
    crate::error::lemma_finite_times(a, b);
    crate::error::lemma_finite_times(a, c);
    lemma_difference(xv, f.mx, f.x, 3 * f.x);
    lemma_difference(yv, f.my, f.w, 3 * f.w);
    lemma_difference(zv, f.mz, 3 * f.w, 9 * f.w);
    let g = crate::error::gap(b.value(), c.value());
    let eb = crate::error::gap(b.value(), yv.value() - f.my.value());
    let ec = crate::error::gap(c.value(), zv.value() - f.mz.value());
    let ez = crate::error::gap(zv.value(), yv.value() + d);
    let em = crate::error::gap(f.mz.value(), f.my.value() + d);
    assert(g <= eb + ec + ez + em);
    assert(g * p <= eb * p + ec * p + ez * p + em * p) by (nonlinear_arith)
        requires
            g <= eb + ec + ez + em,
            p > 0,
    ;
    lemma_products_apart(a, b, c, f.x, f.w, f.g);
    let xw = f.x * f.w;
    lemma_at_most_quotient(crate::error::gap(a.times(b).value(), 0), u, 193 * xw);
    lemma_at_most_quotient(crate::error::gap(a.times(c).value(), 0), u, 193 * xw);
}

proof fn lemma_at_most_quotient(a: int, u: int, b: int)
    requires
        u > 0,
        a * u <= b,
    ensures
        a <= b / u,
{
    vstd::arithmetic::div_mod::lemma_fundamental_div_mod(b, u);
    let q = b / u;
    let r = b % u;
    assert(a <= q) by (nonlinear_arith)
        requires
            a * u <= u * q + r,
            0 <= r < u,
    ;
}

/// Two sums of products lie as close together as their terms and the roundings
/// allow.
proof fn lemma_deviations_apart(
    f: Frame,
    xs: Seq<Double>,
    ys: Seq<Double>,
    zs: Seq<Double>,
    d: int,
)
    requires
        f.holds(d),
        xs.len() == ys.len(),
        sized(xs, f.x),
        sized(ys, f.w),
        sized(zs, 3 * f.w),
        moved(ys, zs, d, f.w),
        crate::stats::deviation(xs, ys, f.mx, f.my).is_finite(),
        crate::stats::deviation(xs, zs, f.mx, f.mz).is_finite(),
    ensures
        ({
            let n = xs.len() as int;
            let s = crate::stats::deviation(xs, ys, f.mx, f.my).value();
            let t = crate::stats::deviation(xs, zs, f.mx, f.mz).value();
            let u = pow2(1074) as int;
            &&& crate::error::gap(s, 0) <= 2 * n * f.m
            &&& crate::error::gap(t, 0) <= 2 * n * f.m
            &&& (crate::error::gap(s, t) * u) * PRECISION <= f.apart(n)
        }),
    decreases xs.len(),
{
    let n = xs.len() as int;
    let u = pow2(1074) as int;
    lemma_pow2_pos(1074);
    crate::order::lemma_of_int(0);
    assert(crate::rounding::units(0) == 0);
    if n == 0 {
        lemma_no_term(f, n);
        assert(0 * u == 0);
    } else {
        let x = xs.drop_last();
        let y = ys.drop_last();
        let z = zs.drop_last();
        let s = crate::stats::deviation(x, y, f.mx, f.my);
        let t = crate::stats::deviation(x, z, f.mx, f.mz);
        let p = xs.last().minus(f.mx).times(ys.last().minus(f.my));
        let q = xs.last().minus(f.mx).times(zs.last().minus(f.mz));
        lemma_sized_rest(xs, f.x);
        lemma_sized_rest(ys, f.w);
        lemma_sized_rest(zs, 3 * f.w);
        lemma_moved_rest(ys, zs, d, f.w);
        crate::error::lemma_finite_plus(s, p);
        crate::error::lemma_finite_plus(t, q);
        lemma_deviations_apart(f, x, y, z, d);
        lemma_terms_apart(f, xs.last(), ys.last(), zs.last(), d);
        crate::shifting::lemma_one_more_draw(s, p, n - 1, f.m);
        crate::shifting::lemma_one_more_draw(t, q, n - 1, f.m);
        vstd::arithmetic::div_mod::lemma_fundamental_div_mod(193 * (f.x * f.w), u);
        assert(f.m * u == u * f.m) by (nonlinear_arith);
        lemma_one_more_term(
            f,
            n - 1,
            u,
            crate::error::gap(s.value(), t.value()),
            crate::error::gap(p.value(), q.value()),
            crate::error::gap(s.plus(p).value(), s.value() + p.value()),
            crate::error::gap(t.plus(q).value(), t.value() + q.value()),
            crate::error::gap(s.plus(p).value(), t.plus(q).value()),
        );
    }
}

proof fn lemma_no_term(f: Frame, n: int)
    requires
        n == 0,
    ensures
        2 * n * f.m == 0,
        f.apart(n) == 0,
{
    let a = 8 * (f.x * f.g) + 258 * (f.x * f.w);
    let b = 193 * (f.x * f.w);
    let m = f.m;
    assert(2 * n * m == 0 && n * a + 2 * (n * n) * b == 0) by (nonlinear_arith)
        requires
            n == 0,
    ;
}

proof fn lemma_one_more_term(
    f: Frame,
    j: int,
    u: int,
    e: int,
    term: int,
    es: int,
    et: int,
    r: int,
)
    requires
        j >= 0,
        u > 0,
        f.m * u <= 193 * (f.x * f.w),
        r <= e + term + es + et,
        (e * u) * PRECISION <= f.apart(j),
        (term * u) * PRECISION <= 8 * (f.x * f.g) + 258 * (f.x * f.w),
        es * PRECISION <= (2 * j + 1) * f.m,
        et * PRECISION <= (2 * j + 1) * f.m,
    ensures
        (r * u) * PRECISION <= f.apart(j + 1),
{
    let p = PRECISION as int;
    let a = 8 * (f.x * f.g) + 258 * (f.x * f.w);
    let b = 193 * (f.x * f.w);
    let m = f.m;
    let k = (2 * j + 1) * m;
    assert((r * u) * p <= (e * u) * p + (term * u) * p + (es * p) * u + (et * p) * u)
        by (nonlinear_arith)
        requires
            r <= e + term + es + et,
            u > 0,
            p > 0,
    ;
    assert((es * p) * u <= k * u && (et * p) * u <= k * u) by (nonlinear_arith)
        requires
            es * p <= k,
            et * p <= k,
            u > 0,
    ;
    assert(k * u <= (2 * j + 1) * b) by (nonlinear_arith)
        requires
            k == (2 * j + 1) * m,
            m * u <= b,
            j >= 0,
    ;
    assert((j * a + 2 * (j * j) * b) + a + 2 * ((2 * j + 1) * b) == (j + 1) * a + 2 * ((j + 1) * (j
        + 1)) * b) by (nonlinear_arith);
}

/// A sum of squares is not negative.
proof fn lemma_squares(xs: Seq<Double>, mx: Double)
    requires
        crate::stats::deviation(xs, xs, mx, mx).is_finite(),
    ensures
        crate::stats::deviation(xs, xs, mx, mx).value() >= 0,
    decreases xs.len(),
{
    crate::order::lemma_of_int(0);
    if xs.len() > 0 {
        let rest = xs.drop_last();
        let a = xs.last().minus(mx);
        let s = crate::stats::deviation(rest, rest, mx, mx);
        let p = a.times(a);
        crate::error::lemma_finite_plus(s, p);
        crate::error::lemma_finite_times(a, a);
        lemma_squares(rest, mx);
        lemma_pow2_pos(1074);
        assert(!p.is_neg()) by {
            reveal(Double::times);
            crate::order::lemma_signed(
                false,
                crate::rounding::nearest(a.size() * a.size(), pow2(1074)),
            );
        }
        crate::order::lemma_plus(s, p);
        crate::order::lemma_rounded(s.value() + p.value(), s.is_neg() && p.is_neg());
    }
}

/// What the fits are taken of, with bounds on it: distances of at most `x` units,
/// logarithms of at most `w`, and both bounds at least a whole.
pub open spec fn comparable(
    xs: Seq<Double>,
    ys: Seq<Double>,
    zs: Seq<Double>,
    d: int,
    x: int,
    w: int,
) -> bool {
    let mx = crate::stats::mean_of(xs);
    &&& 2 <= xs.len() <= u64::MAX
    &&& xs.len() == ys.len()
    &&& moved(ys, zs, d, w)
    &&& sized(xs, x)
    &&& sized(ys, w)
    &&& crate::error::gap(d, 0) <= w
    &&& x >= pow2(1074)
    &&& w >= pow2(1074)
    &&& crate::stats::deviation(xs, xs, mx, mx).is_finite()
    &&& crate::intensity::fitted(xs, ys).log_a.is_finite()
    &&& crate::intensity::fitted(xs, zs).log_a.is_finite()
}

proof fn lemma_moved_size(ys: Seq<Double>, zs: Seq<Double>, d: int, w: int)
    requires
        moved(ys, zs, d, w),
        sized(ys, w),
        crate::error::gap(d, 0) <= w,
        w >= 0,
    ensures
        sized(zs, 3 * w),
{
    let p = PRECISION as int;
    assert forall|i: int| 0 <= i < zs.len() implies crate::error::gap(
        (#[trigger] zs[i]).value(),
        0,
    ) <= 3 * w by {
        let e = crate::error::gap(zs[i].value(), ys[i].value() + d);
        assert(crate::error::gap(ys[i].value(), 0) <= w);
        assert(e <= w) by (nonlinear_arith)
            requires
                e * p <= 4 * w,
                p >= 4,
                e >= 0,
                w >= 0,
        ;
    }
}

/// What is finite in a fit.
proof fn lemma_fit_is_finite(xs: Seq<Double>, ys: Seq<Double>)
    requires
        xs.len() >= 2,
        ({
            let mx = crate::stats::mean_of(xs);
            crate::stats::deviation(xs, xs, mx, mx).is_finite()
        }),
        crate::intensity::fitted(xs, ys).log_a.is_finite(),
    ensures
        ({
            let mx = crate::stats::mean_of(xs);
            let my = crate::stats::mean_of(ys);
            let sxx = crate::stats::deviation(xs, xs, mx, mx);
            let sxy = crate::stats::deviation(xs, ys, mx, my);
            let slope = crate::intensity::slope_of(xs, ys);
            &&& mx.is_finite()
            &&& my.is_finite()
            &&& sxy.is_finite()
            &&& sxx.value() > 0
            &&& slope == sxy.over(sxx)
            &&& slope.is_finite()
            &&& slope.times(mx).is_finite()
        }),
{
    let mx = crate::stats::mean_of(xs);
    let my = crate::stats::mean_of(ys);
    let sxx = crate::stats::deviation(xs, xs, mx, mx);
    let slope = crate::intensity::slope_of(xs, ys);
    crate::error::lemma_finite_minus(my, slope.times(mx));
    crate::error::lemma_finite_times(slope, mx);
    crate::order::lemma_of_int(0);
    lemma_squares(xs, mx);
    crate::error::lemma_finite_over(crate::stats::deviation(xs, ys, mx, my), sxx);
    assert(crate::rounding::units(0) == 0);
    crate::rounding::lemma_units_increasing(0, sxx.pattern());
}

proof fn lemma_slopes_apart(
    xs: Seq<Double>,
    ys: Seq<Double>,
    zs: Seq<Double>,
    d: int,
    x: int,
    w: int,
)
    requires
        comparable(xs, ys, zs, d, x, w),
    ensures
        ({
            let n = xs.len() as int;
            let mx = crate::stats::mean_of(xs);
            let sxx = crate::stats::deviation(xs, xs, mx, mx).value();
            let s = crate::intensity::slope_of(xs, ys).value();
            let t = crate::intensity::slope_of(xs, zs).value();
            (crate::error::gap(s, t) * sxx) * PRECISION <= 1_928 * (n * n * (x * w)) + sxx
                * PRECISION
        }),
{
    let n = xs.len() as int;
    let p = PRECISION as int;
    let u = pow2(1074) as int;
    let mx = crate::stats::mean_of(xs);
    let my = crate::stats::mean_of(ys);
    let mz = crate::stats::mean_of(zs);
    let sxx = crate::stats::deviation(xs, xs, mx, mx);
    let sxy = crate::stats::deviation(xs, ys, mx, my);
    let sxz = crate::stats::deviation(xs, zs, mx, mz);
    lemma_pow2_pos(1074);
    lemma2_to64();
    lemma2_to64_rest();
    lemma_pow2_strictly_increases(54, 1074);
    assert(u >= p);
    lemma_moved_size(ys, zs, d, w);
    lemma_fit_is_finite(xs, ys);
    lemma_fit_is_finite(xs, zs);
    lemma_mean_size(xs, x);
    lemma_mean_size(ys, w);
    lemma_mean_size(zs, 3 * w);
    lemma_means_apart(ys, zs, d, w);
    let nw = n * w;
    let xw = x * w;
    assert(44 * n * w == 44 * nw && nw >= 2 * w) by (nonlinear_arith)
        requires
            nw == n * w,
            n >= 2,
            w >= 0,
    ;
    let f = Frame { mx, my, mz, x, w, g: 54 * nw, m: (193 * xw) / u };
    assert(f.holds(d));
    lemma_deviations_apart(f, xs, ys, zs, d);
    crate::error::lemma_over_error(sxy, sxx);
    crate::error::lemma_over_error(sxz, sxx);
    let a = crate::intensity::slope_of(xs, ys).value();
    let b = crate::intensity::slope_of(xs, zs).value();
    let v = sxx.value();
    let s = sxy.value();
    let t = sxz.value();
    crate::error::lemma_gap_scales(a, b, v);
    crate::error::lemma_gap_scales(s, t, u);
    vstd::arithmetic::div_mod::lemma_fundamental_div_mod(193 * xw, u);
    let ea = crate::error::gap(a * v, s * u);
    let eb = crate::error::gap(b * v, t * u);
    let st = crate::error::gap(s, t) * u;
    let g = crate::error::gap(a, b) * v;
    assert(g <= ea + eb + st);
    lemma_slope_bound(
        f,
        n,
        u,
        v,
        p,
        nw,
        xw,
        crate::error::gap(s, 0),
        crate::error::gap(t, 0),
        ea,
        eb,
        st,
        g,
    );
}

proof fn lemma_slope_bound(
    f: Frame,
    n: int,
    u: int,
    v: int,
    p: int,
    nw: int,
    xw: int,
    sa: int,
    ta: int,
    ea: int,
    eb: int,
    st: int,
    g: int,
)
    requires
        n >= 2,
        u > 0,
        v > 0,
        p == PRECISION,
        nw == n * f.w,
        xw == f.x * f.w,
        xw >= 0,
        f.g == 54 * nw,
        f.m * u <= 193 * xw,
        0 <= sa <= 2 * n * f.m,
        0 <= ta <= 2 * n * f.m,
        ea * p <= sa * u + v * crate::rounding::BINADE,
        eb * p <= ta * u + v * crate::rounding::BINADE,
        st * p <= f.apart(n),
        g <= ea + eb + st,
    ensures
        g * p <= 1_928 * (n * n * xw) + v * p,
{
    let m = f.m;
    let x = f.x;
    let w = f.w;
    let nnxw = n * n * xw;
    let nxw = n * xw;
    assert(sa * u <= 386 * nxw && ta * u <= 386 * nxw) by (nonlinear_arith)
        requires
            sa <= 2 * n * m,
            ta <= 2 * n * m,
            m * u <= 193 * xw,
            nxw == n * xw,
            n >= 2,
            u > 0,
    ;
    assert(2 * nxw <= nnxw) by (nonlinear_arith)
        requires
            nxw == n * xw,
            nnxw == n * n * xw,
            n >= 2,
            xw >= 0,
    ;
    assert(x * (54 * nw) == 54 * nxw) by (nonlinear_arith)
        requires
            nw == n * w,
            xw == x * w,
            nxw == n * xw,
    ;
    assert(n * (8 * (54 * nxw) + 258 * xw) + 2 * (n * n) * (193 * xw) == 432 * nnxw + 258 * nxw
        + 386 * nnxw) by (nonlinear_arith)
        requires
            nxw == n * xw,
            nnxw == n * n * xw,
    ;
    assert(g * p <= ea * p + eb * p + st * p) by (nonlinear_arith)
        requires
            g <= ea + eb + st,
            p > 0,
    ;
    assert(2 * (v * crate::rounding::BINADE) == v * p) by (nonlinear_arith)
        requires
            p == 2 * crate::rounding::BINADE,
    ;
}

/// Where every logarithm of a rate moves by the same `d` units, the decay stays
/// and the logarithm of the intensity at the mid moves by `d`, up to rounding.
///
/// With `n` distances of at most `x` units, logarithms of at most `w` and a sum of
/// squares of `sxx`, the decay moves by at most one part in [`PRECISION`] of 1928
/// times `n` squared times `x` times `w` over `sxx`, and one unit. With decays of
/// at most `s` and a move `g` of the decay, the logarithm is met up to one part in
/// [`PRECISION`] of 64 `n` times `w` and 14 times `x` times `s`, and three times
/// `x` times `g`.
pub proof fn law_log_rates_that_move_together_leave_the_decay(
    xs: Seq<Double>,
    ys: Seq<Double>,
    zs: Seq<Double>,
    d: int,
    x: int,
    w: int,
    s: int,
)
    requires
        comparable(xs, ys, zs, d, x, w),
        crate::error::gap(crate::intensity::fitted(xs, ys).kappa.value(), 0) <= s,
        crate::error::gap(crate::intensity::fitted(xs, zs).kappa.value(), 0) <= s,
    ensures
        ({
            let n = xs.len() as int;
            let u = pow2(1074) as int;
            let p = PRECISION as int;
            let mx = crate::stats::mean_of(xs);
            let sxx = crate::stats::deviation(xs, xs, mx, mx).value();
            let one = crate::intensity::fitted(xs, ys);
            let other = crate::intensity::fitted(xs, zs);
            let g = crate::error::gap(one.kappa.value(), other.kappa.value());
            &&& sxx > 0
            &&& (g * sxx) * p <= 1_928 * (n * n * (x * w)) + sxx * p
            &&& (crate::error::gap(other.log_a.value(), one.log_a.value() + d) * u) * p <= 64 * (n
                * w * u) + 3 * (x * g * p) + 14 * (x * s)
        }),
{
    let n = xs.len() as int;
    let p = PRECISION as int;
    let u = pow2(1074) as int;
    let mx = crate::stats::mean_of(xs);
    let my = crate::stats::mean_of(ys);
    let mz = crate::stats::mean_of(zs);
    let a = crate::intensity::slope_of(xs, ys);
    let b = crate::intensity::slope_of(xs, zs);
    lemma_pow2_pos(1074);
    lemma2_to64();
    lemma2_to64_rest();
    lemma_pow2_strictly_increases(54, 1074);
    assert(u >= p);
    lemma_slopes_apart(xs, ys, zs, d, x, w);
    lemma_moved_size(ys, zs, d, w);
    lemma_fit_is_finite(xs, ys);
    lemma_fit_is_finite(xs, zs);
    lemma_mean_size(xs, x);
    lemma_mean_size(ys, w);
    lemma_mean_size(zs, 3 * w);
    lemma_means_apart(ys, zs, d, w);
    crate::order::lemma_negated(a);
    crate::order::lemma_negated(b);
    let g = crate::error::gap(a.value(), b.value());
    lemma_lever(a, mx, x, s, u);
    lemma_lever(b, mx, x, s, u);
    let ta = a.times(mx);
    let tb = b.times(mx);
    let va = ta.value();
    let vb = tb.value();
    crate::order::lemma_minus(my, ta);
    crate::order::lemma_minus(mz, tb);
    crate::error::lemma_rounded_error(my.value() - va, my.is_neg() && !ta.is_neg());
    crate::error::lemma_rounded_error(mz.value() - vb, mz.is_neg() && !tb.is_neg());
    let la = my.minus(ta).value();
    let lb = mz.minus(tb).value();
    let ra = crate::error::gap(la, my.value() - va);
    let rb = crate::error::gap(lb, mz.value() - vb);
    let em = crate::error::gap(mz.value(), my.value() + d);
    let et = crate::error::gap(va, vb);
    let r = crate::error::gap(lb, la + d);
    assert(r <= ra + rb + em + et);
    // How far the products with the mean lie apart.
    let mv = mx.value();
    let qa = crate::error::gap(va * u, a.value() * mv);
    let qb = crate::error::gap(vb * u, b.value() * mv);
    crate::error::lemma_gap_scales(va, vb, u);
    crate::shifting::lemma_gap_times(mv, a.value(), b.value());
    let ma = crate::error::gap(mv, 0);
    assert(mv * a.value() == a.value() * mv && mv * b.value() == b.value() * mv)
        by (nonlinear_arith);
    assert(et * u <= qa + qb + ma * g);
    assert(ma * g <= 3 * (x * g)) by (nonlinear_arith)
        requires
            0 <= ma <= 3 * x,
            g >= 0,
    ;
    lemma_intercept_bound(
        n,
        x,
        w,
        s,
        u,
        p,
        g,
        crate::error::gap(va, 0),
        crate::error::gap(vb, 0),
        qa,
        qb,
        et,
        ra,
        rb,
        em,
        r,
    );
}

/// A slope times the mean of the distances.
proof fn lemma_lever(a: Double, m: Double, x: int, s: int, u: int)
    requires
        u == pow2(1074),
        x >= u,
        a.times(m).is_finite(),
        crate::error::gap(a.value(), 0) <= s,
        crate::error::gap(m.value(), 0) <= 3 * x,
    ensures
        crate::error::gap(a.times(m).value() * u, a.value() * m.value()) * PRECISION <= 3 * (x * s)
            + u * crate::rounding::BINADE,
        crate::error::gap(a.times(m).value(), 0) * u <= 4 * (x * s) + u,
{
    let p = PRECISION as int;
    let av = a.value();
    let mv = m.value();
    let v = a.times(m).value();
    lemma_pow2_pos(1074);
    crate::error::lemma_finite_times(a, m);
    crate::error::lemma_times_error(a, m);
    crate::shifting::lemma_gap_times(av, mv, 0);
    assert(av * 0 == 0);
    let aa = crate::error::gap(av, 0);
    let ma = crate::error::gap(mv, 0);
    let xs = x * s;
    assert(aa * ma <= 3 * xs) by (nonlinear_arith)
        requires
            0 <= aa <= s,
            0 <= ma <= 3 * x,
            xs == x * s,
    ;
    assert(xs >= 0) by (nonlinear_arith)
        requires
            xs == x * s,
            x >= 0,
            s >= 0,
    ;
    let e = crate::error::gap(v * u, av * mv);
    assert(e <= xs + u) by (nonlinear_arith)
        requires
            e * p <= 3 * xs + u * crate::rounding::BINADE,
            p == 2 * crate::rounding::BINADE,
            p >= 3,
            xs >= 0,
            u > 0,
            e >= 0,
    ;
    crate::error::lemma_gap_scales(v, 0, u);
    assert(0 * u == 0);
}

proof fn lemma_intercept_bound(
    n: int,
    x: int,
    w: int,
    s: int,
    u: int,
    p: int,
    g: int,
    va: int,
    vb: int,
    qa: int,
    qb: int,
    et: int,
    ra: int,
    rb: int,
    em: int,
    r: int,
)
    requires
        n >= 2,
        u > 0,
        p == PRECISION,
        x >= u,
        w >= u,
        u >= p,
        s >= 0,
        va * u <= 4 * (x * s) + u,
        vb * u <= 4 * (x * s) + u,
        qa * p <= 3 * (x * s) + u * crate::rounding::BINADE,
        qb * p <= 3 * (x * s) + u * crate::rounding::BINADE,
        et * u <= qa + qb + 3 * (x * g),
        ra * p <= 3 * w + va,
        rb * p <= 9 * w + vb,
        em * p <= 44 * n * w,
        r <= ra + rb + em + et,
    ensures
        (r * u) * p <= 64 * (n * w * u) + 3 * (x * g * p) + 14 * (x * s),
{
    let xs = x * s;
    let xg = x * g;
    let wu = w * u;
    let nwu = n * w * u;
    assert((et * u) * p <= qa * p + qb * p + 3 * (xg * p)) by (nonlinear_arith)
        requires
            et * u <= qa + qb + 3 * xg,
            p > 0,
    ;
    assert(2 * (u * crate::rounding::BINADE) == u * p) by (nonlinear_arith)
        requires
            p == 2 * crate::rounding::BINADE,
    ;
    assert((ra * p) * u <= 3 * wu + va * u && (rb * p) * u <= 9 * wu + vb * u)
        by (nonlinear_arith)
        requires
            ra * p <= 3 * w + va,
            rb * p <= 9 * w + vb,
            wu == w * u,
            u > 0,
    ;
    assert((em * p) * u <= 44 * nwu) by (nonlinear_arith)
        requires
            em * p <= 44 * n * w,
            nwu == n * w * u,
            u > 0,
    ;
    assert(u * p <= wu && 2 * u <= wu) by (nonlinear_arith)
        requires
            wu == w * u,
            w >= p,
            p >= 2,
            u > 0,
    ;
    assert(2 * wu <= nwu) by (nonlinear_arith)
        requires
            nwu == n * w * u,
            wu == w * u,
            n >= 2,
            w >= 0,
            u > 0,
    ;
    assert((r * u) * p <= (ra * p) * u + (rb * p) * u + (em * p) * u + (et * u) * p)
        by (nonlinear_arith)
        requires
            r <= ra + rb + em + et,
            u > 0,
            p > 0,
    ;
    assert(x * g * p == xg * p) by (nonlinear_arith)
        requires
            xg == x * g,
    ;
}

/// The logarithms of the rates, each with `d` added to it.
pub open spec fn raised(ys: Seq<Double>, d: Double) -> Seq<Double> {
    ys.map_values(|y: Double| y.plus(d))
}

/// Adding a number to every logarithm of a rate adds it to the logarithm of the
/// intensity at the mid and leaves the decay, up to the rounding that
/// [`law_log_rates_that_move_together_leave_the_decay`] names.
pub proof fn law_a_denser_flow_raises_the_intensity_and_leaves_the_decay(
    xs: Seq<Double>,
    ys: Seq<Double>,
    d: Double,
    x: int,
    w: int,
    s: int,
)
    requires
        2 <= xs.len() <= u64::MAX,
        xs.len() == ys.len(),
        sized(xs, x),
        sized(ys, w),
        d.is_finite(),
        crate::error::gap(d.value(), 0) <= w,
        x >= pow2(1074),
        w >= pow2(1074),
        ({
            let mx = crate::stats::mean_of(xs);
            crate::stats::deviation(xs, xs, mx, mx).is_finite()
        }),
        crate::intensity::fitted(xs, ys).log_a.is_finite(),
        crate::intensity::fitted(xs, raised(ys, d)).log_a.is_finite(),
        crate::error::gap(crate::intensity::fitted(xs, ys).kappa.value(), 0) <= s,
        crate::error::gap(crate::intensity::fitted(xs, raised(ys, d)).kappa.value(), 0) <= s,
    ensures
        ({
            let n = xs.len() as int;
            let u = pow2(1074) as int;
            let p = PRECISION as int;
            let mx = crate::stats::mean_of(xs);
            let sxx = crate::stats::deviation(xs, xs, mx, mx).value();
            let slow = crate::intensity::fitted(xs, ys);
            let fast = crate::intensity::fitted(xs, raised(ys, d));
            let g = crate::error::gap(slow.kappa.value(), fast.kappa.value());
            &&& sxx > 0
            &&& (g * sxx) * p <= 1_928 * (n * n * (x * w)) + sxx * p
            &&& (crate::error::gap(fast.log_a.value(), slow.log_a.value() + d.value()) * u) * p
                <= 64 * (n * w * u) + 3 * (x * g * p) + 14 * (x * s)
        }),
{
    let zs = raised(ys, d);
    lemma_pow2_pos(1074);
    lemma_fit_is_finite(xs, zs);
    crate::order::lemma_of_int(xs.len() as int);
    crate::error::lemma_finite_over(crate::stats::total(zs), Double::of_int(zs.len() as int));
    lemma_total_finite(zs);
    assert forall|i: int| 0 <= i < ys.len() implies crate::error::gap(
        (#[trigger] zs[i]).value(),
        ys[i].value() + d.value(),
    ) * PRECISION <= 4 * w by {
        let y = ys[i];
        assert(crate::error::gap(y.value(), 0) <= w);
        assert(zs[i] == y.plus(d));
        crate::error::lemma_finite_plus(y, d);
        crate::order::lemma_plus(y, d);
        crate::error::lemma_rounded_error(y.value() + d.value(), y.is_neg() && d.is_neg());
    }
    law_log_rates_that_move_together_leave_the_decay(xs, ys, zs, d.value(), x, w, s);
}

/// A rate times the time is the number of trades, up to three parts in
/// [`PRECISION`], or half a unit of the rate. So over another time every rate is
/// scaled by one factor, while the edges, which no time enters, stay.
pub proof fn law_a_rate_counts_the_trades_over_the_time(
    distances: Seq<Double>,
    elapsed_secs: Double,
    edge: Double,
)
    requires
        distances.len() <= u64::MAX,
        crate::ledger::is_price(elapsed_secs),
        crate::intensity::rate_at(distances, elapsed_secs, edge).is_finite(),
    ensures
        ({
            let u = pow2(1074) as int;
            let count = crate::intensity::reach(distances, edge) as int;
            let rate = crate::intensity::rate_at(distances, elapsed_secs, edge).value();
            crate::error::gap(rate * elapsed_secs.value(), count * u * u) * PRECISION <= 3 * (
            count * u * u) + elapsed_secs.value() * crate::rounding::BINADE
        }),
{
    let u = pow2(1074) as int;
    let count = crate::intensity::reach(distances, edge) as int;
    let c = Double::of_int(count);
    crate::intensity::lemma_reach_len(distances, edge);
    lemma_pow2_pos(1074);
    crate::order::lemma_of_int(count);
    crate::error::lemma_of_int_error(count);
    assert(crate::rounding::units(0) == 0);
    crate::rounding::lemma_units_increasing(0, elapsed_secs.pattern());
    crate::error::lemma_over_error(c, elapsed_secs);
    let p = PRECISION as int;
    let v = c.value();
    let k = count * u;
    let e = elapsed_secs.value();
    let x = crate::intensity::rate_at(distances, elapsed_secs, edge).value() * e;
    assert(k >= 0) by (nonlinear_arith)
        requires
            k == count * u,
            count >= 0,
            u > 0,
    ;
    let d = crate::error::gap(v, k);
    assert(d <= k) by (nonlinear_arith)
        requires
            d * p <= k,
            p >= 1,
            d >= 0,
    ;
    crate::error::lemma_gap_scales(v, k, u);
    let g = crate::error::gap(x, v * u);
    let r = crate::error::gap(x, k * u);
    assert(r <= g + d * u);
    let va = crate::error::gap(v, 0);
    assert(va <= 2 * k);
    assert(r * p <= 3 * (k * u) + e * crate::rounding::BINADE) by (nonlinear_arith)
        requires
            r <= g + d * u,
            g * p <= va * u + e * crate::rounding::BINADE,
            va <= 2 * k,
            d * p <= k,
            u > 0,
            p > 0,
    ;
}

/// Over two times the rates at an edge are to each other as the times are the
/// other way round, up to rounding.
pub proof fn law_another_time_scales_every_rate(
    distances: Seq<Double>,
    one: Double,
    other: Double,
    edge: Double,
)
    requires
        distances.len() <= u64::MAX,
        crate::ledger::is_price(one),
        crate::ledger::is_price(other),
        crate::intensity::rate_at(distances, one, edge).is_finite(),
        crate::intensity::rate_at(distances, other, edge).is_finite(),
    ensures
        ({
            let u = pow2(1074) as int;
            let count = crate::intensity::reach(distances, edge) as int;
            let a = crate::intensity::rate_at(distances, one, edge).value();
            let b = crate::intensity::rate_at(distances, other, edge).value();
            crate::error::gap(a * one.value(), b * other.value()) * PRECISION <= 6 * (count * u
                * u) + (one.value() + other.value()) * crate::rounding::BINADE
        }),
{
    let u = pow2(1074) as int;
    let p = PRECISION as int;
    let count = crate::intensity::reach(distances, edge) as int;
    let k = count * u * u;
    law_a_rate_counts_the_trades_over_the_time(distances, one, edge);
    law_a_rate_counts_the_trades_over_the_time(distances, other, edge);
    let x = crate::intensity::rate_at(distances, one, edge).value() * one.value();
    let y = crate::intensity::rate_at(distances, other, edge).value() * other.value();
    let g = crate::error::gap(x, y);
    let a = crate::error::gap(x, k);
    let b = crate::error::gap(y, k);
    assert(g * p <= a * p + b * p) by (nonlinear_arith)
        requires
            g <= a + b,
            p > 0,
    ;
    assert((one.value() + other.value()) * crate::rounding::BINADE == one.value()
        * crate::rounding::BINADE + other.value() * crate::rounding::BINADE) by (nonlinear_arith);
}

} // verus!
