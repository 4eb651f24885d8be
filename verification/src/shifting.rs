//! How a bootstrap interval goes with its sample, up to rounding.
use vstd::arithmetic::power2::*;
use vstd::prelude::*;

use crate::double::Double;
use crate::error::PRECISION;
use crate::sort::Keyed;

verus! {

proof fn lemma_tally_goes_with(
    a: Seq<Double>,
    b: Seq<Double>,
    p: spec_fn(Double) -> bool,
    q: spec_fn(Double) -> bool,
)
    requires
        a.len() == b.len(),
        forall|i: int| 0 <= i < a.len() ==> p(#[trigger] a[i]) ==> q(b[i]),
    ensures
        crate::sort::tally(a, p) <= crate::sort::tally(b, q),
    decreases a.len(),
{
    if a.len() > 0 {
        let x = a.drop_last();
        let y = b.drop_last();
        assert forall|i: int| 0 <= i < x.len() implies p(#[trigger] x[i]) ==> q(y[i]) by {
            assert(x[i] == a[i] && y[i] == b[i]);
        }
        lemma_tally_goes_with(x, y, p, q);
        assert(p(a[a.len() - 1]) ==> q(b[b.len() - 1]));
    }
}

proof fn lemma_tally_from_below(items: Seq<Double>, p: spec_fn(Double) -> bool, k: int)
    requires
        0 <= k <= items.len(),
        forall|i: int| 0 <= i < k ==> p(#[trigger] items[i]),
    ensures
        crate::sort::tally(items, p) >= k,
    decreases items.len(),
{
    if items.len() > 0 {
        let rest = items.drop_last();
        let m = if k < items.len() {
            k
        } else {
            k - 1
        };
        assert forall|i: int| 0 <= i < m implies p(#[trigger] rest[i]) by {
            assert(rest[i] == items[i]);
        }
        lemma_tally_from_below(rest, p, m);
        if k == items.len() {
            assert(p(items[k - 1]));
        }
    }
}

proof fn lemma_tally_from_above(items: Seq<Double>, p: spec_fn(Double) -> bool, k: int)
    requires
        0 <= k <= items.len(),
        forall|i: int| k <= i < items.len() ==> !p(#[trigger] items[i]),
    ensures
        crate::sort::tally(items, p) <= k,
    decreases items.len(),
{
    if items.len() > 0 {
        let rest = items.drop_last();
        if k < items.len() {
            assert forall|i: int| k <= i < rest.len() implies !p(#[trigger] rest[i]) by {
                assert(rest[i] == items[i]);
            }
            lemma_tally_from_above(rest, p, k);
            assert(!p(items[items.len() - 1]));
        } else {
            lemma_tally_from_above(rest, p, k - 1);
        }
    }
}

proof fn lemma_sorted_values(items: Seq<Double>, sorted: Seq<Double>, i: int, j: int)
    requires
        crate::sort::is_stable_sort(items, sorted),
        forall|i: int| 0 <= i < items.len() ==> (#[trigger] items[i]).is_finite(),
        0 <= i <= j < sorted.len(),
    ensures
        sorted[i].is_finite(),
        sorted[j].is_finite(),
        sorted[i].value() <= sorted[j].value(),
{
    crate::sort::lemma_sorted_item_is_given(items, sorted, i);
    crate::sort::lemma_sorted_item_is_given(items, sorted, j);
    assert(sorted[i].key() <= sorted[j].key());
    crate::order::lemma_order_of_values(sorted[i], sorted[j]);
}

/// If no item grows by more than `d`, neither does what stands at a place among
/// the sorted items.
proof fn lemma_place_grows_with(
    a: Seq<Double>,
    b: Seq<Double>,
    sa: Seq<Double>,
    sb: Seq<Double>,
    d: int,
    k: int,
)
    requires
        crate::sort::is_stable_sort(a, sa),
        crate::sort::is_stable_sort(b, sb),
        a.len() == b.len(),
        forall|i: int| 0 <= i < a.len() ==> (#[trigger] a[i]).is_finite(),
        forall|i: int| 0 <= i < b.len() ==> (#[trigger] b[i]).is_finite(),
        forall|i: int| 0 <= i < a.len() ==> b[i].value() <= (#[trigger] a[i]).value() + d,
        0 <= k < a.len(),
    ensures
        sb[k].value() <= sa[k].value() + d,
{
    let t = sa[k].value();
    let p = |x: Double| x.value() <= t;
    let q = |x: Double| x.value() <= t + d;
    if sb[k].value() > t + d {
        lemma_tally_goes_with(a, b, p, q);
        assert forall|i: int| 0 <= i < k + 1 implies p(#[trigger] sa[i]) by {
            lemma_sorted_values(a, sa, i, k);
        }
        lemma_tally_from_below(sa, p, k + 1);
        assert forall|i: int| k <= i < sb.len() implies !q(#[trigger] sb[i]) by {
            lemma_sorted_values(b, sb, k, i);
        }
        lemma_tally_from_above(sb, q, k);
        crate::sort::law_a_sort_keeps_the_items(a, sa);
        crate::sort::law_a_sort_keeps_the_items(b, sb);
        crate::sort::law_a_tally_has_no_order(a, sa, p);
        crate::sort::law_a_tally_has_no_order(b, sb, q);
    }
}

/// A sample with `c` added to every element.
pub open spec fn shifted(data: Seq<Double>, c: Double) -> Seq<Double> {
    data.map_values(|x: Double| x.plus(c))
}

/// No sum of drawn elements overflows, and every element is at most `w` units.
pub open spec fn sums_well(data: Seq<Double>, w: int) -> bool {
    &&& forall|i: int|
        0 <= i < data.len() ==> (#[trigger] data[i]).is_finite() && crate::error::gap(
            data[i].value(),
            0,
        ) <= w
    &&& forall|state: u64, draws: nat|
        draws <= data.len() ==> (#[trigger] crate::bootstrap::drawn(
            data,
            state,
            draws,
        )).0.is_finite()
}

/// One more element: what its rounding adds to a sum.
pub proof fn lemma_one_more_draw(s: Double, x: Double, j: int, w: int)
    requires
        s.is_finite(),
        x.is_finite(),
        s.plus(x).is_finite(),
        0 <= j,
        crate::error::gap(s.value(), 0) <= 2 * j * w,
        crate::error::gap(x.value(), 0) <= w,
    ensures
        crate::error::gap(s.plus(x).value(), s.value() + x.value()) * PRECISION <= (2 * j + 1)
            * w,
        crate::error::gap(s.plus(x).value(), 0) <= 2 * (j + 1) * w,
{
    let u = s.value() + x.value();
    let t = (2 * j + 1) * w;
    crate::order::lemma_plus(s, x);
    crate::error::lemma_rounded_error(u, s.is_neg() && x.is_neg());
    crate::error::lemma_rounded_is_nearest(u, s.is_neg() && x.is_neg(), s);
    assert(2 * j * w + w == t) by (nonlinear_arith)
        requires
            t == (2 * j + 1) * w,
    ;
    assert(2 * (j + 1) * w == t + w) by (nonlinear_arith)
        requires
            t == (2 * j + 1) * w,
    ;
}

/// One more element of two sums that lie apart.
pub proof fn lemma_sums_apart(s: Double, t: Double, x: Double, y: Double, d: int, j: int, w: int)
    requires
        s.is_finite(),
        t.is_finite(),
        x.is_finite(),
        y.is_finite(),
        s.plus(x).is_finite(),
        t.plus(y).is_finite(),
        0 <= j,
        crate::error::gap(s.value(), 0) <= 2 * j * w,
        crate::error::gap(t.value(), 0) <= 2 * j * (3 * w),
        crate::error::gap(x.value(), 0) <= w,
        crate::error::gap(y.value(), 0) <= 3 * w,
        crate::error::gap(y.value(), x.value() + d) * PRECISION <= 4 * w,
        crate::error::gap(t.value(), s.value() + j * d) * PRECISION <= (4 * j * j + 4 * j) * w,
    ensures
        crate::error::gap(s.plus(x).value(), 0) <= 2 * (j + 1) * w,
        crate::error::gap(t.plus(y).value(), 0) <= 2 * (j + 1) * (3 * w),
        crate::error::gap(t.plus(y).value(), s.plus(x).value() + (j + 1) * d) * PRECISION <= (4 * (j
            + 1) * (j + 1) + 4 * (j + 1)) * w,
{
    let p = PRECISION as int;
    lemma_one_more_draw(s, x, j, w);
    lemma_one_more_draw(t, y, j, 3 * w);
    let ey = crate::error::gap(y.value(), x.value() + d);
    let es = crate::error::gap(s.plus(x).value(), s.value() + x.value());
    let et = crate::error::gap(t.plus(y).value(), t.value() + y.value());
    let e = crate::error::gap(t.value(), s.value() + j * d);
    let f = crate::error::gap(t.plus(y).value(), s.plus(x).value() + (j + 1) * d);
    assert((j + 1) * d == j * d + d) by (nonlinear_arith);
    assert(f <= e + ey + es + et);
    assert(f * p <= e * p + ey * p + es * p + et * p) by (nonlinear_arith)
        requires
            f <= e + ey + es + et,
            p > 0,
    ;
    assert((2 * j + 1) * (3 * w) == 3 * ((2 * j + 1) * w)) by (nonlinear_arith);
    assert((4 * j * j + 4 * j) * w + 4 * w + 4 * ((2 * j + 1) * w) == (4 * (j + 1) * (j + 1) + 4
        * (j + 1)) * w) by (nonlinear_arith);
}

/// What a sum of shifted elements is off the shifted sum.
proof fn lemma_drawn_shifted(
    data: Seq<Double>,
    c: Double,
    state: u64,
    draws: nat,
    w: int,
)
    requires
        0 < data.len() <= u64::MAX,
        draws <= data.len(),
        c.is_finite(),
        crate::error::gap(c.value(), 0) <= w,
        sums_well(data, w),
        sums_well(shifted(data, c), 3 * w),
    ensures
        ({
            let s = crate::bootstrap::drawn(data, state, draws);
            let t = crate::bootstrap::drawn(shifted(data, c), state, draws);
            &&& s.1 == t.1
            &&& crate::error::gap(s.0.value(), 0) <= 2 * draws * w
            &&& crate::error::gap(t.0.value(), 0) <= 2 * draws * (3 * w)
            &&& crate::error::gap(t.0.value(), s.0.value() + draws * c.value()) * PRECISION <= (4
                * draws * draws + 4 * draws) * w
        }),
    decreases draws,
{
    let other = shifted(data, c);
    let cv = c.value();
    crate::order::lemma_of_int(0);
    assert(crate::rounding::units(0) == 0);
    if draws == 0 {
        let k = draws as int;
        assert(2 * k * w == 0 && 2 * k * (3 * w) == 0 && k * cv == 0 && (4 * k * k + 4 * k) * w
            == 0) by (nonlinear_arith)
            requires
                k == 0,
        ;
    } else {
        let m = (draws - 1) as nat;
        let j = m as int;
        lemma_drawn_shifted(data, c, state, m, w);
        let (s, before) = crate::bootstrap::drawn(data, state, m);
        let t = crate::bootstrap::drawn(other, state, m).0;
        let at = crate::bootstrap::mixed(crate::bootstrap::next_state(before)) as int
            % data.len() as int;
        let x = data[at];
        let y = other[at];
        assert(y == x.plus(c));
        assert(x.is_finite() && y.is_finite());
        assert(crate::bootstrap::drawn(data, state, draws).0 == s.plus(x));
        assert(crate::bootstrap::drawn(other, state, draws).0 == t.plus(y));
        assert(crate::bootstrap::drawn(data, state, m).0.is_finite());
        assert(crate::bootstrap::drawn(other, state, m).0.is_finite());
        assert(crate::bootstrap::drawn(data, state, draws).0.is_finite());
        assert(crate::bootstrap::drawn(other, state, draws).0.is_finite());
        crate::order::lemma_plus(x, c);
        crate::error::lemma_rounded_error(x.value() + cv, x.is_neg() && c.is_neg());
        lemma_sums_apart(s, t, x, y, cv, j, w);
    }
}

/// The mean of some elements, times their number, is their sum up to rounding.
pub proof fn lemma_mean_error(sum: Double, n: int)
    requires
        0 < n <= 0x1_0000_0000_0000_0000,
        sum.is_finite(),
        sum.over(Double::of_int(n)).is_finite(),
    ensures
        crate::error::gap(sum.over(Double::of_int(n)).value() * n, sum.value()) * PRECISION <= 4
            * crate::error::gap(sum.value(), 0) + 2 * n * PRECISION,
{
    let count = Double::of_int(n);
    let u = pow2(1074) as int;
    let p = PRECISION as int;
    let c = count.value();
    let m = sum.over(count).value();
    let s = sum.value();
    let sa = crate::error::gap(s, 0);
    let ma = crate::error::gap(m, 0);
    lemma_pow2_pos(1074);
    crate::order::lemma_of_int(n);
    crate::error::lemma_of_int_error(n);
    assert(crate::rounding::units(0) == 0);
    crate::rounding::lemma_units_increasing(0, count.pattern());
    crate::error::lemma_over_error(sum, count);
    // The count is met up to one part, and so is the quotient.
    let x = crate::error::gap(c, n * u);
    let y = crate::error::gap(m * c, s * u);
    let g = crate::error::gap(m * n, s);
    let nu = n * u;
    assert(nu > 0) by (nonlinear_arith)
        requires
            nu == n * u,
            n > 0,
            u > 0,
    ;
    assert(c <= 2 * nu) by (nonlinear_arith)
        requires
            x * p <= nu,
            c <= nu + x,
            p >= 1,
            x >= 0,
    ;
    assert(2 * c >= nu) by (nonlinear_arith)
        requires
            x * p <= nu,
            c >= nu - x,
            p >= 2,
            x >= 0,
    ;
    assert(y * p <= sa * u + c * crate::rounding::BINADE);
    assert(y * p <= sa * u + nu * p) by (nonlinear_arith)
        requires
            y * p <= sa * u + c * crate::rounding::BINADE,
            c <= 2 * nu,
            p == 2 * crate::rounding::BINADE,
    ;
    // How large the mean can be.
    crate::error::lemma_gap_scales(m, 0, c);
    crate::error::lemma_gap_scales(s, 0, u);
    assert(0 * c == 0 && 0 * u == 0);
    assert(ma * c <= sa * u + y);
    assert(y * 2 <= sa * u + 2 * nu) by (nonlinear_arith)
        requires
            y * p <= sa * u + nu * p,
            p >= 2,
            sa >= 0,
            u > 0,
            y >= 0,
            nu > 0,
    ;
    assert(ma * nu <= 3 * (sa * u) + 2 * nu) by (nonlinear_arith)
        requires
            ma * c <= sa * u + y,
            y * 2 <= sa * u + 2 * nu,
            2 * c >= nu,
            ma >= 0,
    ;
    // The mean times the number, in units of the count.
    let z = crate::error::gap(m * c, m * nu);
    lemma_gap_times(m, c, nu);
    assert(z == ma * x);
    assert(z * p <= ma * nu) by (nonlinear_arith)
        requires
            z == ma * x,
            x * p <= nu,
            ma >= 0,
    ;
    crate::error::lemma_gap_scales(m * n, s, u);
    assert((m * n) * u == m * nu) by (nonlinear_arith)
        requires
            nu == n * u,
    ;
    assert(g * u <= y + z);
    lemma_mean_bound(g, y, z, ma, sa, n, u, p, nu);
}

pub proof fn lemma_gap_times(m: int, a: int, b: int)
    ensures
        crate::error::gap(m * a, m * b) == crate::error::gap(m, 0) * crate::error::gap(a, b),
{
    assert(m * a - m * b == m * (a - b)) by (nonlinear_arith);
    let d = crate::error::gap(a, b);
    let t = m * (a - b);
    let k = crate::error::gap(m, 0);
    assert(t == k * d || t == -(k * d)) by (nonlinear_arith)
        requires
            t == m * (a - b),
            k == m || k == -m,
            d == a - b || d == b - a,
    ;
    assert(k * d >= 0) by (nonlinear_arith)
        requires
            k >= 0,
            d >= 0,
    ;
}

proof fn lemma_mean_bound(
    g: int,
    y: int,
    z: int,
    ma: int,
    sa: int,
    n: int,
    u: int,
    p: int,
    nu: int,
)
    requires
        u > 0,
        p >= 100,
        n > 0,
        sa >= 0,
        nu == n * u,
        g * u <= y + z,
        y * p <= sa * u + nu * p,
        z * p <= ma * nu,
        ma * nu <= 3 * (sa * u) + 2 * nu,
    ensures
        g * p <= 4 * sa + 2 * n * p,
{
    assert((g * u) * p <= (y + z) * p) by (nonlinear_arith)
        requires
            g * u <= y + z,
            p > 0,
    ;
    assert((y + z) * p == y * p + z * p) by (nonlinear_arith);
    assert(2 * nu <= nu * p) by (nonlinear_arith)
        requires
            p >= 2,
            nu == n * u,
            n > 0,
            u > 0,
    ;
    assert((g * u) * p <= 4 * (sa * u) + 2 * (nu * p));
    assert(g * p <= 4 * sa + 2 * n * p) by (nonlinear_arith)
        requires
            (g * u) * p <= 4 * (sa * u) + 2 * (nu * p),
            nu == n * u,
            u > 0,
    ;
}

/// What the mean of shifted elements is off the shifted mean.
proof fn lemma_mean_shifted(data: Seq<Double>, c: Double, state: u64, w: int)
    requires
        0 < data.len() <= u64::MAX,
        c.is_finite(),
        crate::error::gap(c.value(), 0) <= w,
        sums_well(data, w),
        sums_well(shifted(data, c), 3 * w),
        crate::bootstrap::drawn(data, state, data.len()).0.over(
            Double::of_int(data.len() as int),
        ).is_finite(),
        crate::bootstrap::drawn(shifted(data, c), state, data.len()).0.over(
            Double::of_int(data.len() as int),
        ).is_finite(),
    ensures
        ({
            let n = data.len() as int;
            let a = crate::bootstrap::drawn(data, state, data.len()).0.over(Double::of_int(n));
            let b = crate::bootstrap::drawn(shifted(data, c), state, data.len()).0.over(
                Double::of_int(n),
            );
            crate::error::gap(b.value(), a.value() + c.value()) * PRECISION <= 40 * n * w
                + 4 * PRECISION
        }),
{
    let n = data.len() as int;
    let p = PRECISION as int;
    let cv = c.value();
    let s = crate::bootstrap::drawn(data, state, data.len()).0;
    let t = crate::bootstrap::drawn(shifted(data, c), state, data.len()).0;
    lemma_drawn_shifted(data, c, state, data.len(), w);
    assert(crate::bootstrap::drawn(data, state, data.len()).0.is_finite());
    assert(crate::bootstrap::drawn(shifted(data, c), state, data.len()).0.is_finite());
    lemma_mean_error(s, n);
    lemma_mean_error(t, n);
    let a = s.over(Double::of_int(n)).value();
    let b = t.over(Double::of_int(n)).value();
    let d = crate::error::gap(b, a + cv);
    crate::error::lemma_gap_scales(b, a + cv, n);
    assert((a + cv) * n == a * n + n * cv) by (nonlinear_arith);
    let ea = crate::error::gap(a * n, s.value());
    let eb = crate::error::gap(b * n, t.value());
    let e = crate::error::gap(t.value(), s.value() + n * cv);
    assert(d * n <= ea + eb + e);
    assert((d * n) * p <= ea * p + eb * p + e * p) by (nonlinear_arith)
        requires
            d * n <= ea + eb + e,
            p > 0,
    ;
    let nw = n * w;
    assert(2 * n * w == 2 * nw && 2 * n * (3 * w) == 6 * nw) by (nonlinear_arith)
        requires
            nw == n * w,
    ;
    assert((4 * n * n + 4 * n) * w == 4 * (nw * n) + 4 * nw) by (nonlinear_arith)
        requires
            nw == n * w,
    ;
    let np = n * p;
    assert(2 * n * p == 2 * np) by (nonlinear_arith)
        requires
            np == n * p,
    ;
    assert(ea * p <= 8 * nw + 2 * np);
    assert(eb * p <= 24 * nw + 2 * np);
    assert(e * p <= 4 * (nw * n) + 4 * nw);
    assert(w >= 0);
    assert(nw <= nw * n) by (nonlinear_arith)
        requires
            nw == n * w,
            n >= 1,
            w >= 0,
    ;
    assert(d * p <= 40 * nw + 4 * p) by (nonlinear_arith)
        requires
            (d * n) * p <= 40 * (nw * n) + 4 * np,
            np == n * p,
            n >= 1,
    ;
    assert(40 * n * w == 40 * nw) by (nonlinear_arith)
        requires
            nw == n * w,
    ;
}

proof fn lemma_means_shifted(
    data: Seq<Double>,
    c: Double,
    state: u64,
    resamples: nat,
    w: int,
)
    requires
        0 < data.len() <= u64::MAX,
        c.is_finite(),
        crate::error::gap(c.value(), 0) <= w,
        sums_well(data, w),
        sums_well(shifted(data, c), 3 * w),
        forall|i: int|
            0 <= i < resamples ==> (#[trigger] crate::bootstrap::resampled(
                data,
                state,
                resamples,
            ).0[i]).is_finite(),
        forall|i: int|
            0 <= i < resamples ==> (#[trigger] crate::bootstrap::resampled(
                shifted(data, c),
                state,
                resamples,
            ).0[i]).is_finite(),
    ensures
        ({
            let a = crate::bootstrap::resampled(data, state, resamples);
            let b = crate::bootstrap::resampled(shifted(data, c), state, resamples);
            &&& a.1 == b.1
            &&& a.0.len() == resamples
            &&& b.0.len() == resamples
            &&& forall|i: int|
                0 <= i < resamples ==> crate::error::gap(
                    #[trigger] b.0[i].value(),
                    a.0[i].value() + c.value(),
                ) * PRECISION <= 40 * data.len() * w + 4 * PRECISION
        }),
    decreases resamples,
{
    if resamples > 0 {
        let m = (resamples - 1) as nat;
        let other = shifted(data, c);
        let n = Double::of_int(data.len() as int);
        let (a, before) = crate::bootstrap::resampled(data, state, m);
        let (b, there) = crate::bootstrap::resampled(other, state, m);
        let aa = crate::bootstrap::resampled(data, state, resamples).0;
        let bb = crate::bootstrap::resampled(other, state, resamples).0;
        let x = crate::bootstrap::drawn(data, before, data.len()).0.over(n);
        let y = crate::bootstrap::drawn(other, there, other.len()).0.over(n);
        assert(aa == a.push(x));
        assert(bb == b.push(y));
        lemma_len(data, state, m);
        lemma_len(other, state, m);
        assert forall|i: int| 0 <= i < m implies (#[trigger] a[i]).is_finite() by {
            assert(aa[i] == a[i]);
        }
        assert forall|i: int| 0 <= i < m implies (#[trigger] b[i]).is_finite() by {
            assert(bb[i] == b[i]);
        }
        lemma_means_shifted(data, c, state, m, w);
        assert(aa[m as int].is_finite());
        assert(bb[m as int].is_finite());
        lemma_drawn_shifted(data, c, before, data.len(), w);
        lemma_mean_shifted(data, c, before, w);
        assert forall|i: int| 0 <= i < resamples implies crate::error::gap(
            #[trigger] bb[i].value(),
            aa[i].value() + c.value(),
        ) * PRECISION <= 40 * data.len() * w + 4 * PRECISION by {
            if i < m {
                assert(bb[i] == b[i] && aa[i] == a[i]);
                assert(crate::error::gap(b[i].value(), a[i].value() + c.value()) * PRECISION
                    <= 40 * data.len() * w + 4 * PRECISION);
            }
        }
    }
}

proof fn lemma_len(data: Seq<Double>, state: u64, resamples: nat)
    ensures
        crate::bootstrap::resampled(data, state, resamples).0.len() == resamples,
    decreases resamples,
{
    if resamples > 0 {
        lemma_len(data, state, (resamples - 1) as nat);
    }
}

/// Adding `c` to every element of a sample of `n` adds `c` to both ends of its
/// interval, up to rounding: up to one part in [`PRECISION`] of 40 `n` times the
/// largest size `w` that an element or `c` has, and four units.
pub proof fn law_shifting_the_sample_shifts_the_interval(
    data: Seq<Double>,
    c: Double,
    resamples: nat,
    seed: u64,
    one: (Double, Double),
    other: (Double, Double),
    a: Seq<Double>,
    b: Seq<Double>,
    w: int,
)
    requires
        0 < data.len() <= u64::MAX,
        0 < resamples,
        c.is_finite(),
        crate::error::gap(c.value(), 0) <= w,
        sums_well(data, w),
        sums_well(shifted(data, c), 3 * w),
        forall|i: int|
            0 <= i < resamples ==> (#[trigger] crate::bootstrap::means_of(
                data,
                resamples,
                seed,
            )[i]).is_finite(),
        forall|i: int|
            0 <= i < resamples ==> (#[trigger] crate::bootstrap::means_of(
                shifted(data, c),
                resamples,
                seed,
            )[i]).is_finite(),
        crate::bootstrap::is_interval(one, data, resamples, seed, a),
        crate::bootstrap::is_interval(other, shifted(data, c), resamples, seed, b),
    ensures
        crate::error::gap(other.0.value(), one.0.value() + c.value()) * PRECISION <= 40
            * data.len() * w + 4 * PRECISION,
        crate::error::gap(other.1.value(), one.1.value() + c.value()) * PRECISION <= 40
            * data.len() * w + 4 * PRECISION,
{
    let x = crate::bootstrap::means_of(data, resamples, seed);
    let y = crate::bootstrap::means_of(shifted(data, c), resamples, seed);
    let p = PRECISION as int;
    let bound = 40 * data.len() * w + 4 * p;
    let d = bound / p;
    lemma_means_shifted(data, c, seed, resamples, w);
    vstd::arithmetic::div_mod::lemma_fundamental_div_mod(bound, p);
    assert forall|i: int| 0 <= i < resamples implies crate::error::gap(
        #[trigger] y[i].value(),
        x[i].value() + c.value(),
    ) <= d by {
        let g = crate::error::gap(y[i].value(), x[i].value() + c.value());
        assert(g <= d) by (nonlinear_arith)
            requires
                g * p <= bound,
                bound == p * d + bound % p,
                bound % p < p,
                p > 0,
        ;
    }
    let low = crate::bootstrap::place(resamples, Double { bits: crate::bootstrap::LOW_BITS });
    let high = crate::bootstrap::place(resamples, Double { bits: crate::bootstrap::HIGH_BITS });
    lemma_both_ways(x, y, a, b, c.value(), d, low);
    lemma_both_ways(x, y, a, b, c.value(), d, high);
    assert(d * p <= bound) by (nonlinear_arith)
        requires
            bound == p * d + bound % p,
            bound % p >= 0,
    ;
    let g0 = crate::error::gap(other.0.value(), one.0.value() + c.value());
    let g1 = crate::error::gap(other.1.value(), one.1.value() + c.value());
    assert(g0 * p <= d * p && g1 * p <= d * p) by (nonlinear_arith)
        requires
            g0 <= d,
            g1 <= d,
            p > 0,
    ;
}

proof fn lemma_both_ways(
    x: Seq<Double>,
    y: Seq<Double>,
    a: Seq<Double>,
    b: Seq<Double>,
    c: int,
    d: int,
    k: int,
)
    requires
        crate::sort::is_stable_sort(x, a),
        crate::sort::is_stable_sort(y, b),
        x.len() == y.len(),
        forall|i: int| 0 <= i < x.len() ==> (#[trigger] x[i]).is_finite(),
        forall|i: int| 0 <= i < y.len() ==> (#[trigger] y[i]).is_finite(),
        forall|i: int|
            0 <= i < x.len() ==> crate::error::gap(#[trigger] y[i].value(), x[i].value() + c) <= d,
        0 <= k < x.len(),
    ensures
        crate::error::gap(b[k].value(), a[k].value() + c) <= d,
{
    assert forall|i: int| 0 <= i < x.len() implies y[i].value() <= (#[trigger] x[i]).value() + (c
        + d) by {
        assert(crate::error::gap(y[i].value(), x[i].value() + c) <= d);
    }
    assert forall|i: int| 0 <= i < y.len() implies x[i].value() <= (#[trigger] y[i]).value() + (d
        - c) by {
        assert(crate::error::gap(y[i].value(), x[i].value() + c) <= d);
    }
    lemma_place_grows_with(x, y, a, b, c + d, k);
    lemma_place_grows_with(y, x, b, a, d - c, k);
}

/// A sum of drawn elements against as many times an extreme.
proof fn lemma_drawn_within(
    data: Seq<Double>,
    state: u64,
    draws: nat,
    low: int,
    high: int,
    w: int,
)
    requires
        data.len() > 0,
        draws <= data.len(),
        sums_well(data, w),
        forall|i: int| 0 <= i < data.len() ==> low <= (#[trigger] data[i]).value() <= high,
    ensures
        ({
            let s = crate::bootstrap::drawn(data, state, draws).0.value();
            let p = PRECISION as int;
            &&& crate::error::gap(s, 0) <= 2 * draws * w
            &&& (draws * low - s) * p <= draws * draws * w
            &&& (s - draws * high) * p <= draws * draws * w
        }),
    decreases draws,
{
    let p = PRECISION as int;
    let k = draws as int;
    crate::order::lemma_of_int(0);
    assert(crate::rounding::units(0) == 0);
    if draws == 0 {
        assert(2 * k * w == 0 && k * low == 0 && k * high == 0 && k * k * w == 0)
            by (nonlinear_arith)
            requires
                k == 0,
        ;
    } else {
        let m = (draws - 1) as nat;
        let j = m as int;
        lemma_drawn_within(data, state, m, low, high, w);
        let (s, before) = crate::bootstrap::drawn(data, state, m);
        let at = crate::bootstrap::mixed(crate::bootstrap::next_state(before)) as int
            % data.len() as int;
        let x = data[at];
        assert(x.is_finite() && low <= x.value() <= high);
        assert(crate::bootstrap::drawn(data, state, draws).0 == s.plus(x));
        assert(crate::bootstrap::drawn(data, state, m).0.is_finite());
        assert(crate::bootstrap::drawn(data, state, draws).0.is_finite());
        lemma_one_more_draw(s, x, j, w);
        let r = s.plus(x).value();
        let e = crate::error::gap(r, s.value() + x.value());
        assert(k * low == j * low + low && k * high == j * high + high && k * k * w == j * j * w + (
        2 * j + 1) * w) by (nonlinear_arith)
            requires
                k == j + 1,
        ;
        let a = j * low - s.value();
        let b = s.value() - j * high;
        assert((k * low - r) * p <= a * p + e * p) by (nonlinear_arith)
            requires
                k * low - r <= a + e,
                p > 0,
        ;
        assert((r - k * high) * p <= b * p + e * p) by (nonlinear_arith)
            requires
                r - k * high <= b + e,
                p > 0,
        ;
    }
}

proof fn lemma_mean_within(data: Seq<Double>, state: u64, low: int, high: int, w: int)
    requires
        0 < data.len() <= u64::MAX,
        sums_well(data, w),
        forall|i: int| 0 <= i < data.len() ==> low <= (#[trigger] data[i]).value() <= high,
        crate::bootstrap::drawn(data, state, data.len()).0.over(
            Double::of_int(data.len() as int),
        ).is_finite(),
    ensures
        ({
            let n = data.len() as int;
            let p = PRECISION as int;
            let mean = crate::bootstrap::drawn(data, state, data.len()).0.over(
                Double::of_int(n),
            ).value();
            &&& (low - mean) * p <= 9 * n * w + 2 * p
            &&& (mean - high) * p <= 9 * n * w + 2 * p
        }),
{
    let n = data.len() as int;
    let p = PRECISION as int;
    let sum = crate::bootstrap::drawn(data, state, data.len()).0;
    lemma_drawn_within(data, state, data.len(), low, high, w);
    assert(crate::bootstrap::drawn(data, state, data.len()).0.is_finite());
    lemma_mean_error(sum, n);
    let s = sum.value();
    let m = sum.over(Double::of_int(n)).value();
    let g = crate::error::gap(m * n, s);
    let nw = n * w;
    assert(data[0].is_finite());
    assert(w >= 0);
    assert(2 * n * w == 2 * nw && 9 * n * w == 9 * nw && n * n * w == n * nw) by (nonlinear_arith)
        requires
            nw == n * w,
    ;
    assert(nw <= n * nw) by (nonlinear_arith)
        requires
            nw == n * w,
            n >= 1,
            w >= 0,
    ;
    assert(g * p <= 8 * nw + 2 * n * p);
    let a = n * low - s;
    let b = s - n * high;
    assert((low - m) * n == n * low - m * n) by (nonlinear_arith);
    assert((m - high) * n == m * n - n * high) by (nonlinear_arith);
    assert(((low - m) * n) * p <= a * p + g * p) by (nonlinear_arith)
        requires
            (low - m) * n <= a + g,
            p > 0,
    ;
    assert(((m - high) * n) * p <= b * p + g * p) by (nonlinear_arith)
        requires
            (m - high) * n <= b + g,
            p > 0,
    ;
    assert((low - m) * p <= 9 * nw + 2 * p) by (nonlinear_arith)
        requires
            ((low - m) * n) * p <= 9 * (n * nw) + 2 * n * p,
            n >= 1,
    ;
    assert((m - high) * p <= 9 * nw + 2 * p) by (nonlinear_arith)
        requires
            ((m - high) * n) * p <= 9 * (n * nw) + 2 * n * p,
            n >= 1,
    ;
}

proof fn lemma_means_within(
    data: Seq<Double>,
    state: u64,
    resamples: nat,
    low: int,
    high: int,
    w: int,
)
    requires
        0 < data.len() <= u64::MAX,
        sums_well(data, w),
        forall|i: int| 0 <= i < data.len() ==> low <= (#[trigger] data[i]).value() <= high,
        forall|i: int|
            0 <= i < resamples ==> (#[trigger] crate::bootstrap::resampled(
                data,
                state,
                resamples,
            ).0[i]).is_finite(),
    ensures
        forall|i: int|
            0 <= i < resamples ==> {
                let mean = (#[trigger] crate::bootstrap::resampled(
                    data,
                    state,
                    resamples,
                ).0[i]).value();
                &&& (low - mean) * PRECISION <= 9 * data.len() * w + 2 * PRECISION
                &&& (mean - high) * PRECISION <= 9 * data.len() * w + 2 * PRECISION
            },
    decreases resamples,
{
    if resamples > 0 {
        let m = (resamples - 1) as nat;
        let (means, before) = crate::bootstrap::resampled(data, state, m);
        let all = crate::bootstrap::resampled(data, state, resamples).0;
        let mean = crate::bootstrap::drawn(data, before, data.len()).0.over(
            Double::of_int(data.len() as int),
        );
        assert(all == means.push(mean));
        lemma_len(data, state, m);
        assert forall|i: int| 0 <= i < m implies (#[trigger] means[i]).is_finite() by {
            assert(all[i] == means[i]);
        }
        lemma_means_within(data, state, m, low, high, w);
        assert(all[m as int].is_finite());
        lemma_mean_within(data, before, low, high, w);
        assert forall|i: int| 0 <= i < resamples implies {
            &&& (low - (#[trigger] all[i]).value()) * PRECISION <= 9 * data.len() * w + 2
                * PRECISION
            &&& (all[i].value() - high) * PRECISION <= 9 * data.len() * w + 2 * PRECISION
        } by {
            if i < m {
                assert(all[i] == means[i]);
            }
        }
    }
}

/// The interval of a sample of `n` lies between the extremes of the sample, up to
/// rounding: up to one part in [`PRECISION`] of nine `n` times the largest size
/// `w` that an element has, and two units.
pub proof fn law_the_interval_keeps_to_the_extremes(
    data: Seq<Double>,
    resamples: nat,
    seed: u64,
    r: (Double, Double),
    sorted: Seq<Double>,
    low: Double,
    high: Double,
    w: int,
)
    requires
        0 < data.len() <= u64::MAX,
        0 < resamples,
        sums_well(data, w),
        low.is_finite(),
        high.is_finite(),
        forall|i: int|
            0 <= i < data.len() ==> low.at_most(#[trigger] data[i]) && data[i].at_most(high),
        forall|i: int|
            0 <= i < resamples ==> (#[trigger] crate::bootstrap::means_of(
                data,
                resamples,
                seed,
            )[i]).is_finite(),
        crate::bootstrap::is_interval(r, data, resamples, seed, sorted),
    ensures
        ({
            let bound = 9 * data.len() * w + 2 * PRECISION;
            &&& (low.value() - r.0.value()) * PRECISION <= bound
            &&& (r.0.value() - high.value()) * PRECISION <= bound
            &&& (low.value() - r.1.value()) * PRECISION <= bound
            &&& (r.1.value() - high.value()) * PRECISION <= bound
        }),
{
    let means = crate::bootstrap::means_of(data, resamples, seed);
    assert forall|i: int| 0 <= i < data.len() implies low.value() <= (
    #[trigger] data[i]).value() <= high.value() by {
        assert(data[i].is_finite());
        crate::order::lemma_order_of_values(low, data[i]);
        crate::order::lemma_order_of_values(data[i], high);
    }
    lemma_means_within(data, seed, resamples, low.value(), high.value(), w);
    lemma_len(data, seed, resamples);
    let i = crate::bootstrap::place(resamples, Double { bits: crate::bootstrap::LOW_BITS });
    let j = crate::bootstrap::place(resamples, Double { bits: crate::bootstrap::HIGH_BITS });
    crate::sort::lemma_sorted_item_is_given(means, sorted, i);
    crate::sort::lemma_sorted_item_is_given(means, sorted, j);
}

} // verus!
