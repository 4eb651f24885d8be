//! What a regression finds where the points lie on a line.
use vstd::arithmetic::power2::*;
use vstd::prelude::*;

use crate::double::Double;
use crate::measure::Moves;
use crate::rounding::BINADE;

verus! {

/// The numbers are the integers of `a`, each of them at most `w` in size.
pub open spec fn whole(xs: Seq<Double>, a: Seq<int>, w: int) -> bool {
    &&& xs.len() == a.len()
    &&& forall|i: int| 0 <= i < xs.len() ==> (#[trigger] xs[i]).is_int(a[i]) && -w <= a[i] <= w
}

pub open spec fn sum_of(a: Seq<int>) -> int
    decreases a.len(),
{
    if a.len() == 0 {
        0
    } else {
        sum_of(a.drop_last()) + a.last()
    }
}

/// The sum of the products of what `a` and `b` are off `m` and `k`.
pub open spec fn spread_of(a: Seq<int>, b: Seq<int>, m: int, k: int) -> int
    decreases a.len(),
{
    if a.len() == 0 || b.len() == 0 {
        0
    } else {
        spread_of(a.drop_last(), b.drop_last(), m, k) + (a.last() - m) * (b.last() - k)
    }
}

proof fn lemma_whole_rest(xs: Seq<Double>, a: Seq<int>, w: int)
    requires
        whole(xs, a, w),
        xs.len() > 0,
    ensures
        whole(xs.drop_last(), a.drop_last(), w),
        xs.last().is_int(a.last()),
        -w <= a.last() <= w,
{
    assert(xs[xs.len() - 1].is_int(a[a.len() - 1]));
    assert forall|i: int| 0 <= i < xs.drop_last().len() implies (
    #[trigger] xs.drop_last()[i]).is_int(a.drop_last()[i]) && -w <= a.drop_last()[i] <= w by {
        assert(xs[i].is_int(a[i]));
    }
}

proof fn lemma_total(xs: Seq<Double>, a: Seq<int>, w: int)
    requires
        whole(xs, a, w),
        0 <= w,
        xs.len() * w <= 2 * BINADE,
    ensures
        crate::stats::total(xs).is_int(sum_of(a)),
        -(xs.len() * w) <= sum_of(a) <= xs.len() * w,
    decreases xs.len(),
{
    if xs.len() == 0 {
        let zero = Double::of_int(0);
        crate::order::lemma_of_int_exact(0);
        crate::order::lemma_negated(zero);
        assert(0 * w == 0);
    } else {
        let n = xs.len() as int;
        lemma_whole_rest(xs, a, w);
        assert((n - 1) * w == n * w - w) by (nonlinear_arith);
        lemma_total(xs.drop_last(), a.drop_last(), w);
        crate::order::lemma_plus_of_ints(
            crate::stats::total(xs.drop_last()),
            xs.last(),
            sum_of(a.drop_last()),
            a.last(),
        );
    }
}

proof fn lemma_mean(xs: Seq<Double>, a: Seq<int>, m: int, w: int)
    requires
        whole(xs, a, w),
        0 <= w,
        0 < xs.len(),
        xs.len() * w <= 2 * BINADE,
        sum_of(a) == m * xs.len(),
        xs.len() <= 2 * BINADE,
        w <= 2 * BINADE,
    ensures
        crate::stats::mean_of(xs).is_int(m),
        -w <= m <= w,
{
    let n = xs.len() as int;
    lemma_total(xs, a, w);
    crate::order::lemma_of_int_exact(n);
    assert(-w <= m <= w) by (nonlinear_arith)
        requires
            -(n * w) <= m * n <= n * w,
            n > 0,
    ;
    crate::whole::lemma_over_of_ints(crate::stats::total(xs), Double::of_int(n), m, n);
}

proof fn lemma_term(d: int, e: int, w: int)
    requires
        -w <= d <= w,
        -w <= e <= w,
    ensures
        -(w * w) <= d * e <= w * w,
{
    assert(-(w * w) <= d * e <= w * w) by (nonlinear_arith)
        requires
            -w <= d <= w,
            -w <= e <= w,
    ;
}

proof fn lemma_deviation(
    xs: Seq<Double>,
    ys: Seq<Double>,
    a: Seq<int>,
    b: Seq<int>,
    mx: Double,
    my: Double,
    m: int,
    k: int,
    w: int,
)
    requires
        whole(xs, a, w),
        whole(ys, b, w),
        xs.len() == ys.len(),
        mx.is_int(m),
        my.is_int(k),
        -w <= m <= w,
        -w <= k <= w,
        xs.len() * ((2 * w) * (2 * w)) <= 2 * BINADE,
    ensures
        crate::stats::deviation(xs, ys, mx, my).is_int(spread_of(a, b, m, k)),
        -(xs.len() * ((2 * w) * (2 * w))) <= spread_of(a, b, m, k) <= xs.len() * ((2 * w) * (2
            * w)),
    decreases xs.len(),
{
    let n = xs.len() as int;
    let t = (2 * w) * (2 * w);
    if n == 0 {
        crate::order::lemma_of_int_exact(0);
        assert(n * t == 0) by (nonlinear_arith)
            requires
                n == 0,
        ;
    } else {
        lemma_whole_rest(xs, a, w);
        lemma_whole_rest(ys, b, w);
        assert((n - 1) * t == n * t - t) by (nonlinear_arith);
        assert(0 <= t && 2 * w <= t + 1 && t <= n * t) by (nonlinear_arith)
            requires
                t == (2 * w) * (2 * w),
                n >= 1,
        ;
        let d = a.last() - m;
        let e = b.last() - k;
        lemma_deviation(
            xs.drop_last(),
            ys.drop_last(),
            a.drop_last(),
            b.drop_last(),
            mx,
            my,
            m,
            k,
            w,
        );
        lemma_term(d, e, 2 * w);
        crate::order::lemma_minus_of_ints(xs.last(), mx, a.last(), m);
        crate::order::lemma_minus_of_ints(ys.last(), my, b.last(), k);
        crate::whole::lemma_times_of_ints(xs.last().minus(mx), ys.last().minus(my), d, e);
        crate::order::lemma_plus_of_ints(
            crate::stats::deviation(xs.drop_last(), ys.drop_last(), mx, my),
            xs.last().minus(mx).times(ys.last().minus(my)),
            spread_of(a.drop_last(), b.drop_last(), m, k),
            d * e,
        );
    }
}

/// The points lie on the line of slope `c` through the height `h`.
pub open spec fn on_line(a: Seq<int>, b: Seq<int>, c: int, h: int) -> bool {
    &&& a.len() == b.len()
    &&& forall|i: int| 0 <= i < a.len() ==> #[trigger] b[i] == c * a[i] + h
}

proof fn lemma_on_line_rest(a: Seq<int>, b: Seq<int>, c: int, h: int)
    requires
        on_line(a, b, c, h),
        a.len() > 0,
    ensures
        on_line(a.drop_last(), b.drop_last(), c, h),
        b.last() == c * a.last() + h,
{
    assert(b[b.len() - 1] == c * a[a.len() - 1] + h);
    assert forall|i: int| 0 <= i < a.drop_last().len() implies #[trigger] b.drop_last()[i] == c
        * a.drop_last()[i] + h by {
        assert(b[i] == c * a[i] + h);
    }
}

proof fn lemma_sum_on_line(a: Seq<int>, b: Seq<int>, c: int, h: int)
    requires
        on_line(a, b, c, h),
    ensures
        sum_of(b) == c * sum_of(a) + h * a.len(),
    decreases a.len(),
{
    if a.len() == 0 {
        assert(c * 0 == 0 && h * 0 == 0) by (nonlinear_arith);
    } else {
        lemma_on_line_rest(a, b, c, h);
        lemma_sum_on_line(a.drop_last(), b.drop_last(), c, h);
        let n = a.len() as int;
        let s = sum_of(a.drop_last());
        assert(c * (s + a.last()) + h * n == (c * s + h * (n - 1)) + (c * a.last() + h))
            by (nonlinear_arith);
    }
}

proof fn lemma_spread_on_line(a: Seq<int>, b: Seq<int>, m: int, c: int, h: int)
    requires
        on_line(a, b, c, h),
    ensures
        spread_of(a, b, m, c * m + h) == c * spread_of(a, a, m, m),
        spread_of(b, b, c * m + h, c * m + h) == c * (c * spread_of(a, a, m, m)),
    decreases a.len(),
{
    if a.len() == 0 {
        assert(c * 0 == 0) by (nonlinear_arith);
        assert(c * (c * 0) == 0) by (nonlinear_arith);
    } else {
        lemma_on_line_rest(a, b, c, h);
        lemma_spread_on_line(a.drop_last(), b.drop_last(), m, c, h);
        let k = c * m + h;
        let d = a.last() - m;
        let e = b.last() - k;
        let s = spread_of(a.drop_last(), a.drop_last(), m, m);
        assert(e == c * d) by (nonlinear_arith)
            requires
                e == (c * a.last() + h) - (c * m + h),
                d == a.last() - m,
        ;
        assert(c * (s + d * d) == c * s + d * e) by (nonlinear_arith)
            requires
                e == c * d,
        ;
        assert(c * (c * (s + d * d)) == c * (c * s) + e * e) by (nonlinear_arith)
            requires
                e == c * d,
        ;
    }
}

proof fn lemma_spread_is_positive(a: Seq<int>, m: int)
    ensures
        spread_of(a, a, m, m) >= 0,
        (exists|i: int| 0 <= i < a.len() && #[trigger] a[i] != m) ==> spread_of(a, a, m, m) > 0,
    decreases a.len(),
{
    if a.len() > 0 {
        let d = a.last() - m;
        lemma_spread_is_positive(a.drop_last(), m);
        assert(d * d >= 0 && (d != 0 ==> d * d > 0)) by (nonlinear_arith);
        if exists|i: int| 0 <= i < a.len() && #[trigger] a[i] != m {
            let i = choose|i: int| 0 <= i < a.len() && #[trigger] a[i] != m;
            if i < a.len() - 1 {
                assert(a.drop_last()[i] != m);
            }
        }
    }
}

/// Two products of the same size round to the same number.
proof fn lemma_squared(x: Double, y: Double, z: Double, c: int, s: int)
    requires
        x.is_int(c * s),
        y.is_int(s),
        z.is_int(c * (c * s)),
        c != 0,
        s > 0,
        -(2 * BINADE) <= c * s <= 2 * BINADE,
        -(2 * BINADE) <= c * (c * s) <= 2 * BINADE,
        s <= 2 * BINADE,
    ensures
        x.times(x).over(y.times(z)) == Double::of_int(1),
{
    let unit = pow2(1074);
    lemma_pow2_pos(1074);
    let t = c * s;
    let v = c * (c * s);
    assert(t != 0 && v > 0) by (nonlinear_arith)
        requires
            t == c * s,
            v == c * (c * s),
            c != 0,
            s > 0,
    ;
    crate::whole::lemma_is_int(x, t);
    crate::whole::lemma_is_int(y, s);
    crate::whole::lemma_is_int(z, v);
    let p = crate::whole::absolute(t);
    let q = (s * v) as nat;
    assert(0 < s * v && p * p == s * v) by (nonlinear_arith)
        requires
            t == c * s,
            v == c * (c * s),
            p == t || p == -t,
            s > 0,
            v > 0,
    ;
    assert(crate::whole::absolute(s) == s && crate::whole::absolute(v) == v);
    let big = q * unit;
    assert(x.size() * x.size() == big * unit) by (nonlinear_arith)
        requires
            x.size() == p * unit,
            p * p == q,
            big == q * unit,
    ;
    assert(y.size() * z.size() == big * unit) by (nonlinear_arith)
        requires
            y.size() == s * unit,
            z.size() == v * unit,
            q == s * v,
            big == q * unit,
    ;
    reveal(Double::times);
    crate::order::lemma_nearest_scale(big, 1, unit);
    assert(1 * unit == unit);
    let r = crate::rounding::nearest(big, 1);
    lemma2_to64();
    lemma2_to64_rest();
    let two = 2 * BINADE;
    assert(q <= two * two) by (nonlinear_arith)
        requires
            q == s * v,
            0 < s <= two,
            0 < v <= two,
    ;
    assert(pow2(53) == two);
    lemma_pow2_adds(53, 53);
    lemma_pow2_adds(106, 1074);
    assert(1 <= q && big <= pow2(1180) && big > 0) by (nonlinear_arith)
        requires
            big == q * unit,
            0 < q <= pow2(106),
            pow2(1180) == pow2(106) * unit,
            unit > 0,
    ;
    crate::rounding::lemma_nearest_exact(1, 1180);
    assert(1 * pow2(1180) == pow2(1180));
    crate::rounding::lemma_nearest_monotone(big, pow2(1180), 1);
    crate::order::lemma_rounded(big as int, false);
    crate::order::lemma_signed(false, r);
    assert(x.times(x) == y.times(z));
    crate::order::lemma_over_itself(x.times(x));
}

/// A line is found: where every `y` is `c` times its `x` and a height, in whole
/// numbers that are not all equal and whose mean is whole, so that nothing is
/// rounded, the slope is `c` and all of the variance is explained.
pub proof fn law_a_line_is_found(
    xs: Seq<Double>,
    ys: Seq<Double>,
    a: Seq<int>,
    b: Seq<int>,
    c: int,
    h: int,
    m: int,
    w: int,
)
    requires
        xs.len() >= 3,
        whole(xs, a, w),
        whole(ys, b, w),
        on_line(a, b, c, h),
        c != 0,
        sum_of(a) == m * a.len(),
        exists|i: int| 0 <= i < a.len() && #[trigger] a[i] != m,
        0 <= w,
        xs.len() * ((2 * w) * (2 * w)) <= 2 * BINADE,
    ensures
        crate::stats::regression(xs, ys) == (Double::of_int(c), Double::of_int(1)),
{
    let n = xs.len() as int;
    let k = c * m + h;
    let t = (2 * w) * (2 * w);
    let i = choose|i: int| 0 <= i < a.len() && #[trigger] a[i] != m;
    if w == 0 {
        lemma_zeros(xs, a, m);
        assert(xs[i].is_int(a[i]));
        assert(false);
    }
    assert(n * w <= n * t && n <= n * t && w <= n * w) by (nonlinear_arith)
        requires
            t == (2 * w) * (2 * w),
            w >= 1,
            n >= 1,
    ;
    lemma_sum_on_line(a, b, c, h);
    assert(c * (m * n) + h * n == k * n) by (nonlinear_arith)
        requires
            k == c * m + h,
    ;
    lemma_mean(xs, a, m, w);
    lemma_mean(ys, b, k, w);
    let mx = crate::stats::mean_of(xs);
    let my = crate::stats::mean_of(ys);
    lemma_deviation(xs, ys, a, b, mx, my, m, k, w);
    lemma_deviation(xs, xs, a, a, mx, mx, m, m, w);
    lemma_deviation(ys, ys, b, b, my, my, k, k, w);
    lemma_spread_on_line(a, b, m, c, h);
    lemma_spread_is_positive(a, m);
    let s = spread_of(a, a, m, m);
    let sxy = crate::stats::deviation(xs, ys, mx, my);
    let sxx = crate::stats::deviation(xs, xs, mx, mx);
    let syy = crate::stats::deviation(ys, ys, my, my);
    let v = c * (c * s);
    assert(v != 0 && -(2 * BINADE) <= c <= 2 * BINADE) by (nonlinear_arith)
        requires
            v == c * (c * s),
            c != 0,
            s > 0,
            -(2 * BINADE) <= c * s <= 2 * BINADE,
    ;
    crate::whole::lemma_is_int(sxx, s);
    crate::whole::lemma_is_int(syy, v);
    crate::order::lemma_of_int(0);
    crate::whole::lemma_over_of_ints(sxy, sxx, c, s);
    crate::whole::lemma_is_int(sxy.over(sxx), c);
    lemma_squared(sxy, sxx, syy, c, s);
}

proof fn lemma_zeros(xs: Seq<Double>, a: Seq<int>, m: int)
    requires
        whole(xs, a, 0),
        0 < xs.len(),
        sum_of(a) == m * a.len(),
    ensures
        m == 0,
{
    lemma_total(xs, a, 0);
    let n = a.len() as int;
    assert(m == 0) by (nonlinear_arith)
        requires
            m * n == 0,
            n > 0,
    ;
}

/// Every sample has a mid at its time, `p`, and one `gain` higher at the horizon.
pub open spec fn moves_by(
    samples: Seq<(i64, Double)>,
    mids: Seq<(i64, Double)>,
    horizon: i64,
    p: Seq<int>,
    gain: Seq<int>,
) -> bool {
    &&& samples.len() == p.len() == gain.len()
    &&& mids.len() > 0
    &&& forall|i: int|
        0 <= i < samples.len() ==> {
            let ts = (#[trigger] samples[i]).0;
            &&& ts + horizon <= mids.last().0
            &&& -(2 * BINADE) <= gain[i] <= 2 * BINADE
            &&& crate::markout::mid_at(mids, ts as int) matches Some(now) && now.is_int(p[i])
            &&& crate::markout::mid_at(mids, ts + horizon) matches Some(later) && later.is_int(
                p[i] + gain[i],
            )
        }
}

proof fn lemma_moves(
    samples: Seq<(i64, Double)>,
    mids: Seq<(i64, Double)>,
    horizon: i64,
    p: Seq<int>,
    gain: Seq<int>,
)
    requires
        moves_by(samples, mids, horizon, p, gain),
    ensures
        ({
            let moves = Moves::of(samples, mids, horizon);
            &&& moves.xs.len() == samples.len()
            &&& moves.ys.len() == samples.len()
            &&& forall|i: int| 0 <= i < samples.len() ==> #[trigger] moves.xs[i] == samples[i].1
            &&& forall|i: int|
                0 <= i < samples.len() ==> (#[trigger] moves.ys[i]).is_int(gain[i])
        }),
    decreases samples.len(),
{
    if samples.len() > 0 {
        let n = samples.len() - 1;
        let rest = samples.drop_last();
        assert forall|i: int| 0 <= i < rest.len() implies {
            let ts = (#[trigger] rest[i]).0;
            &&& ts + horizon <= mids.last().0
            &&& -(2 * BINADE) <= gain.drop_last()[i] <= 2 * BINADE
            &&& crate::markout::mid_at(mids, ts as int) matches Some(now) && now.is_int(
                p.drop_last()[i],
            )
            &&& crate::markout::mid_at(mids, ts + horizon) matches Some(later) && later.is_int(
                p.drop_last()[i] + gain.drop_last()[i],
            )
        } by {
            assert(samples[i] == rest[i]);
        }
        lemma_moves(rest, mids, horizon, p.drop_last(), gain.drop_last());
        let ts = samples[n].0;
        let now = crate::markout::mid_at(mids, ts as int)->0;
        let later = crate::markout::mid_at(mids, ts + horizon)->0;
        crate::order::lemma_minus_of_ints(later, now, p[n] + gain[n], p[n]);
        let before = Moves::of(rest, mids, horizon);
        let moves = Moves::of(samples, mids, horizon);
        assert(moves.xs == before.xs.push(samples[n].1));
        assert(moves.ys == before.ys.push(later.minus(now)));
        assert forall|i: int| 0 <= i < samples.len() implies (#[trigger] moves.ys[i]).is_int(
            gain[i],
        ) by {
            if i < n {
                assert(before.ys[i].is_int(gain.drop_last()[i]));
            }
        }
        assert forall|i: int| 0 <= i < samples.len() implies #[trigger] moves.xs[i]
            == samples[i].1 by {
            if i < n {
                assert(before.xs[i] == rest[i].1);
            }
        }
    }
}

/// The slope is the move of the mid per unit of imbalance: where every move over
/// the horizon is `c` times the imbalance of its sample and a drift, in whole
/// numbers so that nothing is rounded, the slope is `c` and all of the variance
/// is explained.
pub proof fn law_the_slope_is_the_move_per_unit_of_imbalance(
    samples: Seq<(i64, Double)>,
    mids: Seq<(i64, Double)>,
    horizon: i64,
    a: Seq<int>,
    p: Seq<int>,
    gain: Seq<int>,
    c: int,
    drift: int,
    m: int,
    w: int,
)
    requires
        samples.len() >= 3,
        moves_by(samples, mids, horizon, p, gain),
        a.len() == samples.len(),
        forall|i: int|
            0 <= i < samples.len() ==> (#[trigger] samples[i]).1.is_int(a[i]) && -w <= a[i] <= w
                && -w <= gain[i] <= w,
        on_line(a, gain, c, drift),
        c != 0,
        sum_of(a) == m * a.len(),
        exists|i: int| 0 <= i < a.len() && #[trigger] a[i] != m,
        0 <= w,
        samples.len() * ((2 * w) * (2 * w)) <= 2 * BINADE,
    ensures
        ({
            let moves = Moves::of(samples, mids, horizon);
            crate::stats::regression(moves.xs, moves.ys) == (Double::of_int(c), Double::of_int(1))
        }),
{
    let moves = Moves::of(samples, mids, horizon);
    lemma_moves(samples, mids, horizon, p, gain);
    assert forall|i: int| 0 <= i < moves.xs.len() implies (#[trigger] moves.xs[i]).is_int(a[i])
        && -w <= a[i] <= w by {
        assert(samples[i].1.is_int(a[i]));
    }
    assert forall|i: int| 0 <= i < moves.ys.len() implies (#[trigger] moves.ys[i]).is_int(gain[i])
        && -w <= gain[i] <= w by {
        assert(samples[i].1.is_int(a[i]));
    }
    law_a_line_is_found(moves.xs, moves.ys, a, gain, c, drift, m, w);
}

/// The mean of whole numbers, where it is whole, is what they add up to over
/// how many they are.
pub proof fn law_whole_numbers_have_their_mean(xs: Seq<Double>, a: Seq<int>, m: int, w: int)
    requires
        whole(xs, a, w),
        0 < xs.len(),
        1 <= w,
        xs.len() * w <= 2 * BINADE,
        sum_of(a) == m * a.len(),
    ensures
        crate::stats::mean_of(xs).is_int(m),
        crate::stats::total(xs).is_int(sum_of(a)),
{
    let n = xs.len() as int;
    assert(n <= n * w && w <= n * w) by (nonlinear_arith)
        requires
            n >= 1,
            w >= 1,
    ;
    lemma_total(xs, a, w);
    lemma_mean(xs, a, m, w);
}

/// The variance of whole numbers, where it is whole, is the sum of the squares of
/// what they are off their mean, over one less than how many they are.
pub proof fn law_whole_numbers_have_their_variance(
    xs: Seq<Double>,
    a: Seq<int>,
    m: int,
    v: int,
    w: int,
)
    requires
        whole(xs, a, w),
        2 <= xs.len(),
        1 <= w,
        xs.len() * ((2 * w) * (2 * w)) <= 2 * BINADE,
        sum_of(a) == m * a.len(),
        spread_of(a, a, m, m) == v * (a.len() - 1),
    ensures
        crate::stats::variance_of(xs).is_int(v),
{
    let n = xs.len() as int;
    let t = (2 * w) * (2 * w);
    assert(n * w <= n * t && n <= n * t && w <= n * w) by (nonlinear_arith)
        requires
            t == (2 * w) * (2 * w),
            w >= 1,
            n >= 1,
    ;
    let mx = crate::stats::mean_of(xs);
    let s = spread_of(a, a, m, m);
    lemma_mean(xs, a, m, w);
    lemma_deviation(xs, xs, a, a, mx, mx, m, m, w);
    crate::order::lemma_of_int_exact(n - 1);
    assert(-(2 * BINADE) <= v <= 2 * BINADE) by (nonlinear_arith)
        requires
            s == v * (n - 1),
            n >= 2,
            -(2 * BINADE) <= s <= 2 * BINADE,
    ;
    crate::whole::lemma_over_of_ints(
        crate::stats::deviation(xs, xs, mx, mx),
        Double::of_int(n - 1),
        v,
        n - 1,
    );
}

/// A decay is found: where every logarithm is a height less `kappa` times its
/// distance, in whole numbers so that nothing is rounded, the fit has that decay
/// and that height at the mid.
pub proof fn law_a_decay_is_found(
    xs: Seq<Double>,
    ys: Seq<Double>,
    a: Seq<int>,
    b: Seq<int>,
    kappa: int,
    h: int,
    m: int,
    w: int,
)
    requires
        xs.len() >= 2,
        whole(xs, a, w),
        whole(ys, b, w),
        on_line(a, b, -kappa, h),
        kappa != 0,
        sum_of(a) == m * a.len(),
        exists|i: int| 0 <= i < a.len() && #[trigger] a[i] != m,
        1 <= w,
        xs.len() * ((2 * w) * (2 * w)) <= 2 * BINADE,
    ensures
        crate::intensity::fitted(xs, ys).kappa == Double::of_int(kappa),
        crate::intensity::fitted(xs, ys).log_a.is_int(h),
{
    let c = -kappa;
    let n = xs.len() as int;
    let k = c * m + h;
    let t = (2 * w) * (2 * w);
    let i = choose|i: int| 0 <= i < a.len() && #[trigger] a[i] != m;
    assert(n * w <= n * t && n <= n * t && w <= n * w && t <= n * t) by (nonlinear_arith)
        requires
            t == (2 * w) * (2 * w),
            w >= 1,
            n >= 1,
    ;
    lemma_sum_on_line(a, b, c, h);
    assert(c * (m * n) + h * n == k * n) by (nonlinear_arith)
        requires
            k == c * m + h,
    ;
    lemma_mean(xs, a, m, w);
    lemma_mean(ys, b, k, w);
    let mx = crate::stats::mean_of(xs);
    let my = crate::stats::mean_of(ys);
    lemma_deviation(xs, ys, a, b, mx, my, m, k, w);
    lemma_deviation(xs, xs, a, a, mx, mx, m, m, w);
    lemma_spread_on_line(a, b, m, c, h);
    lemma_spread_is_positive(a, m);
    let s = spread_of(a, a, m, m);
    let sxy = crate::stats::deviation(xs, ys, mx, my);
    let sxx = crate::stats::deviation(xs, xs, mx, mx);
    assert(ys[i].is_int(b[i]) && -w <= b[i] <= w);
    let e = b[i] - k;
    let d = a[i] - m;
    assert(e == c * d) by (nonlinear_arith)
        requires
            e == (c * a[i] + h) - (c * m + h),
            d == a[i] - m,
    ;
    assert(-(2 * w) <= c <= 2 * w) by (nonlinear_arith)
        requires
            e == c * d,
            d != 0,
            -(2 * w) <= e <= 2 * w,
    ;
    assert(-t <= 2 * (c * m) <= t && 2 * w <= t) by (nonlinear_arith)
        requires
            -(2 * w) <= c <= 2 * w,
            -w <= m <= w,
            t == (2 * w) * (2 * w),
            w >= 1,
    ;
    crate::whole::lemma_is_int(sxx, s);
    crate::order::lemma_of_int(0);
    crate::whole::lemma_over_of_ints(sxy, sxx, c, s);
    let slope = sxy.over(sxx);
    crate::whole::lemma_is_int(slope, c);
    crate::order::lemma_of_int_negated(c);
    crate::whole::lemma_times_of_ints(slope, mx, c, m);
    crate::order::lemma_minus_of_ints(my, slope.times(mx), k, c * m);
}

/// Too few points have no line: neither the slope nor the explained part is a number
/// below three of them, nor is there a decay below two.
pub proof fn law_too_few_points_have_no_line(xs: Seq<Double>, ys: Seq<Double>)
    ensures
        xs.len() < 3 ==> crate::stats::regression(xs, ys).0.is_nan() && crate::stats::regression(
            xs,
            ys,
        ).1.is_nan(),
        xs.len() < 2 ==> crate::intensity::fitted(xs, ys).kappa.is_nan()
            && crate::intensity::fitted(xs, ys).log_a.is_nan(),
{
}

/// Points that do not spread have no line either: where all the moves are one whole
/// number, or all the imbalances are, the slope is not a number.
pub proof fn law_points_that_do_not_spread_have_no_line(
    xs: Seq<Double>,
    ys: Seq<Double>,
    a: Seq<int>,
    b: Seq<int>,
    x: int,
    y: int,
    w: int,
)
    requires
        xs.len() == ys.len() > 0,
        whole(xs, a, w),
        whole(ys, b, w),
        1 <= w,
        xs.len() * ((2 * w) * (2 * w)) <= 2 * BINADE,
        (forall|i: int| 0 <= i < a.len() ==> #[trigger] a[i] == x) || (forall|i: int|
            0 <= i < b.len() ==> #[trigger] b[i] == y),
    ensures
        crate::stats::regression(xs, ys).0.is_nan(),
        crate::stats::regression(xs, ys).1.is_nan(),
{
    if forall|i: int| 0 <= i < a.len() ==> #[trigger] a[i] == x {
        lemma_no_spread(xs, a, x, w);
    } else {
        lemma_no_spread(ys, b, y, w);
    }
}

proof fn lemma_constant(a: Seq<int>, x: int)
    requires
        forall|i: int| 0 <= i < a.len() ==> #[trigger] a[i] == x,
    ensures
        sum_of(a) == x * a.len(),
        spread_of(a, a, x, x) == 0,
    decreases a.len(),
{
    if a.len() == 0 {
        assert(x * 0 == 0) by (nonlinear_arith);
    } else {
        let n = a.len() as int;
        assert forall|i: int| 0 <= i < a.drop_last().len() implies #[trigger] a.drop_last()[i]
            == x by {
            assert(a.drop_last()[i] == a[i]);
        }
        lemma_constant(a.drop_last(), x);
        assert(a[n - 1] == x);
        assert(x * (n - 1) + x == x * n) by (nonlinear_arith);
        assert((x - x) * (x - x) == 0) by (nonlinear_arith);
    }
}

proof fn lemma_no_spread(xs: Seq<Double>, a: Seq<int>, x: int, w: int)
    requires
        whole(xs, a, w),
        xs.len() > 0,
        1 <= w,
        xs.len() * ((2 * w) * (2 * w)) <= 2 * BINADE,
        forall|i: int| 0 <= i < a.len() ==> #[trigger] a[i] == x,
    ensures
        ({
            let m = crate::stats::mean_of(xs);
            crate::stats::deviation(xs, xs, m, m).same(Double::of_int(0))
        }),
{
    let n = xs.len() as int;
    let t = (2 * w) * (2 * w);
    assert(n * w <= n * t && n <= n * t && w <= n * w) by (nonlinear_arith)
        requires
            t == (2 * w) * (2 * w),
            w >= 1,
            n >= 1,
    ;
    lemma_constant(a, x);
    lemma_mean(xs, a, x, w);
    let m = crate::stats::mean_of(xs);
    lemma_deviation(xs, xs, a, a, m, m, x, x, w);
    let d = crate::stats::deviation(xs, xs, m, m);
    crate::whole::lemma_is_int(d, 0);
    crate::order::lemma_of_int(0);
}

/// A number alone is its own sum and its own mean, its sign included; nothing has no
/// mean.
pub proof fn law_a_number_alone_is_its_own_mean(x: Double)
    requires
        x.is_finite(),
    ensures
        crate::stats::total(seq![x]) == x,
        crate::stats::mean_of(seq![x]) == x,
        crate::stats::mean_of(Seq::empty()).is_nan(),
{
    let zero = Double::of_int(0);
    let none = Seq::<Double>::empty();
    reveal_with_fuel(crate::stats::total, 2);
    assert(seq![x].drop_last() =~= none);
    assert(seq![x].last() == x);
    crate::order::lemma_of_int(0);
    crate::order::lemma_negated(zero);
    crate::order::lemma_plus(zero.negated(), x);
    assert(crate::rounding::units(0) == 0);
    crate::order::lemma_rounded_value(x);
    crate::order::lemma_rounded(x.value(), x.is_neg());
    assert(crate::stats::total(none) == zero.negated());
    if x.pattern() > 0 {
        crate::rounding::lemma_units_increasing(0, x.pattern());
    }
    lemma_over_one(x);
}

proof fn lemma_over_one(x: Double)
    requires
        x.is_finite(),
    ensures
        x.over(Double::of_int(1)) == x,
{
    let one = Double::of_int(1);
    let unit = pow2(1074);
    lemma_pow2_pos(1074);
    crate::order::lemma_of_int(1);
    crate::order::lemma_of_int_exact(1);
    crate::whole::lemma_is_int(one, 1);
    reveal(Double::over);
    assert(one.size() == unit) by {
        assert(1 * unit == unit);
    }
    assert(1 * unit == unit);
    crate::order::lemma_nearest_scale(x.size(), 1, unit);
    crate::rounding::lemma_nearest_of_units(x.pattern());
    crate::order::lemma_signed(x.is_neg(), x.pattern());
}

} // verus!
