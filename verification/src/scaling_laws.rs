//! A regression of moves that are twice as large.
use vstd::prelude::*;

use crate::double::Double;
use crate::measure::Moves;

verus! {

/// The number can be doubled twice.
pub open spec fn roomy(a: Double) -> bool {
    a.is_finite() && a.twice().is_finite() && a.twice().twice().is_finite()
}

/// A product or quotient of `a` that keeps all its digits, and is zero only
/// where it has to be.
pub open spec fn kept(r: Double, a: Double, b: Double) -> bool {
    &&& roomy(r)
    &&& crate::doubling::is_full(r)
    &&& r.pattern() == 0 ==> a.pattern() == 0 || b.pattern() == 0
}

/// No digit of the deviations is lost for want of range.
pub open spec fn deviates_well(xs: Seq<Double>, ys: Seq<Double>, mx: Double, my: Double) -> bool
    decreases xs.len(),
{
    if xs.len() == 0 || ys.len() == 0 {
        true
    } else {
        let dx = xs.last().minus(mx);
        let dy = ys.last().minus(my);
        &&& deviates_well(xs.drop_last(), ys.drop_last(), mx, my)
        &&& roomy(xs.last())
        &&& roomy(ys.last())
        &&& roomy(dx)
        &&& roomy(dy)
        &&& kept(dx.times(dy), dx, dy)
        &&& roomy(crate::stats::deviation(xs, ys, mx, my))
    }
}

/// No digit of the sum is lost for want of range.
pub open spec fn adds_well(xs: Seq<Double>) -> bool
    decreases xs.len(),
{
    if xs.len() == 0 {
        true
    } else {
        adds_well(xs.drop_last()) && roomy(xs.last()) && roomy(crate::stats::total(xs))
    }
}

pub open spec fn all_twice(xs: Seq<Double>) -> Seq<Double> {
    Seq::new(xs.len(), |i: int| xs[i].twice())
}

proof fn lemma_all_twice_rest(xs: Seq<Double>)
    requires
        xs.len() > 0,
    ensures
        all_twice(xs).drop_last() == all_twice(xs.drop_last()),
        all_twice(xs).last() == xs.last().twice(),
{
    assert(all_twice(xs).drop_last() =~= all_twice(xs.drop_last()));
}

proof fn lemma_zero_twice()
    ensures
        roomy(Double::of_int(0)),
        Double::of_int(0).twice() == Double::of_int(0),
        roomy(Double::of_int(0).negated()),
        Double::of_int(0).negated().twice() == Double::of_int(0).negated(),
{
    let zero = Double::of_int(0);
    crate::order::lemma_of_int(0);
    crate::order::lemma_negated(zero);
    crate::doubling::lemma_twice(zero);
    crate::doubling::lemma_twice(zero.negated());
}

proof fn lemma_total_twice(xs: Seq<Double>)
    requires
        adds_well(xs),
    ensures
        crate::stats::total(all_twice(xs)) == crate::stats::total(xs).twice(),
        roomy(crate::stats::total(xs)),
    decreases xs.len(),
{
    lemma_zero_twice();
    if xs.len() > 0 {
        lemma_all_twice_rest(xs);
        lemma_total_twice(xs.drop_last());
        crate::doubling::lemma_plus_twice(crate::stats::total(xs.drop_last()), xs.last());
    }
}

/// Doubling the one side of the deviations doubles their sum.
proof fn lemma_deviation_twice(xs: Seq<Double>, ys: Seq<Double>, mx: Double, my: Double)
    requires
        deviates_well(xs, ys, mx, my),
        xs.len() == ys.len(),
        mx.is_finite(),
        roomy(my),
    ensures
        crate::stats::deviation(xs, all_twice(ys), mx, my.twice()) == crate::stats::deviation(
            xs,
            ys,
            mx,
            my,
        ).twice(),
        roomy(crate::stats::deviation(xs, ys, mx, my)),
    decreases xs.len(),
{
    lemma_zero_twice();
    if xs.len() > 0 {
        let dx = xs.last().minus(mx);
        let dy = ys.last().minus(my);
        lemma_all_twice_rest(ys);
        lemma_deviation_twice(xs.drop_last(), ys.drop_last(), mx, my);
        crate::doubling::lemma_minus_twice(ys.last(), my);
        crate::order::lemma_times_commutes(dx, dy);
        crate::order::lemma_times_commutes(dx, dy.twice());
        crate::doubling::lemma_times_twice(dy, dx);
        crate::doubling::lemma_plus_twice(
            crate::stats::deviation(xs.drop_last(), ys.drop_last(), mx, my),
            dx.times(dy),
        );
    }
}

/// Doubling both sides of the deviations doubles their sum twice.
proof fn lemma_deviation_twice_twice(ys: Seq<Double>, my: Double)
    requires
        deviates_well(ys, ys, my, my),
        roomy(my),
    ensures
        crate::stats::deviation(all_twice(ys), all_twice(ys), my.twice(), my.twice())
            == crate::stats::deviation(ys, ys, my, my).twice().twice(),
        roomy(crate::stats::deviation(ys, ys, my, my)),
    decreases ys.len(),
{
    lemma_zero_twice();
    if ys.len() > 0 {
        let dy = ys.last().minus(my);
        let t = dy.times(dy);
        let s = crate::stats::deviation(ys.drop_last(), ys.drop_last(), my, my);
        lemma_all_twice_rest(ys);
        lemma_deviation_twice_twice(ys.drop_last(), my);
        crate::doubling::lemma_minus_twice(ys.last(), my);
        lemma_product_twice_twice(dy);
        crate::doubling::lemma_plus_twice(s, t);
        crate::doubling::lemma_plus_twice(s.twice(), t.twice());
    }
}

proof fn lemma_full_twice(r: Double)
    requires
        r.is_finite(),
        r.twice().is_finite(),
        crate::doubling::is_full(r),
    ensures
        crate::doubling::is_full(r.twice()),
        r.twice().pattern() == 0 <==> r.pattern() == 0,
{
    crate::doubling::lemma_twice(r);
}

proof fn lemma_product_twice_twice(a: Double)
    requires
        a.is_finite(),
        a.twice().is_finite(),
        kept(a.times(a), a, a),
    ensures
        a.twice().times(a.twice()) == a.times(a).twice().twice(),
{
    crate::doubling::lemma_times_twice(a, a);
    crate::order::lemma_times_commutes(a.twice(), a);
    lemma_full_twice(a.times(a));
    crate::doubling::lemma_times_twice(a, a.twice());
}

/// Nothing that a regression computes on the way loses a digit for want of
/// range.
pub open spec fn regresses_well(xs: Seq<Double>, ys: Seq<Double>) -> bool {
    let mx = crate::stats::mean_of(xs);
    let my = crate::stats::mean_of(ys);
    let sxy = crate::stats::deviation(xs, ys, mx, my);
    let sxx = crate::stats::deviation(xs, xs, mx, mx);
    let syy = crate::stats::deviation(ys, ys, my, my);
    &&& xs.len() == ys.len()
    &&& 3 <= xs.len() <= u64::MAX
    &&& mx.is_finite()
    &&& adds_well(ys)
    &&& kept(my, crate::stats::total(ys), crate::stats::total(ys))
    &&& deviates_well(xs, ys, mx, my)
    &&& deviates_well(ys, ys, my, my)
    &&& sxx.is_finite()
    &&& sxx.non_negative()
    &&& sxx.pattern() > 0
    &&& syy.pattern() > 0
    &&& kept(sxy.over(sxx), sxy, sxy)
    &&& kept(sxy.times(sxy), sxy, sxy)
    &&& kept(sxx.times(syy), sxx, syy)
}

/// Moves that are twice as large have twice the slope, and as much of their
/// variance is explained.
pub proof fn law_twice_the_moves_have_twice_the_slope(xs: Seq<Double>, ys: Seq<Double>)
    requires
        regresses_well(xs, ys),
    ensures
        ({
            let one = crate::stats::regression(xs, ys);
            let other = crate::stats::regression(xs, all_twice(ys));
            other == (one.0.twice(), one.1)
        }),
{
    let n = ys.len() as int;
    let mx = crate::stats::mean_of(xs);
    let my = crate::stats::mean_of(ys);
    let sxy = crate::stats::deviation(xs, ys, mx, my);
    let sxx = crate::stats::deviation(xs, xs, mx, mx);
    let syy = crate::stats::deviation(ys, ys, my, my);
    crate::order::lemma_of_int(n);
    crate::order::lemma_of_int(0);
    lemma_total_twice(ys);
    crate::doubling::lemma_over_twice(crate::stats::total(ys), Double::of_int(n));
    assert(crate::stats::mean_of(all_twice(ys)) == my.twice());
    lemma_deviation_twice(xs, ys, mx, my);
    lemma_deviation_twice_twice(ys, my);
    crate::doubling::lemma_twice(syy);
    crate::doubling::lemma_twice(syy.twice());
    assert(syy.twice().twice().pattern() > 0);
    crate::doubling::lemma_over_twice(sxy, sxx);
    lemma_product_twice_twice(sxy);
    let u = sxy.times(sxy);
    let v = sxx.times(syy);
    crate::order::lemma_times_commutes(sxx, syy);
    crate::order::lemma_times_commutes(sxx, syy.twice());
    crate::order::lemma_times_commutes(sxx, syy.twice().twice());
    crate::doubling::lemma_times_twice(syy, sxx);
    lemma_full_twice(v);
    crate::doubling::lemma_times_twice(syy.twice(), sxx);
    crate::doubling::lemma_twice(v);
    crate::doubling::lemma_twice_over_twice(u, v);
    crate::doubling::lemma_twice_over_twice(u.twice(), v.twice());
}

/// The same moments, each with twice the mid.
pub open spec fn mids_twice(mids: Seq<(i64, Double)>) -> Seq<(i64, Double)> {
    Seq::new(mids.len(), |i: int| (mids[i].0, mids[i].1.twice()))
}

proof fn lemma_mid_twice(mids: Seq<(i64, Double)>, ts: int)
    ensures
        crate::markout::mid_at(mids_twice(mids), ts) is Some <==> crate::markout::mid_at(
            mids,
            ts,
        ) is Some,
        crate::markout::mid_at(mids, ts) matches Some(mid) ==> crate::markout::mid_at(
            mids_twice(mids),
            ts,
        ) == Some(mid.twice()),
        crate::markout::mid_at(mids, ts) matches Some(mid) ==> exists|i: int|
            0 <= i < mids.len() && #[trigger] mids[i].1 == mid,
    decreases mids.len(),
{
    if mids.len() > 0 {
        assert(mids_twice(mids).drop_last() =~= mids_twice(mids.drop_last()));
        lemma_mid_twice(mids.drop_last(), ts);
        if mids.last().0 <= ts {
            assert(mids[mids.len() - 1].1 == mids.last().1);
        } else if let Some(mid) = crate::markout::mid_at(mids, ts) {
            let i = choose|i: int|
                0 <= i < mids.drop_last().len() && #[trigger] mids.drop_last()[i].1 == mid;
            assert(mids[i].1 == mid);
        }
    }
}

/// The imbalances that are held against the moves are those of the samples:
/// they do not change when the mids do. The moves double with the mids.
proof fn lemma_moves_twice(samples: Seq<(i64, Double)>, mids: Seq<(i64, Double)>, horizon: i64)
    requires
        forall|i: int| 0 <= i < mids.len() ==> roomy((#[trigger] mids[i]).1),
        ({
            let moves = Moves::of(samples, mids, horizon);
            forall|i: int| 0 <= i < moves.ys.len() ==> roomy(#[trigger] moves.ys[i])
        }),
    ensures
        ({
            let one = Moves::of(samples, mids, horizon);
            let other = Moves::of(samples, mids_twice(mids), horizon);
            &&& other.xs == one.xs
            &&& other.ys == all_twice(one.ys)
        }),
    decreases samples.len(),
{
    let doubled = mids_twice(mids);
    let one = Moves::of(samples, mids, horizon);
    let other = Moves::of(samples, doubled, horizon);
    if samples.len() == 0 {
        assert(other.ys =~= all_twice(one.ys));
    } else {
        let rest = samples.drop_last();
        let sample = samples.last();
        let before = Moves::of(rest, mids, horizon);
        lemma_mid_twice(mids, sample.0 as int);
        lemma_mid_twice(mids, sample.0 + horizon);
        assert forall|i: int| 0 <= i < before.ys.len() implies roomy(#[trigger] before.ys[i]) by {
            assert(one.ys[i] == before.ys[i]);
        }
        lemma_moves_twice(rest, mids, horizon);
        if mids.len() > 0 {
            assert(doubled.last().0 == mids.last().0);
        }
        if one.ys.len() > before.ys.len() {
            let now = crate::markout::mid_at(mids, sample.0 as int)->0;
            let later = crate::markout::mid_at(mids, sample.0 + horizon)->0;
            let gain = later.minus(now);
            assert(one.ys == before.ys.push(gain));
            assert(one.ys[before.ys.len() as int] == gain);
            let i = choose|i: int| 0 <= i < mids.len() && #[trigger] mids[i].1 == now;
            let j = choose|j: int| 0 <= j < mids.len() && #[trigger] mids[j].1 == later;
            assert(roomy(mids[i].1) && roomy(mids[j].1));
            crate::doubling::lemma_minus_twice(later, now);
            assert(all_twice(before.ys.push(gain)) =~= all_twice(before.ys).push(gain.twice()));
        }
    }
}

/// A market whose every mid is twice as high has twice the slope, in USD per unit
/// of imbalance, and as much of its variance is explained.
pub proof fn law_twice_the_mids_have_twice_the_slope(
    samples: Seq<(i64, Double)>,
    mids: Seq<(i64, Double)>,
    horizon: i64,
)
    requires
        forall|i: int| 0 <= i < mids.len() ==> roomy((#[trigger] mids[i]).1),
        ({
            let moves = Moves::of(samples, mids, horizon);
            &&& forall|i: int| 0 <= i < moves.ys.len() ==> roomy(#[trigger] moves.ys[i])
            &&& regresses_well(moves.xs, moves.ys)
        }),
    ensures
        ({
            let one = Moves::of(samples, mids, horizon);
            let other = Moves::of(samples, mids_twice(mids), horizon);
            let (slope, r2) = crate::stats::regression(one.xs, one.ys);
            crate::stats::regression(other.xs, other.ys) == (slope.twice(), r2)
        }),
{
    let one = Moves::of(samples, mids, horizon);
    lemma_moves_twice(samples, mids, horizon);
    law_twice_the_moves_have_twice_the_slope(one.xs, one.ys);
}

} // verus!
