//! What a markout is worth in hundredths of a percent.
use vstd::prelude::*;

use crate::book::Side;
use crate::double::Double;
use crate::ledger::Fill;
use crate::rounding::BINADE;

verus! {

/// A mid that has gone our way by `k` times the price marks a fill out at `k`
/// times ten thousand: up after we bought, down after we sold.
pub proof fn law_a_markout_is_the_move_over_the_price(fill: Fill, mid: Double, p: int, k: int)
    requires
        1 <= p <= 2 * BINADE,
        -(2 * BINADE) <= 10_000 * k <= 2 * BINADE,
        -(2 * BINADE) <= k * p <= 2 * BINADE,
        fill.price_usd.is_int(p),
        fill.side == Side::Bid ==> mid.is_int(p + k * p),
        fill.side == Side::Ask ==> mid.is_int(p - k * p),
    ensures
        crate::markout::markout_of(fill, mid).is_int(10_000 * k),
{
    let price = fill.price_usd;
    let s: int = if fill.side == Side::Bid {
        1
    } else {
        -1
    };
    let sign = Double::of_int(s);
    let d = s * (k * p);
    crate::order::lemma_of_int_exact(s);
    crate::order::lemma_of_int_exact(10_000);
    assert(d == k * p || d == -(k * p)) by (nonlinear_arith)
        requires
            d == s * (k * p),
            s == 1 || s == -1,
    ;
    assert(fill.side == Side::Bid || fill.side == Side::Ask);
    crate::order::lemma_minus_of_ints(mid, price, p + d, p);
    assert(s * d == k * p) by (nonlinear_arith)
        requires
            d == s * (k * p),
            s == 1 || s == -1,
    ;
    crate::whole::lemma_times_of_ints(sign, mid.minus(price), s, d);
    let x = sign.times(mid.minus(price));
    crate::whole::lemma_over_of_ints(x, price, k, p);
    crate::whole::lemma_times_of_ints(x.over(price), Double::of_int(10_000), k, 10_000);
}

/// At the horizon the mid has gone our way by `k` times the price of each fill.
pub open spec fn goes_our_way(
    fills: Seq<Fill>,
    mids: Seq<(i64, Double)>,
    horizon: int,
    p: Seq<int>,
    k: Seq<int>,
    w: int,
) -> bool {
    &&& fills.len() == p.len() == k.len()
    &&& mids.len() > 0
    &&& forall|i: int|
        0 <= i < fills.len() ==> {
            let fill = #[trigger] fills[i];
            &&& fill.ts + horizon <= mids.last().0
            &&& 1 <= p[i] <= 2 * BINADE
            &&& -w <= k[i] <= w
            &&& -(2 * BINADE) <= k[i] * p[i] <= 2 * BINADE
            &&& fill.price_usd.is_int(p[i])
            &&& crate::markout::mid_at(mids, fill.ts + horizon) matches Some(mid) && {
                &&& fill.side == Side::Bid ==> mid.is_int(p[i] + k[i] * p[i])
                &&& fill.side == Side::Ask ==> mid.is_int(p[i] - k[i] * p[i])
            }
        }
}

proof fn lemma_goes_our_way_rest(
    fills: Seq<Fill>,
    mids: Seq<(i64, Double)>,
    horizon: int,
    p: Seq<int>,
    k: Seq<int>,
    w: int,
)
    requires
        goes_our_way(fills, mids, horizon, p, k, w),
        fills.len() > 0,
    ensures
        goes_our_way(fills.drop_last(), mids, horizon, p.drop_last(), k.drop_last(), w),
{
    let rest = fills.drop_last();
    assert forall|i: int| 0 <= i < rest.len() implies {
        let fill = #[trigger] rest[i];
        &&& fill.ts + horizon <= mids.last().0
        &&& 1 <= p.drop_last()[i] <= 2 * BINADE
        &&& -w <= k.drop_last()[i] <= w
        &&& -(2 * BINADE) <= k.drop_last()[i] * p.drop_last()[i] <= 2 * BINADE
        &&& fill.price_usd.is_int(p.drop_last()[i])
        &&& crate::markout::mid_at(mids, fill.ts + horizon) matches Some(mid) && {
            &&& fill.side == Side::Bid ==> mid.is_int(
                p.drop_last()[i] + k.drop_last()[i] * p.drop_last()[i],
            )
            &&& fill.side == Side::Ask ==> mid.is_int(
                p.drop_last()[i] - k.drop_last()[i] * p.drop_last()[i],
            )
        }
    } by {
        assert(rest[i] == fills[i]);
    }
}

proof fn lemma_marked(
    fills: Seq<Fill>,
    mids: Seq<(i64, Double)>,
    horizon: int,
    p: Seq<int>,
    k: Seq<int>,
    w: int,
)
    requires
        goes_our_way(fills, mids, horizon, p, k, w),
        0 <= w,
        fills.len() * (10_000 * w) <= 2 * BINADE,
    ensures
        ({
            let (sum, n) = crate::markout::marked(fills, mids, horizon);
            &&& sum.is_int(10_000 * crate::line_laws::sum_of(k))
            &&& n == fills.len()
        }),
        -(fills.len() * w) <= crate::line_laws::sum_of(k) <= fills.len() * w,
    decreases fills.len(),
{
    let n = fills.len() as int;
    if n == 0 {
        crate::order::lemma_of_int_exact(0);
        assert(n * w == 0) by (nonlinear_arith)
            requires
                n == 0,
        ;
    } else {
        let fill = fills[n - 1];
        lemma_goes_our_way_rest(fills, mids, horizon, p, k, w);
        assert((n - 1) * w == n * w - w && (n - 1) * (10_000 * w) == n * (10_000 * w) - 10_000 * w
            && n * (10_000 * w) == 10_000 * (n * w) && w <= n * w) by (nonlinear_arith)
            requires
                n >= 1,
                w >= 0,
        ;
        lemma_marked(fills.drop_last(), mids, horizon, p.drop_last(), k.drop_last(), w);
        let mid = crate::markout::mid_at(mids, fill.ts + horizon)->0;
        law_a_markout_is_the_move_over_the_price(fill, mid, p[n - 1], k[n - 1]);
        let (sum, count) = crate::markout::marked(fills.drop_last(), mids, horizon);
        crate::order::lemma_plus_of_ints(
            sum,
            crate::markout::markout_of(fill, mid),
            10_000 * crate::line_laws::sum_of(k.drop_last()),
            10_000 * k.last(),
        );
    }
}

/// The markout of some fills is the mean of how far the mid went our way after
/// each of them, in units of its own price and in hundredths of a percent.
pub proof fn law_the_markout_is_the_mean_over_the_fills(
    fills: Seq<Fill>,
    mids: Seq<(i64, Double)>,
    horizon: int,
    p: Seq<int>,
    k: Seq<int>,
    m: int,
    w: int,
)
    requires
        fills.len() > 0,
        goes_our_way(fills, mids, horizon, p, k, w),
        crate::line_laws::sum_of(k) == m * fills.len(),
        1 <= w,
        fills.len() * (10_000 * w) <= 2 * BINADE,
    ensures
        crate::markout::markout(fills, mids, horizon).is_int(10_000 * m),
{
    let n = fills.len() as int;
    lemma_marked(fills, mids, horizon, p, k, w);
    assert(n <= n * (10_000 * w) && 10_000 * w <= n * (10_000 * w) && -w <= m <= w && 10_000 * (m
        * n) == (10_000 * m) * n && -(10_000 * (n * w)) <= (10_000 * m) * n <= 10_000 * (n * w)
        && 10_000 * (n * w) == n * (10_000 * w)) by (nonlinear_arith)
        requires
            n >= 1,
            w >= 1,
            -(n * w) <= m * n <= n * w,
    ;
    crate::order::lemma_of_int_exact(n);
    crate::whole::lemma_over_of_ints(
        crate::markout::marked(fills, mids, horizon).0,
        Double::of_int(n),
        10_000 * m,
        n,
    );
}

/// Without a fill whose horizon is reached there is no markout.
pub proof fn law_nothing_has_no_markout(mids: Seq<(i64, Double)>, horizon: int, fill: Fill)
    requires
        mids.len() == 0 || mids.last().0 < fill.ts + horizon,
    ensures
        crate::markout::markout(Seq::empty(), mids, horizon).is_nan(),
        crate::markout::markout(seq![fill], mids, horizon).is_nan(),
{
    reveal_with_fuel(crate::markout::marked, 2);
    assert(seq![fill].drop_last() =~= Seq::empty());
}

} // verus!
