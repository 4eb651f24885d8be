//! What the numbers of the study say of the runs behind them.
use vstd::prelude::*;

use crate::desk::Desk;
use crate::double::Double;
use crate::event::{Event, EventView};
use crate::queue::QueueModel;
use crate::quoters::{GlftQuoter, JoinTouch, Signal, SignalQuoter, Symmetric};
use crate::rounding::BINADE;
use crate::study::{Compared, Gaps, Row, Rule, Setting};

verus! {

/// An interval leaves out zero exactly where zero is not between its ends.
pub proof fn law_an_interval_leaves_out_what_is_not_between_its_ends(ci: (Double, Double))
    requires
        ci.0.at_most(ci.1),
    ensures
        !crate::study::leaves_out_zero(ci) <==> ci.0.at_most(Double::of_int(0)) && Double::of_int(
            0,
        ).at_most(ci.1),
{
    crate::order::lemma_of_int(0);
}

/// A gain and a loss of the same size are told from zero alike: an interval
/// turned about zero leaves zero out where the interval did.
pub proof fn law_turning_an_interval_about_zero_changes_nothing(ci: (Double, Double))
    requires
        !ci.0.is_nan(),
        !ci.1.is_nan(),
    ensures
        crate::study::leaves_out_zero((ci.1.negated(), ci.0.negated()))
            == crate::study::leaves_out_zero(ci),
{
    crate::order::lemma_of_int(0);
    crate::order::lemma_negated(ci.0);
    crate::order::lemma_negated(ci.1);
}

/// An interval of gains alone leaves out zero, and so does one of losses alone.
pub proof fn law_gains_alone_and_losses_alone_leave_out_zero(ci: (Double, Double))
    requires
        ci.0.at_most(ci.1),
    ensures
        Double::of_int(0).below(ci.0) ==> crate::study::leaves_out_zero(ci),
        ci.1.below(Double::of_int(0)) ==> crate::study::leaves_out_zero(ci),
{
    crate::order::lemma_of_int(0);
}

/// The run that is picked is one of the day, the rule and the model that are
/// asked for, no other such run stands before it, and one is found wherever there
/// is one.
pub proof fn law_the_first_run_of_its_kind_is_picked(
    rows: Seq<Row>,
    day: usize,
    rule: Rule,
    model: QueueModel,
)
    ensures
        crate::study::picked(rows, day, rule, model) matches Some(row) ==> exists|i: int|
            {
                &&& 0 <= i < rows.len()
                &&& #[trigger] rows[i] == row
                &&& row.day == day
                &&& row.rule == rule
                &&& row.model == model
                &&& forall|j: int|
                    0 <= j < i ==> (#[trigger] rows[j]).day != day || rows[j].rule != rule
                        || rows[j].model != model
            },
        crate::study::picked(rows, day, rule, model) is None ==> forall|j: int|
            0 <= j < rows.len() ==> (#[trigger] rows[j]).day != day || rows[j].rule != rule
                || rows[j].model != model,
    decreases rows.len(),
{
    if rows.len() > 0 && !rows[0].is_of(day, rule, model) {
        let rest = rows.drop_first();
        law_the_first_run_of_its_kind_is_picked(rest, day, rule, model);
        assert forall|j: int| 0 < j < rows.len() implies rows[j] == #[trigger] rest[j - 1] by {}
        if let Some(row) = crate::study::picked(rows, day, rule, model) {
            let i = choose|i: int|
                {
                    &&& 0 <= i < rest.len()
                    &&& #[trigger] rest[i] == row
                    &&& row.day == day
                    &&& row.rule == rule
                    &&& row.model == model
                    &&& forall|j: int|
                        0 <= j < i ==> (#[trigger] rest[j]).day != day || rest[j].rule != rule
                            || rest[j].model != model
                };
            assert(rows[i + 1] == row);
            assert forall|j: int| 0 <= j < i + 1 implies (#[trigger] rows[j]).day != day
                || rows[j].rule != rule || rows[j].model != model by {
                if j > 0 {
                    assert(rows[j] == rest[j - 1]);
                }
            }
        } else {
            assert forall|j: int| 0 <= j < rows.len() implies (#[trigger] rows[j]).day != day
                || rows[j].rule != rule || rows[j].model != model by {
                if j > 0 {
                    assert(rows[j] == rest[j - 1]);
                }
            }
        }
    }
}

/// The overstatement is counted in naive profits: where the naive profit is above
/// the other by `k` times its own size, it is `k`.
pub proof fn law_the_overstatement_is_counted_in_naive_profits(
    naive: Row,
    queue: Row,
    p: int,
    q: int,
    k: int,
)
    requires
        naive.pnl_btc.is_int(p),
        queue.pnl_btc.is_int(q),
        p != 0,
        -(2 * BINADE) <= p <= 2 * BINADE,
        -(2 * BINADE) <= p - q <= 2 * BINADE,
        p - q == k * (if p < 0 { -p } else { p }),
    ensures
        crate::study::overstated(naive, queue) matches Some(x) && x.is_int(k),
{
    let size = naive.pnl_btc.magnitude();
    let m = if p < 0 {
        -p
    } else {
        p
    };
    crate::order::lemma_of_int(0);
    crate::whole::lemma_is_int(naive.pnl_btc, p);
    crate::order::lemma_negated(naive.pnl_btc);
    let unit = vstd::arithmetic::power2::pow2(1074) as int;
    assert((-p) * unit == -(p * unit)) by (nonlinear_arith);
    assert(size.is_int(m));
    assert(-(2 * BINADE) <= k <= 2 * BINADE) by (nonlinear_arith)
        requires
            p - q == k * m,
            m >= 1,
            -(2 * BINADE) <= p - q <= 2 * BINADE,
    ;
    crate::order::lemma_minus_of_ints(naive.pnl_btc, queue.pnl_btc, p, q);
    crate::whole::lemma_over_of_ints(naive.pnl_btc.minus(queue.pnl_btc), size, k, m);
}

/// Nothing is overstated where there is no naive profit and no naive loss.
pub proof fn law_nothing_overstates_no_profit(naive: Row, queue: Row)
    ensures
        crate::study::overstated(naive, queue) is None <==> naive.pnl_btc.is_nan()
            || naive.pnl_btc.pattern() == 0,
{
    crate::order::lemma_of_int(0);
}

/// `k` times as many fills are an inflation of `k`; against no fills there is none.
pub proof fn law_the_inflation_is_the_ratio_of_the_fills(naive: Row, queue: Row, k: int)
    requires
        naive.fills == k * queue.fills,
        naive.fills <= 2 * BINADE,
        queue.fills <= 2 * BINADE,
    ensures
        queue.fills > 0 ==> crate::study::inflated(naive, queue) == Some(Double::of_int(k)),
        queue.fills == 0 ==> crate::study::inflated(naive, queue) is None,
{
    let n = queue.fills as int;
    if n > 0 {
        assert(0 <= k <= 2 * BINADE) by (nonlinear_arith)
            requires
                0 <= k * n <= 2 * BINADE,
                n >= 1,
        ;
        crate::order::lemma_of_int_exact(k * n);
        crate::order::lemma_of_int_exact(n);
        crate::order::lemma_of_int(k * n);
        crate::order::lemma_of_int(n);
        crate::order::lemma_of_int(k);
        let x = Double::of_int(k * n).over(Double::of_int(n));
        crate::whole::lemma_over_of_ints(Double::of_int(k * n), Double::of_int(n), k, n);
        crate::whole::lemma_is_int(x, k);
    }
}

/// Each day is held against itself, for the quoter that joins the touch: the naive
/// run of the day against the day's run under the model.
pub proof fn law_each_day_is_held_against_itself(
    rows: Seq<Row>,
    model: QueueModel,
    naive: Seq<Row>,
    queue: Seq<Row>,
)
    requires
        naive.len() == queue.len() <= usize::MAX,
        forall|d: int|
            0 <= d < naive.len() ==> {
                &&& crate::study::picked(rows, d as usize, Rule::Touch, QueueModel::Naive) == Some(
                    #[trigger] naive[d],
                )
                &&& crate::study::picked(rows, d as usize, Rule::Touch, model) == Some(queue[d])
                &&& Double::of_int(0).below(naive[d].pnl_btc.magnitude())
                &&& queue[d].fills > 0
            },
    ensures
        ({
            let all = Compared::of(rows, naive.len(), model);
            &&& all.overstatements.len() == naive.len()
            &&& all.naive_pnl.len() == naive.len()
            &&& all.inflations.len() == naive.len()
            &&& forall|d: int|
                0 <= d < naive.len() ==> #[trigger] all.overstatements[d]
                    == naive[d].pnl_btc.minus(queue[d].pnl_btc).over(naive[d].pnl_btc.magnitude())
            &&& forall|d: int|
                0 <= d < naive.len() ==> #[trigger] all.naive_pnl[d] == naive[d].pnl_btc
            &&& forall|d: int|
                0 <= d < naive.len() ==> #[trigger] all.inflations[d] == Double::of_int(
                    naive[d].fills as int,
                ).over(Double::of_int(queue[d].fills as int))
        }),
    decreases naive.len(),
{
    if naive.len() > 0 {
        let n = naive.len() - 1;
        let a = naive.drop_last();
        let b = queue.drop_last();
        assert forall|d: int| 0 <= d < a.len() implies {
            &&& crate::study::picked(rows, d as usize, Rule::Touch, QueueModel::Naive) == Some(
                #[trigger] a[d],
            )
            &&& crate::study::picked(rows, d as usize, Rule::Touch, model) == Some(b[d])
            &&& Double::of_int(0).below(a[d].pnl_btc.magnitude())
            &&& b[d].fills > 0
        } by {
            assert(a[d] == naive[d]);
        }
        law_each_day_is_held_against_itself(rows, model, a, b);
        let rest = Compared::of(rows, n as nat, model);
        let all = Compared::of(rows, naive.len(), model);
        assert(naive[n].pnl_btc == naive.last().pnl_btc);
        assert forall|d: int| 0 <= d < naive.len() implies {
            &&& #[trigger] all.overstatements[d] == naive[d].pnl_btc.minus(queue[d].pnl_btc).over(
                naive[d].pnl_btc.magnitude(),
            )
        } by {
            if d < n {
                assert(all.overstatements[d] == rest.overstatements[d]);
                assert(a[d] == naive[d] && b[d] == queue[d]);
            }
        }
        assert forall|d: int| 0 <= d < naive.len() implies #[trigger] all.naive_pnl[d]
            == naive[d].pnl_btc by {
            if d < n {
                assert(all.naive_pnl[d] == rest.naive_pnl[d]);
                assert(a[d] == naive[d] && b[d] == queue[d]);
            }
        }
        assert forall|d: int| 0 <= d < naive.len() implies #[trigger] all.inflations[d]
            == Double::of_int(naive[d].fills as int).over(
            Double::of_int(queue[d].fills as int),
        ) by {
            if d < n {
                assert(all.inflations[d] == rest.inflations[d]);
                assert(a[d] == naive[d] && b[d] == queue[d]);
            }
        }
    }
}

/// The profits of a rule under a model are those of its runs, one a day and in
/// the order of the days.
pub proof fn law_profits_come_in_the_order_of_the_days(
    rows: Seq<Row>,
    rule: Rule,
    model: QueueModel,
    runs: Seq<Row>,
)
    requires
        runs.len() <= usize::MAX,
        forall|d: int|
            0 <= d < runs.len() ==> crate::study::picked(rows, d as usize, rule, model) == Some(
                #[trigger] runs[d],
            ),
    ensures
        crate::study::profits_of(rows, runs.len(), rule, model) == runs.map_values(
            |row: Row| row.pnl_btc,
        ),
    decreases runs.len(),
{
    let profits = crate::study::profits_of(rows, runs.len(), rule, model);
    if runs.len() > 0 {
        let rest = runs.drop_last();
        assert forall|d: int| 0 <= d < rest.len() implies crate::study::picked(
            rows,
            d as usize,
            rule,
            model,
        ) == Some(#[trigger] rest[d]) by {
            assert(rest[d] == runs[d]);
        }
        law_profits_come_in_the_order_of_the_days(rows, rule, model, rest);
        assert(runs[runs.len() - 1] == runs.last());
    }
    assert(profits =~= runs.map_values(|row: Row| row.pnl_btc));
}

/// None of the events is a snapshot.
pub open spec fn without_snapshots(events: Seq<EventView>) -> bool {
    forall|i: int| 0 <= i < events.len() ==> !((#[trigger] events[i]) is Snapshot)
}

proof fn lemma_gap_stays_open(before: Seq<EventView>, events: Seq<EventView>)
    requires
        without_snapshots(events),
        Gaps::of(before).since is Some,
    ensures
        Gaps::of(before + events) == Gaps::of(before),
    decreases events.len(),
{
    if events.len() == 0 {
        assert(before + events =~= before);
    } else {
        let rest = events.drop_last();
        assert((before + events).drop_last() =~= before + rest);
        assert((before + events).last() == events[events.len() - 1]);
        assert forall|i: int| 0 <= i < rest.len() implies !((#[trigger] rest[i]) is Snapshot) by {
            assert(rest[i] == events[i]);
        }
        lemma_gap_stays_open(before, rest);
    }
}

/// A gap lasts until the next snapshot, whatever comes in between, and a gap that
/// no snapshot ends lasts until the last event. Time that runs backwards is none.
pub proof fn law_a_gap_lasts_until_the_next_snapshot(
    before: Seq<EventView>,
    gap: EventView,
    between: Seq<EventView>,
    snapshot: EventView,
)
    requires
        Gaps::of(before).since is None,
        gap is Gap,
        without_snapshots(between),
        snapshot is Snapshot,
    ensures
        ({
            let open = before.push(gap) + between;
            let all = open.push(snapshot);
            &&& Gaps::of(all).since is None
            &&& Gaps::time(all) - Gaps::time(before) == if gap.time() <= snapshot.time() {
                snapshot.time() - gap.time()
            } else {
                0
            }
            &&& Gaps::time(open) - Gaps::time(before) == if gap.time() <= open.last().time() {
                open.last().time() - gap.time()
            } else {
                0
            }
        }),
{
    let opened = before.push(gap);
    let open = opened + between;
    let all = open.push(snapshot);
    assert(opened.drop_last() =~= before);
    lemma_gap_stays_open(opened, between);
    assert(all.drop_last() =~= open);
}

/// A feed without gaps spent no time in them, and no feed spent less than none.
pub proof fn law_only_gaps_take_time(events: Seq<EventView>)
    ensures
        Gaps::time(events) >= 0,
        Gaps::of(events).total >= 0,
        crate::replay_laws::without_gaps(events) ==> Gaps::time(events) == 0 && Gaps::of(
            events,
        ).since is None && Gaps::of(events).total == 0,
    decreases events.len(),
{
    if events.len() > 0 {
        law_only_gaps_take_time(events.drop_last());
        if crate::replay_laws::without_gaps(events) {
            assert(!(events[events.len() - 1] is Gap));
            assert forall|i: int| 0 <= i < events.drop_last().len() implies !((
            #[trigger] events.drop_last()[i]) is Gap) by {
                assert(events.drop_last()[i] == events[i]);
            }
        }
    }
}

/// A row tells of its run what the account at the end tells: the profit is what the
/// account holds less the position at the last mid up to the end, the markout is that
/// of its fills a second later, and fills, fees and the time of standing down are as
/// they were counted.
pub proof fn law_a_row_sums_up_its_run(row: Row, desk: Desk, last_ts: i64)
    requires
        crate::study::sums_up(row, desk, last_ts),
        crate::desk_laws::one_per_moment(desk.mids),
    ensures
        match crate::markout::mid_at(desk.mids, last_ts as int) {
            Some(mid) => row.pnl_btc == desk.account.cash.minus(
                Double::of_int(desk.account.position).over(mid),
            ),
            None => row.pnl_btc.is_nan(),
        },
        row.markout_1s == crate::markout::markout(desk.account.fills, desk.mids, 1_000),
        row.fills == desk.account.fills.len(),
        row.fees_btc == desk.account.fees,
        row.halted_ms == desk.halted_ms,
{
    let mids = choose|mids: Seq<(i64, Double)>|
        {
            &&& #[trigger] crate::sort::is_stable_sort(desk.mids, mids)
            &&& row.pnl_btc == match crate::markout::mid_at(mids, last_ts as int) {
                Some(mid) => desk.account.worth(mid),
                None => Double::nan(),
            }
            &&& row.fills == desk.account.fills.len()
            &&& row.fees_btc == desk.account.fees
            &&& row.markout_1s == crate::markout::markout(desk.account.fills, mids, 1_000)
            &&& row.halted_ms == desk.halted_ms
        };
    assert(crate::sort::is_stable_sort(desk.mids, desk.mids));
    crate::sort::law_a_stable_sort_is_unique(desk.mids, mids, desk.mids);
}

/// The runs of the grid differ from one another in the fill model and the rule alone:
/// every run decides each tenth of a second and is otherwise set as it was asked for.
pub proof fn law_only_the_model_of_the_settings_changes(setting: Setting, model: QueueModel)
    ensures
        ({
            let cfg = setting.config(model);
            &&& cfg.model == model
            &&& cfg.requote_ms == 100
            &&& cfg.latency_ms == setting.base.latency_ms
            &&& cfg.maker_fee == setting.base.maker_fee
            &&& cfg.tick_size == setting.base.tick_size
            &&& cfg.max_position == setting.base.max_position
        }),
{
}

/// The places of the grid are those of the touch, the signal, the control and the
/// inventory model, and a row says of which day, rule and model it is.
pub proof fn law_a_row_says_of_which_run_it_is(
    setting: Setting,
    row: Row,
    day: usize,
    events: Seq<Event>,
    model: QueueModel,
    k: int,
)
    requires
        0 <= k < 4,
        setting.gives(Some(row), day, events, model, k),
    ensures
        row.day == day,
        row.model == model,
        k == 0 <==> row.rule == Rule::Touch,
        k == 1 <==> row.rule == Rule::Signal,
        k == 2 <==> row.rule == Rule::Symmetric,
        k == 3 <==> row.rule == Rule::Glft,
{
}

/// The touch is joined at the best prices themselves, the control quotes two ticks to
/// each side, and the inventory model is the one of the setting; all of them in the
/// size of the setting.
pub proof fn law_the_quoters_of_the_grid_are_those_of_the_setting(
    setting: Setting,
    r: Option<Row>,
    day: usize,
    events: Seq<Event>,
    model: QueueModel,
    k: int,
)
    requires
        setting.gives(r, day, events, model, k),
    ensures
        k == 0 ==> exists|after: JoinTouch| #[trigger]
            crate::study::ran(
                (JoinTouch { offset_ticks: 0, size: setting.size }),
                after,
                day,
                Rule::Touch,
                setting.config(model),
                events,
                r,
            ),
        k == 2 ==> exists|after: Symmetric| #[trigger]
            crate::study::ran(
                (Symmetric { half_spread_ticks: 2, size: setting.size }),
                after,
                day,
                Rule::Symmetric,
                setting.config(model),
                events,
                r,
            ),
        k == 3 ==> exists|after: GlftQuoter| #[trigger]
            crate::study::ran(
                (GlftQuoter { model: setting.glft, terms: setting.terms, size: setting.size }),
                after,
                day,
                Rule::Glft,
                setting.config(model),
                events,
                r,
            ),
{
}

/// Every rule has a name of its own.
pub proof fn law_rules_are_told_apart_by_their_names(a: Rule, b: Rule)
    ensures
        crate::study::rule_text(a) == crate::study::rule_text(b) ==> a == b,
{
    reveal_strlit("touch");
    reveal_strlit("signal");
    reveal_strlit("symmetric");
    reveal_strlit("glft");
    assert("touch"@.len() == 5);
    assert("signal"@.len() == 6);
    assert("symmetric"@.len() == 9);
    assert("glft"@.len() == 4);
}

/// What a quoter reports counts as pulled exactly where its name begins with that word,
/// and then with its number.
pub proof fn law_only_what_was_pulled_is_counted(
    report: Seq<(&'static str, Double)>,
    name: &'static str,
    value: Double,
)
    ensures
        "pulled"@.is_prefix_of(name@) ==> crate::study::pulled_in(report.push((name, value)))
            == crate::study::pulled_in(report).plus(value),
        !"pulled"@.is_prefix_of(name@) ==> crate::study::pulled_in(report.push((name, value)))
            == crate::study::pulled_in(report),
{
    assert(report.push((name, value)).drop_last() =~= report);
}

/// A day without a naive profit or loss is no day of overstatement, but its fills count
/// all the same; a day that lacks one of the two runs does not count at all.
pub proof fn law_a_day_counts_for_what_it_has(
    rows: Seq<Row>,
    days: nat,
    model: QueueModel,
)
    requires
        days < usize::MAX,
    ensures
        ({
            let before = Compared::of(rows, days, model);
            let after = Compared::of(rows, days + 1, model);
            match (
                crate::study::picked(rows, days as usize, Rule::Touch, QueueModel::Naive),
                crate::study::picked(rows, days as usize, Rule::Touch, model),
            ) {
                (Some(naive), Some(queue)) => {
                    let profits = !naive.pnl_btc.is_nan() && naive.pnl_btc.pattern() > 0;
                    let n: int = if profits {
                        1
                    } else {
                        0
                    };
                    &&& after.overstatements.len() == before.overstatements.len() + n
                    &&& after.naive_pnl.len() == before.naive_pnl.len() + n
                    &&& after.inflations.len() - before.inflations.len() == if queue.fills > 0 {
                        1int
                    } else {
                        0
                    }
                },
                _ => after == before,
            }
        }),
{
    crate::order::lemma_of_int(0);
}

/// Fewer than three imbalances have no spread; three or more have that of their sample.
pub proof fn law_a_spread_takes_three(xs: Seq<Double>)
    ensures
        crate::study::spread_of(xs) is Some <==> 3 <= xs.len(),
        3 <= xs.len() ==> crate::study::spread_of(xs) == Some(crate::stats::variance_of(xs)),
{
}

/// A run ends with its last event, and one without events at the origin of time.
pub proof fn law_a_run_ends_with_its_last_event(events: Seq<EventView>, e: EventView)
    ensures
        crate::study::end_of(events.push(e)) == e.time(),
        crate::study::end_of(Seq::empty()) == 0,
{
}

/// The signal quoter of the grid starts with the threshold, the window and the size of the
/// setting, and its row counts the sides it pulled, bids and asks alike.
pub proof fn law_a_row_of_the_signal_counts_both_sides(
    setting: Setting,
    row: Row,
    day: usize,
    events: Seq<Event>,
    model: QueueModel,
)
    requires
        setting.gives(Some(row), day, events, model, 1),
    ensures
        exists|quoter: SignalQuoter, after: SignalQuoter|
            {
                &&& #[trigger] crate::study::ran(
                    quoter,
                    after,
                    day,
                    Rule::Signal,
                    setting.config(model),
                    events,
                    Some(row),
                )
                &&& quoter.threshold == setting.threshold
                &&& quoter.size == setting.size
                &&& quoter.mind().flow == crate::ofi::Flow::empty(setting.window_ms)
                &&& quoter.pulled_bid == 0
                &&& quoter.pulled_ask == 0
                &&& after.pulled_bid + after.pulled_ask <= 2 * BINADE ==> row.pulled.is_int(
                    after.pulled_bid + after.pulled_ask,
                )
            },
{
    let nothing = Double::of_int(0).negated();
    let cfg = setting.config(model);
    let (quoter, after) = choose|quoter: SignalQuoter, after: SignalQuoter|
        {
            &&& quoter.mind() == Signal::empty(setting.window_ms, setting.threshold, setting.size)
            &&& #[trigger] crate::study::ran(
                quoter,
                after,
                day,
                Rule::Signal,
                cfg,
                events,
                Some(row),
            )
            &&& row.pulled == nothing.plus(Double::of_int(after.pulled_bid as int)).plus(
                Double::of_int(after.pulled_ask as int),
            )
        };
    let b = after.pulled_bid as int;
    let a = after.pulled_ask as int;
    if b + a <= 2 * BINADE {
        crate::order::lemma_of_int_exact(0);
        crate::order::lemma_negated(Double::of_int(0));
        crate::order::lemma_of_int_exact(b);
        crate::order::lemma_of_int_exact(a);
        assert(0 * vstd::arithmetic::power2::pow2(1074) == 0);
        assert(nothing.is_int(0));
        crate::order::lemma_plus_of_ints(nothing, Double::of_int(b), 0, b);
        crate::order::lemma_plus_of_ints(nothing.plus(Double::of_int(b)), Double::of_int(a), b, a);
    }
    assert(crate::study::ran(quoter, after, day, Rule::Signal, cfg, events, Some(row)));
}

} // verus!
