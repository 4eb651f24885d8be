//! What the study says of the recorded days.
use vstd::prelude::*;

use crate::book::{Book, Levels, Qty};
use crate::bootstrap::paired_bootstrap;
use crate::desk::Desk;
use crate::double::Double;
use crate::engine::{Config, Course, Engine, Quoter, Report};
use crate::event::{Event, EventView};
use crate::intensity::Intensity;
use crate::markout::markouts_bps;
use crate::measure::touch;
use crate::ofi::{Flow, Ofi};
use crate::queue::QueueModel;
use crate::quoters::{Glft, GlftQuoter, GlftTerms, JoinTouch, Signal, SignalQuoter, Symmetric};
use crate::recorder::push_digits;
use crate::stats::{mean, variance};
use crate::text::starts_with;

verus! {

/// The quoting rules of the grid.
#[derive(Clone, Copy, PartialEq, Eq, Debug, Structural)]
pub enum Rule {
    Touch,
    Signal,
    Symmetric,
    Glft,
}

/// What the rows call a rule.
pub open spec fn rule_text(rule: Rule) -> Seq<char> {
    match rule {
        Rule::Touch => "touch"@,
        Rule::Signal => "signal"@,
        Rule::Symmetric => "symmetric"@,
        Rule::Glft => "glft"@,
    }
}

/// What the rows call a fill model.
pub open spec fn model_text(model: QueueModel) -> Seq<char> {
    match model {
        QueueModel::Naive => "naive"@,
        QueueModel::Pessimistic => "pessimistic"@,
        QueueModel::Proportional => "proportional"@,
        QueueModel::FromAhead(percent) => "ahead"@ + crate::recorder::digits(percent as nat),
    }
}

pub fn rule_name(rule: Rule) -> (r: &'static str)
    ensures
        r@ == rule_text(rule),
{
    match rule {
        Rule::Touch => "touch",
        Rule::Signal => "signal",
        Rule::Symmetric => "symmetric",
        Rule::Glft => "glft",
    }
}

pub fn model_name(model: QueueModel) -> (r: String)
    ensures
        r@ == model_text(model),
{
    let mut out: String = String::new();
    match model {
        QueueModel::Naive => out.append("naive"),
        QueueModel::Pessimistic => out.append("pessimistic"),
        QueueModel::Proportional => out.append("proportional"),
        QueueModel::FromAhead(percent) => {
            out.append("ahead");
            push_digits(&mut out, percent as u64);
        },
    }
    assert(out@ =~= model_text(model));
    out
}

/// The fill models of the grid: the three fixed ones, then one for each
/// fraction of cancels from ahead.
pub fn models(cancel_sweep: &Vec<u8>) -> (r: Vec<QueueModel>)
    ensures
        r@ == seq![QueueModel::Naive, QueueModel::Pessimistic, QueueModel::Proportional]
            + cancel_sweep@.map_values(|percent: u8| QueueModel::FromAhead(percent)),
{
    let mut out: Vec<QueueModel> = vec![
        QueueModel::Naive,
        QueueModel::Pessimistic,
        QueueModel::Proportional,
    ];
    let ghost fixed = out@;
    let mut i: usize = 0;
    while i < cancel_sweep.len()
        invariant
            i <= cancel_sweep.len(),
            fixed.len() == 3,
            out@ == fixed + cancel_sweep@.take(i as int).map_values(
                |percent: u8| QueueModel::FromAhead(percent),
            ),
        decreases cancel_sweep.len() - i,
    {
        out.push(QueueModel::FromAhead(cancel_sweep[i]));
        i = i + 1;
        assert(out@ =~= fixed + cancel_sweep@.take(i as int).map_values(
            |percent: u8| QueueModel::FromAhead(percent),
        ));
    }
    assert(cancel_sweep@.take(i as int) =~= cancel_sweep@);
    assert(fixed =~= seq![QueueModel::Naive, QueueModel::Pessimistic, QueueModel::Proportional]);
    out
}

/// One run: a day, a quoting rule and a fill model.
#[derive(Clone, Copy, Debug)]
pub struct Row {
    /// Which of the days, in the order of their dates.
    pub day: usize,
    pub rule: Rule,
    pub model: QueueModel,
    pub pnl_btc: Double,
    pub fills: usize,
    pub fees_btc: Double,
    pub markout_1s: Double,
    pub halted_ms: i64,
    /// How often the quoter declined to quote a side.
    pub pulled: Double,
}

/// The sum of what a quoter reports under names that begin with "pulled"; the
/// negative zero where there is none.
pub open spec fn pulled_in(report: Seq<(&'static str, Double)>) -> Double
    decreases report.len(),
{
    if report.len() == 0 {
        Double::of_int(0).negated()
    } else {
        let rest = pulled_in(report.drop_last());
        if "pulled"@.is_prefix_of(report.last().0@) {
            rest.plus(report.last().1)
        } else {
            rest
        }
    }
}

/// The sum of what a quoter reports under names that begin with "pulled".
pub fn pulled(report: &Vec<(&'static str, Double)>) -> (r: Double)
    ensures
        r == pulled_in(report@),
{
    let mut sum: Double = Double::zero().neg();
    let mut i: usize = 0;
    assert(report@.take(0) =~= Seq::empty());
    while i < report.len()
        invariant
            i <= report.len(),
            sum == pulled_in(report@.take(i as int)),
        decreases report.len() - i,
    {
        proof {
            assert(report@.take(i + 1).drop_last() =~= report@.take(i as int));
            assert(report@.take(i + 1).last() == report[i as int]);
        }
        if starts_with(report[i].0, "pulled") {
            sum = sum.add(report[i].1);
        }
        i = i + 1;
    }
    assert(report@.take(i as int) =~= report@);
    sum
}

/// The profit of a run, marked at the mid of its last moment; not a number
/// where there is no mid.
pub open spec fn profit(report: Report, last_ts: i64) -> Double {
    match crate::markout::mid_at(report.mids@, last_ts as int) {
        Some(mid) => report.ledger@.worth(mid),
        None => Double::nan(),
    }
}

/// The row of a run that ended at `last_ts`.
pub fn row(
    day: usize,
    rule: Rule,
    model: QueueModel,
    report: &Report,
    last_ts: i64,
    pulled: Double,
) -> (r: Row)
    ensures
        r.day == day,
        r.rule == rule,
        r.model == model,
        r.pnl_btc == profit(*report, last_ts),
        r.fills == report.ledger@.fills.len(),
        r.fees_btc == report.ledger@.fees,
        r.markout_1s == crate::markout::markout(report.ledger@.fills, report.mids@, 1_000),
        r.halted_ms == report.halted_ms,
        r.pulled == pulled,
{
    let pnl_btc: Double = match report.mids.at(last_ts) {
        Some(mid) => report.ledger.equity_btc(mid),
        None => Double::from_bits(crate::double::NAN_BITS),
    };
    let horizons: Vec<i64> = vec![100, 1_000, 10_000];
    let marks: Vec<Double> = markouts_bps(&report.ledger.fills, &report.mids, &horizons);
    Row {
        day,
        rule,
        model,
        pnl_btc,
        fills: report.ledger.fills.len(),
        fees_btc: report.ledger.fees_btc,
        markout_1s: marks[1],
        halted_ms: report.halted_ms,
        pulled,
    }
}

/// `row` sums up a run that ended at `desk` and at `last_ts`.
pub open spec fn sums_up(row: Row, desk: Desk, last_ts: i64) -> bool {
    exists|mids: Seq<(i64, Double)>|
        {
            &&& #[trigger] crate::sort::is_stable_sort(desk.mids, mids)
            &&& row.pnl_btc == match crate::markout::mid_at(mids, last_ts as int) {
                Some(mid) => desk.account.worth(mid),
                None => Double::nan(),
            }
            &&& row.fills == desk.account.fills.len()
            &&& row.fees_btc == desk.account.fees
            &&& row.markout_1s == crate::markout::markout(desk.account.fills, mids, 1_000)
            &&& row.halted_ms == desk.halted_ms
        }
}

/// When the last event came.
pub open spec fn end_of(events: Seq<EventView>) -> i64 {
    if events.len() == 0 {
        0
    } else {
        events.last().time()
    }
}

/// `r` is what comes of one run, from its first event, with `before` for a quoter
/// that ends as `after`. None where a quantity or a time leaves the range of its
/// type.
pub open spec fn ran<Q: Quoter>(
    before: Q,
    after: Q,
    day: usize,
    rule: Rule,
    cfg: Config,
    events: Seq<Event>,
    r: Option<Row>,
) -> bool {
    let all = crate::event::views(events);
    exists|course: Course<Q>|
        {
            &&& #[trigger] course.leads(before, after, Desk::start(cfg), all)
            &&& match Desk::start(cfg).run(all, course.answers) {
                Some(desk) => r matches Some(row) && {
                    &&& row.day == day
                    &&& row.rule == rule
                    &&& row.model == cfg.model
                    &&& sums_up(row, desk, end_of(all))
                },
                None => r is None,
            }
        }
}

/// One run of the grid: a day's events, a quoter and a fill model. None where a
/// quantity or a time leaves the range of its type.
pub fn simulate<Q: Quoter>(
    day: usize,
    rule: Rule,
    cfg: Config,
    events: &Vec<Event>,
    quoter: &mut Q,
) -> (r: Option<Row>)
    ensures
        ran(*old(quoter), *final(quoter), day, rule, cfg, events@, r),
        r matches Some(row) ==> exists|report: Vec<(&'static str, Double)>|
            {
                &&& #[trigger] call_ensures(Q::report, (final(quoter),), report)
                &&& row.pulled == pulled_in(report@)
            },
{
    let last_ts: i64 = if events.len() == 0 {
        0
    } else {
        events[events.len() - 1].ts()
    };
    match Engine::new(cfg).run(events, quoter) {
        Some(report) => {
            let counted: Vec<(&'static str, Double)> = quoter.report();
            let pulled: Double = pulled(&counted);
            let row: Row = row(day, rule, cfg.model, &report, last_ts, pulled);
            proof {
                let all = crate::event::views(events@);
                assert forall|desk: Desk| #[trigger] report.tells(desk) implies sums_up(
                    row,
                    desk,
                    end_of(all),
                ) by {
                    assert(crate::sort::is_stable_sort(desk.mids, report.mids@));
                }
            }
            Some(row)
        },
        None => None,
    }
}

/// How long the quoters of the grid wait between two decisions, in milliseconds.
pub const REQUOTE_MS: i64 = 100;

/// How far from the mid the control quotes, in ticks.
pub const HALF_SPREAD_TICKS: i64 = 2;

/// 0.1, the risk aversion of the inventory model.
pub const GAMMA_BITS: u64 = 0x3FB9_9999_9999_999A;

/// The inventory model of the grid, from a fitted intensity and a volatility.
pub fn inventory_model(fitted: Intensity, sigma: Double, tick_size: Double) -> (r: Glft)
    ensures
        r == (Glft {
            gamma: Double { bits: GAMMA_BITS },
            sigma,
            kappa: fitted.kappa,
            a: fitted.a,
            tick_size,
        }),
        r.gamma.bits == 0x3FB9_9999_9999_999A,
{
    Glft {
        gamma: Double::from_bits(GAMMA_BITS),
        sigma,
        kappa: fitted.kappa,
        a: fitted.a,
        tick_size,
    }
}

/// The volatility of a day from the square root of [`realised_variance`], if there
/// is one, and one otherwise.
pub fn volatility(root: Option<Double>) -> (r: Double)
    ensures
        r == match root {
            Some(x) => x,
            None => Double::of_int(1),
        },
{
    match root {
        Some(x) => x,
        None => Double::from_i64(1),
    }
}

/// The spread of the imbalance of a day from the square root of [`ofi_variance`],
/// if there is one, and zero otherwise.
pub fn imbalance_spread(root: Option<Double>) -> (r: Double)
    ensures
        r == match root {
            Some(x) => x,
            None => Double::of_int(0),
        },
{
    match root {
        Some(x) => x,
        None => Double::zero(),
    }
}

/// Where the signal quoter stands aside: at so many spreads of the day's own
/// imbalance.
pub fn threshold(sigmas: Double, spread: Double) -> (r: Double)
    ensures
        r == sigmas.times(spread),
        sigmas == Double::of_int(1) && spread.is_finite() ==> r == spread,
        spread == Double::of_int(1) && sigmas.is_finite() ==> r == sigmas,
{
    proof {
        crate::order::lemma_times_commutes(sigmas, spread);
        if spread.is_finite() {
            crate::order::lemma_times_one(spread);
        }
        if sigmas.is_finite() {
            crate::order::lemma_times_one(sigmas);
        }
    }
    sigmas.mul(spread)
}

/// What every run of a day's grid is taken of.
pub ghost struct Setting {
    pub base: Config,
    pub glft: Glft,
    pub terms: GlftTerms,
    pub threshold: Double,
    pub window_ms: i64,
    pub size: Qty,
}

impl Setting {
    /// The configuration of the runs under a fill model.
    pub open spec fn config(self, model: QueueModel) -> Config {
        Config { model, requote_ms: REQUOTE_MS, ..self.base }
    }

    /// `r` is what comes of the run of the quoter in place `k` of the grid's order
    /// (the touch, the signal, the control, the inventory model) under a fill
    /// model.
    pub open spec fn gives(
        self,
        r: Option<Row>,
        day: usize,
        events: Seq<Event>,
        model: QueueModel,
        k: int,
    ) -> bool {
        let cfg = self.config(model);
        let nothing = Double::of_int(0).negated();
        if k == 0 {
            let quoter = JoinTouch { offset_ticks: 0, size: self.size };
            &&& exists|after: JoinTouch| #[trigger]
                ran(quoter, after, day, Rule::Touch, cfg, events, r)
            &&& r matches Some(row) ==> row.pulled == nothing
        } else if k == 1 {
            exists|quoter: SignalQuoter, after: SignalQuoter|
                {
                    &&& quoter.mind() == Signal::empty(self.window_ms, self.threshold, self.size)
                    &&& #[trigger] ran(quoter, after, day, Rule::Signal, cfg, events, r)
                    &&& r matches Some(row) ==> row.pulled == nothing.plus(
                        Double::of_int(after.pulled_bid as int),
                    ).plus(Double::of_int(after.pulled_ask as int))
                }
        } else if k == 2 {
            let quoter = Symmetric { half_spread_ticks: HALF_SPREAD_TICKS, size: self.size };
            &&& exists|after: Symmetric| #[trigger]
                ran(quoter, after, day, Rule::Symmetric, cfg, events, r)
            &&& r matches Some(row) ==> row.pulled == nothing
        } else {
            let quoter = GlftQuoter { model: self.glft, terms: self.terms, size: self.size };
            &&& exists|after: GlftQuoter| #[trigger]
                ran(quoter, after, day, Rule::Glft, cfg, events, r)
            &&& r matches Some(row) ==> row.pulled == nothing
        }
    }
}

/// `row` is the run of the quoter in place `k` under a fill model.
pub open spec fn ran_as(
    row: Row,
    day: usize,
    events: Seq<Event>,
    model: QueueModel,
    k: int,
    base: Config,
    glft: Glft,
    terms: GlftTerms,
    threshold: Double,
    window_ms: i64,
    size: Qty,
) -> bool {
    (Setting { base, glft, terms, threshold, window_ms, size }).gives(
        Some(row),
        day,
        events,
        model,
        k,
    )
}

/// The run of the quoter in place `k` under a fill model leaves the range of a
/// type.
pub open spec fn left_range(
    day: usize,
    events: Seq<Event>,
    model: QueueModel,
    k: int,
    base: Config,
    glft: Glft,
    terms: GlftTerms,
    threshold: Double,
    window_ms: i64,
    size: Qty,
) -> bool {
    (Setting { base, glft, terms, threshold, window_ms, size }).gives(
        None,
        day,
        events,
        model,
        k,
    )
}

/// The run of the quoter in place `k` under a fill model.
fn run_in_place(
    k: usize,
    day: usize,
    events: &Vec<Event>,
    model: QueueModel,
    base: Config,
    glft: Glft,
    terms: GlftTerms,
    threshold: Double,
    window_ms: i64,
    size: Qty,
) -> (r: Option<Row>)
    requires
        k < 4,
    ensures
        (Setting { base, glft, terms, threshold, window_ms, size }).gives(
            r,
            day,
            events@,
            model,
            k as int,
        ),
{
    let cfg = Config { model, requote_ms: REQUOTE_MS, ..base };
    let ghost setting = Setting { base, glft, terms, threshold, window_ms, size };
    assert(cfg == setting.config(model));
    if k == 0 {
        let mut quoter = JoinTouch { offset_ticks: 0, size };
        let ghost before = quoter;
        let r = simulate(day, Rule::Touch, cfg, events, &mut quoter);
        assert(ran(before, quoter, day, Rule::Touch, cfg, events@, r));
        r
    } else if k == 1 {
        let mut quoter = SignalQuoter::new(window_ms, threshold, size);
        let ghost before = quoter;
        let r = simulate(day, Rule::Signal, cfg, events, &mut quoter);
        proof {
            assert(ran(before, quoter, day, Rule::Signal, cfg, events@, r));
            if let Some(row) = r {
                let report = choose|report: Vec<(&'static str, Double)>|
                    {
                        &&& #[trigger] call_ensures(SignalQuoter::report, (&quoter,), report)
                        &&& row.pulled == pulled_in(report@)
                    };
                lemma_signal_pulled(report@);
            }
        }
        r
    } else if k == 2 {
        let mut quoter = Symmetric { half_spread_ticks: HALF_SPREAD_TICKS, size };
        let ghost before = quoter;
        let r = simulate(day, Rule::Symmetric, cfg, events, &mut quoter);
        assert(ran(before, quoter, day, Rule::Symmetric, cfg, events@, r));
        r
    } else {
        let mut quoter = GlftQuoter { model: glft, terms, size };
        let ghost before = quoter;
        let r = simulate(day, Rule::Glft, cfg, events, &mut quoter);
        assert(ran(before, quoter, day, Rule::Glft, cfg, events@, r));
        r
    }
}

/// What is pulled according to the report of a signal quoter.
proof fn lemma_signal_pulled(report: Seq<(&'static str, Double)>)
    requires
        report.len() == 4,
        report[0].0@ == "pulled_bid"@,
        report[1].0@ == "pulled_ask"@,
        report[2].0@ == "max_abs_imbalance"@,
        report[3].0@ == "observations"@,
    ensures
        pulled_in(report) == Double::of_int(0).negated().plus(report[0].1).plus(report[1].1),
{
    reveal_strlit("pulled");
    reveal_strlit("pulled_bid");
    reveal_strlit("pulled_ask");
    reveal_strlit("max_abs_imbalance");
    reveal_strlit("observations");
    let one = report.take(1);
    let two = report.take(2);
    let three = report.take(3);
    assert(report.drop_last() =~= three);
    assert(three.drop_last() =~= two);
    assert(two.drop_last() =~= one);
    assert(one.drop_last() =~= Seq::empty());
    let p = "pulled"@;
    assert(p.is_prefix_of(report[0].0@));
    assert(p.is_prefix_of(report[1].0@));
    assert(p[0] != report[2].0@[0] && p[0] != report[3].0@[0]);
    assert(!p.is_prefix_of(report[2].0@)) by {
        assert(report[2].0@.subrange(0, p.len() as int)[0] == report[2].0@[0]);
    }
    assert(!p.is_prefix_of(report[3].0@)) by {
        assert(report[3].0@.subrange(0, p.len() as int)[0] == report[3].0@[0]);
    }
    assert(pulled_in(Seq::empty()) == Double::of_int(0).negated());
    assert(one.last() == report[0]);
    assert(two.last() == report[1]);
    assert(three.last() == report[2]);
    assert(pulled_in(one) == Double::of_int(0).negated().plus(report[0].1));
    assert(pulled_in(two) == pulled_in(one).plus(report[1].1));
    assert(pulled_in(three) == pulled_in(two));
}

/// Every quoter over a day's events, under every fill model: for each model in
/// turn the touch, the signal, the control and the inventory model. None where a
/// quantity or a time of some run leaves the range of its type.
pub fn grid(
    day: usize,
    events: &Vec<Event>,
    models: &Vec<QueueModel>,
    base: Config,
    glft: Glft,
    terms: GlftTerms,
    threshold: Double,
    window_ms: i64,
    size: Qty,
) -> (r: Option<Vec<Row>>)
    ensures
        r matches Some(rows) ==> {
            &&& rows.len() == 4 * models.len()
            &&& forall|i: int|
                0 <= i < rows.len() ==> ran_as(
                    #[trigger] rows[i],
                    day,
                    events@,
                    models@[i / 4],
                    i % 4,
                    base,
                    glft,
                    terms,
                    threshold,
                    window_ms,
                    size,
                )
        },
        r is None <==> exists|m: int, k: int|
            {
                &&& 0 <= m < models.len()
                &&& 0 <= k < 4
                &&& #[trigger] left_range(
                    day,
                    events@,
                    models@[m],
                    k,
                    base,
                    glft,
                    terms,
                    threshold,
                    window_ms,
                    size,
                )
            },
{
    let mut rows: Vec<Row> = Vec::new();
    let mut m: usize = 0;
    while m < models.len()
        invariant
            m <= models.len(),
            rows.len() == 4 * m,
            forall|i: int|
                0 <= i < rows.len() ==> ran_as(
                    #[trigger] rows[i],
                    day,
                    events@,
                    models@[i / 4],
                    i % 4,
                    base,
                    glft,
                    terms,
                    threshold,
                    window_ms,
                    size,
                ),
        decreases models.len() - m,
    {
        let mut k: usize = 0;
        while k < 4
            invariant
                k <= 4,
                m < models.len(),
                rows.len() == 4 * m + k,
                forall|i: int|
                    0 <= i < rows.len() ==> ran_as(
                        #[trigger] rows[i],
                        day,
                        events@,
                        models@[i / 4],
                        i % 4,
                        base,
                        glft,
                        terms,
                        threshold,
                        window_ms,
                        size,
                    ),
            decreases 4 - k,
        {
            match run_in_place(
                k,
                day,
                events,
                models[m],
                base,
                glft,
                terms,
                threshold,
                window_ms,
                size,
            ) {
                Some(row) => {
                    proof {
                        let i = rows.len() as int;
                        assert(i / 4 == m && i % 4 == k);
                        assert(ran_as(
                            row,
                            day,
                            events@,
                            models@[i / 4],
                            i % 4,
                            base,
                            glft,
                            terms,
                            threshold,
                            window_ms,
                            size,
                        ));
                    }
                    rows.push(row);
                },
                None => {
                    assert(left_range(
                        day,
                        events@,
                        models@[m as int],
                        k as int,
                        base,
                        glft,
                        terms,
                        threshold,
                        window_ms,
                        size,
                    ));
                    return None;
                },
            }
            k = k + 1;
        }
        m = m + 1;
    }
    proof {
        let setting = Setting { base, glft, terms, threshold, window_ms, size };
        assert forall|m: int, k: int| 0 <= m < models.len() && 0 <= k < 4 implies !(
        #[trigger] left_range(
            day,
            events@,
            models@[m],
            k,
            base,
            glft,
            terms,
            threshold,
            window_ms,
            size,
        )) by {
            let i = 4 * m + k;
            assert(i / 4 == m && i % 4 == k);
            let row = rows@[i];
            assert(ran_as(
                row,
                day,
                events@,
                models@[i / 4],
                i % 4,
                base,
                glft,
                terms,
                threshold,
                window_ms,
                size,
            ));
            if setting.gives(None, day, events@, models@[m], k) {
                law_a_run_of_the_grid_has_one_outcome(
                    setting,
                    day,
                    events@,
                    models@[m],
                    k,
                    None,
                    Some(row),
                );
            }
        }
    }
    Some(rows)
}

/// Two runs with quoters that answer alike come out alike.
proof fn lemma_one_outcome<Q: Quoter>(
    alike: spec_fn(Q, Q) -> bool,
    p: Q,
    q: Q,
    x: Q,
    y: Q,
    day: usize,
    rule: Rule,
    cfg: Config,
    events: Seq<Event>,
    a: Option<Row>,
    b: Option<Row>,
)
    requires
        crate::engine::stays_alike(alike),
        alike(p, q),
        ran(p, x, day, rule, cfg, events, a),
        ran(q, y, day, rule, cfg, events, b),
    ensures
        alike(x, y),
        match (a, b) {
            (Some(v), Some(w)) => v == (Row { pulled: v.pulled, ..w }),
            (None, None) => true,
            _ => false,
        },
{
    let all = crate::event::views(events);
    let start = Desk::start(cfg);
    let f = choose|course: Course<Q>|
        {
            &&& #[trigger] course.leads(p, x, start, all)
            &&& match start.run(all, course.answers) {
                Some(desk) => a matches Some(row) && {
                    &&& row.day == day
                    &&& row.rule == rule
                    &&& row.model == cfg.model
                    &&& sums_up(row, desk, end_of(all))
                },
                None => a is None,
            }
        };
    let g = choose|course: Course<Q>|
        {
            &&& #[trigger] course.leads(q, y, start, all)
            &&& match start.run(all, course.answers) {
                Some(desk) => b matches Some(row) && {
                    &&& row.day == day
                    &&& row.rule == rule
                    &&& row.model == cfg.model
                    &&& sums_up(row, desk, end_of(all))
                },
                None => b is None,
            }
        };
    crate::engine::law_quoters_that_answer_alike_give_the_same_run(
        alike,
        start,
        all,
        f,
        g,
        p,
        q,
        x,
        y,
    );
    if let Some(desk) = start.run(all, f.answers) {
        lemma_one_sum(a->0, b->0, desk, end_of(all));
    }
}

proof fn lemma_one_sum(a: Row, b: Row, desk: Desk, last_ts: i64)
    requires
        sums_up(a, desk, last_ts),
        sums_up(b, desk, last_ts),
    ensures
        a.pnl_btc == b.pnl_btc,
        a.fills == b.fills,
        a.fees_btc == b.fees_btc,
        a.markout_1s == b.markout_1s,
        a.halted_ms == b.halted_ms,
{
    let x = choose|mids: Seq<(i64, Double)>|
        {
            &&& #[trigger] crate::sort::is_stable_sort(desk.mids, mids)
            &&& a.pnl_btc == match crate::markout::mid_at(mids, last_ts as int) {
                Some(mid) => desk.account.worth(mid),
                None => Double::nan(),
            }
            &&& a.fills == desk.account.fills.len()
            &&& a.fees_btc == desk.account.fees
            &&& a.markout_1s == crate::markout::markout(desk.account.fills, mids, 1_000)
            &&& a.halted_ms == desk.halted_ms
        };
    let y = choose|mids: Seq<(i64, Double)>|
        {
            &&& #[trigger] crate::sort::is_stable_sort(desk.mids, mids)
            &&& b.pnl_btc == match crate::markout::mid_at(mids, last_ts as int) {
                Some(mid) => desk.account.worth(mid),
                None => Double::nan(),
            }
            &&& b.fills == desk.account.fills.len()
            &&& b.fees_btc == desk.account.fees
            &&& b.markout_1s == crate::markout::markout(desk.account.fills, mids, 1_000)
            &&& b.halted_ms == desk.halted_ms
        };
    crate::sort::law_a_stable_sort_is_unique(desk.mids, x, y);
}

/// A run of the grid has one outcome: the same events under the same setting give
/// the same row, or none both times.
pub proof fn law_a_run_of_the_grid_has_one_outcome(
    setting: Setting,
    day: usize,
    events: Seq<Event>,
    model: QueueModel,
    k: int,
    a: Option<Row>,
    b: Option<Row>,
)
    requires
        setting.gives(a, day, events, model, k),
        setting.gives(b, day, events, model, k),
    ensures
        a == b,
{
    let cfg = setting.config(model);
    crate::quoters::law_the_quoters_decide();
    if k == 0 {
        let q = JoinTouch { offset_ticks: 0, size: setting.size };
        let x = choose|after: JoinTouch| #[trigger]
            ran(q, after, day, Rule::Touch, cfg, events, a);
        let y = choose|after: JoinTouch| #[trigger]
            ran(q, after, day, Rule::Touch, cfg, events, b);
        let alike = |a: JoinTouch, b: JoinTouch| a == b;
        lemma_one_outcome(alike, q, q, x, y, day, Rule::Touch, cfg, events, a, b);
    } else if k == 1 {
        let nothing = Double::of_int(0).negated();
        let (p, x) = choose|quoter: SignalQuoter, after: SignalQuoter|
            {
                &&& quoter.mind() == Signal::empty(
                    setting.window_ms,
                    setting.threshold,
                    setting.size,
                )
                &&& #[trigger] ran(quoter, after, day, Rule::Signal, cfg, events, a)
                &&& a matches Some(row) ==> row.pulled == nothing.plus(
                    Double::of_int(after.pulled_bid as int),
                ).plus(Double::of_int(after.pulled_ask as int))
            };
        let (q, y) = choose|quoter: SignalQuoter, after: SignalQuoter|
            {
                &&& quoter.mind() == Signal::empty(
                    setting.window_ms,
                    setting.threshold,
                    setting.size,
                )
                &&& #[trigger] ran(quoter, after, day, Rule::Signal, cfg, events, b)
                &&& b matches Some(row) ==> row.pulled == nothing.plus(
                    Double::of_int(after.pulled_bid as int),
                ).plus(Double::of_int(after.pulled_ask as int))
            };
        let alike = |a: SignalQuoter, b: SignalQuoter| a.mind() == b.mind();
        lemma_one_outcome(alike, p, q, x, y, day, Rule::Signal, cfg, events, a, b);
        assert(x.mind().pulled_bid == y.mind().pulled_bid);
        assert(x.mind().pulled_ask == y.mind().pulled_ask);
    } else if k == 2 {
        let q = Symmetric { half_spread_ticks: HALF_SPREAD_TICKS, size: setting.size };
        let x = choose|after: Symmetric| #[trigger]
            ran(q, after, day, Rule::Symmetric, cfg, events, a);
        let y = choose|after: Symmetric| #[trigger]
            ran(q, after, day, Rule::Symmetric, cfg, events, b);
        let alike = |a: Symmetric, b: Symmetric| a == b;
        lemma_one_outcome(alike, q, q, x, y, day, Rule::Symmetric, cfg, events, a, b);
    } else {
        let q = GlftQuoter { model: setting.glft, terms: setting.terms, size: setting.size };
        let x = choose|after: GlftQuoter| #[trigger]
            ran(q, after, day, Rule::Glft, cfg, events, a);
        let y = choose|after: GlftQuoter| #[trigger]
            ran(q, after, day, Rule::Glft, cfg, events, b);
        let alike = |a: GlftQuoter, b: GlftQuoter| a == b;
        lemma_one_outcome(alike, q, q, x, y, day, Rule::Glft, cfg, events, a, b);
    }
}

impl Row {
    pub open spec fn is_of(self, day: usize, rule: Rule, model: QueueModel) -> bool {
        self.day == day && self.rule == rule && self.model == model
    }
}

/// The first run of a day with a rule and a model.
pub open spec fn picked(rows: Seq<Row>, day: usize, rule: Rule, model: QueueModel) -> Option<Row>
    decreases rows.len(),
{
    if rows.len() == 0 {
        None
    } else if rows[0].is_of(day, rule, model) {
        Some(rows[0])
    } else {
        picked(rows.drop_first(), day, rule, model)
    }
}

/// The first run of a day with a rule and a model.
pub fn pick(rows: &Vec<Row>, day: usize, rule: Rule, model: QueueModel) -> (r: Option<Row>)
    ensures
        r == picked(rows@, day, rule, model),
{
    let mut i: usize = 0;
    assert(rows@.skip(0) =~= rows@);
    while i < rows.len()
        invariant
            i <= rows.len(),
            picked(rows@.skip(i as int), day, rule, model) == picked(rows@, day, rule, model),
        decreases rows.len() - i,
    {
        let row: Row = rows[i];
        assert(rows@.skip(i as int).drop_first() =~= rows@.skip(i + 1));
        if row.day == day && row.rule == rule && row.model == model {
            return Some(row);
        }
        i = i + 1;
    }
    None
}

/// By how much of itself the naive profit exceeds the other, where there is a
/// naive profit or loss.
pub open spec fn overstated(naive: Row, queue: Row) -> Option<Double> {
    let size = naive.pnl_btc.magnitude();
    if Double::of_int(0).below(size) {
        Some(naive.pnl_btc.minus(queue.pnl_btc).over(size))
    } else {
        None
    }
}

/// How many fills the naive model gives for one of the other, where the other
/// gives any.
pub open spec fn inflated(naive: Row, queue: Row) -> Option<Double> {
    if queue.fills > 0 {
        Some(Double::of_int(naive.fills as int).over(Double::of_int(queue.fills as int)))
    } else {
        None
    }
}

pub fn overstatement(naive: &Row, queue: &Row) -> (r: Option<Double>)
    ensures
        r == overstated(*naive, *queue),
{
    let size: Double = naive.pnl_btc.abs();
    if Double::zero().lt(size) {
        Some(naive.pnl_btc.sub(queue.pnl_btc).div(size))
    } else {
        None
    }
}

pub fn inflation(naive: &Row, queue: &Row) -> (r: Option<Double>)
    ensures
        r == inflated(*naive, *queue),
{
    if queue.fills > 0 {
        Some(Double::from_u64(naive.fills as u64).div(Double::from_u64(queue.fills as u64)))
    } else {
        None
    }
}

/// A sequence with one more element, if there is one.
pub open spec fn with(xs: Seq<Double>, x: Option<Double>) -> Seq<Double> {
    match x {
        Some(x) => xs.push(x),
        None => xs,
    }
}

/// What the first `days` days say when a model is held against the naive one,
/// day by day: overstatements, the naive profits behind them, and inflations.
pub struct Compared {
    pub overstatements: Seq<Double>,
    pub naive_pnl: Seq<Double>,
    pub inflations: Seq<Double>,
}

impl Compared {
    pub open spec fn with_day(self, naive: Row, queue: Row) -> Compared {
        Compared {
            overstatements: with(self.overstatements, overstated(naive, queue)),
            naive_pnl: if overstated(naive, queue) is Some {
                self.naive_pnl.push(naive.pnl_btc)
            } else {
                self.naive_pnl
            },
            inflations: with(self.inflations, inflated(naive, queue)),
        }
    }

    pub open spec fn of(rows: Seq<Row>, days: nat, model: QueueModel) -> Compared
        decreases days,
    {
        if days == 0 {
            Compared {
                overstatements: Seq::empty(),
                naive_pnl: Seq::empty(),
                inflations: Seq::empty(),
            }
        } else {
            let rest = Compared::of(rows, (days - 1) as nat, model);
            let day = (days - 1) as usize;
            match (
                picked(rows, day, Rule::Touch, QueueModel::Naive),
                picked(rows, day, Rule::Touch, model),
            ) {
                (Some(naive), Some(queue)) => rest.with_day(naive, queue),
                _ => rest,
            }
        }
    }
}

/// A model held against the naive one, for the quoter that joins the touch.
#[derive(Debug)]
pub struct Comparison {
    /// The relative overstatement of the naive fill model, one number per day.
    pub overstatements: Vec<Double>,
    pub naive_pnl: Vec<Double>,
    /// Fills are the direction-independent measure. The P&L difference changes
    /// sign with the strategy: on a losing quoter the naive model exaggerates
    /// the loss rather than flattering the edge, because it hands out fills
    /// that were never there. The ratio of fill counts says how many of them.
    pub inflations: Vec<Double>,
}

pub fn compare(rows: &Vec<Row>, days: usize, model: QueueModel) -> (r: Comparison)
    ensures
        ({
            let all = Compared::of(rows@, days as nat, model);
            &&& r.overstatements@ == all.overstatements
            &&& r.naive_pnl@ == all.naive_pnl
            &&& r.inflations@ == all.inflations
        }),
{
    let mut overstatements: Vec<Double> = Vec::new();
    let mut naive_pnl: Vec<Double> = Vec::new();
    let mut inflations: Vec<Double> = Vec::new();
    let mut day: usize = 0;
    while day < days
        invariant
            day <= days,
            ({
                let all = Compared::of(rows@, day as nat, model);
                &&& overstatements@ == all.overstatements
                &&& naive_pnl@ == all.naive_pnl
                &&& inflations@ == all.inflations
            }),
        decreases days - day,
    {
        let naive: Option<Row> = pick(rows, day, Rule::Touch, QueueModel::Naive);
        let queue: Option<Row> = pick(rows, day, Rule::Touch, model);
        day = day + 1;
        if let (Some(naive), Some(queue)) = (naive, queue) {
            if let Some(x) = overstatement(&naive, &queue) {
                overstatements.push(x);
                naive_pnl.push(naive.pnl_btc);
            }
            if let Some(x) = inflation(&naive, &queue) {
                inflations.push(x);
            }
        }
    }
    Comparison { overstatements, naive_pnl, inflations }
}

/// The primary result: the naive fill model against the pessimistic one.
#[derive(Debug)]
pub struct Headline {
    pub days: usize,
    pub overstatement_mean: Double,
    pub overstatement_ci95: (Double, Double),
    pub excludes_zero: bool,
    pub fill_inflation_mean: Double,
    pub fill_inflation_ci95: (Double, Double),
    pub naive_pnl_btc_mean: Double,
    /// The sign of the P&L difference only means "the naive model flatters the
    /// strategy" when the strategy makes money in the first place.
    pub naive_pnl_positive: bool,
}

/// An interval that does not reach zero from either side.
pub open spec fn leaves_out_zero(ci: (Double, Double)) -> bool {
    Double::of_int(0).below(ci.0) || ci.1.below(Double::of_int(0))
}

/// `ci` is the interval that the resamples of `data` give.
pub open spec fn is_ci(ci: (Double, Double), data: Seq<Double>, resamples: nat, seed: u64) -> bool {
    if data.len() == 0 || resamples == 0 {
        ci == (Double::nan(), Double::nan())
    } else {
        exists|sorted: Seq<Double>| #[trigger]
            crate::bootstrap::is_interval(ci, data, resamples, seed, sorted)
    }
}

pub fn headline(comparison: &Comparison, resamples: usize, seed: u64) -> (r: Headline)
    requires
        crate::bootstrap::resamples_well(comparison.overstatements@, resamples as nat, seed),
        crate::bootstrap::resamples_well(comparison.inflations@, resamples as nat, seed),
    ensures
        r.days == comparison.overstatements.len(),
        r.overstatement_mean == crate::stats::mean_of(comparison.overstatements@),
        is_ci(r.overstatement_ci95, comparison.overstatements@, resamples as nat, seed),
        r.excludes_zero == leaves_out_zero(r.overstatement_ci95),
        r.overstatement_ci95.0.at_most(r.overstatement_ci95.1) ==> (!r.excludes_zero
            <==> r.overstatement_ci95.0.at_most(Double::of_int(0)) && Double::of_int(0).at_most(
            r.overstatement_ci95.1,
        )),
        r.fill_inflation_mean == crate::stats::mean_of(comparison.inflations@),
        is_ci(r.fill_inflation_ci95, comparison.inflations@, resamples as nat, seed),
        r.naive_pnl_btc_mean == crate::stats::mean_of(comparison.naive_pnl@),
        r.naive_pnl_positive == Double::of_int(0).below(r.naive_pnl_btc_mean),
{
    let zero: Double = Double::zero();
    let overstatement_ci95: (Double, Double) = paired_bootstrap(
        &comparison.overstatements,
        resamples,
        seed,
    );
    let fill_inflation_ci95: (Double, Double) = paired_bootstrap(
        &comparison.inflations,
        resamples,
        seed,
    );
    let naive_pnl_btc_mean: Double = mean(&comparison.naive_pnl);
    Headline {
        days: comparison.overstatements.len(),
        overstatement_mean: mean(&comparison.overstatements),
        overstatement_ci95,
        excludes_zero: zero.lt(overstatement_ci95.0) || overstatement_ci95.1.lt(zero),
        fill_inflation_mean: mean(&comparison.inflations),
        fill_inflation_ci95,
        naive_pnl_btc_mean,
        naive_pnl_positive: zero.lt(naive_pnl_btc_mean),
    }
}

/// The profits of a rule under a model, day by day.
pub open spec fn profits_of(rows: Seq<Row>, days: nat, rule: Rule, model: QueueModel) -> Seq<
    Double,
>
    decreases days,
{
    if days == 0 {
        Seq::empty()
    } else {
        let rest = profits_of(rows, (days - 1) as nat, rule, model);
        match picked(rows, (days - 1) as usize, rule, model) {
            Some(row) => rest.push(row.pnl_btc),
            None => rest,
        }
    }
}

/// The variance of the daily profits of a rule under a model, where there are
/// two days or more.
pub fn profit_variance(rows: &Vec<Row>, days: usize, rule: Rule, model: QueueModel) -> (r: Option<
    Double,
>)
    ensures
        ({
            let profits = profits_of(rows@, days as nat, rule, model);
            r == if profits.len() >= 2 {
                Some(crate::stats::variance_of(profits))
            } else {
                None
            }
        }),
{
    let mut profits: Vec<Double> = Vec::new();
    let mut day: usize = 0;
    while day < days
        invariant
            day <= days,
            profits@ == profits_of(rows@, day as nat, rule, model),
        decreases days - day,
    {
        if let Some(row) = pick(rows, day, rule, model) {
            profits.push(row.pnl_btc);
        }
        day = day + 1;
    }
    if profits.len() >= 2 {
        Some(variance(&profits))
    } else {
        None
    }
}

/// The fewest days that the study speaks of.
pub const MIN_DAYS: usize = 7;

/// The time in feed gaps that a day may have and still count.
pub const MAX_GAP_MS: u64 = 60_000;

/// The feed gaps of a replay.
pub struct Gaps {
    /// When the gap that is open began.
    pub since: Option<i64>,
    pub total: int,
}

/// How long a gap lasted; time that runs backwards counts as none.
pub open spec fn lasted(from: i64, to: i64) -> int {
    if from <= to {
        to - from
    } else {
        0
    }
}

impl Gaps {
    pub open spec fn closed(self, ts: i64) -> Gaps {
        match self.since {
            Some(since) => Gaps { since: None, total: self.total + lasted(since, ts) },
            None => self,
        }
    }

    pub open spec fn step(self, e: EventView) -> Gaps {
        match e {
            EventView::Gap { ts, .. } => if self.since is None {
                Gaps { since: Some(ts), ..self }
            } else {
                self
            },
            EventView::Snapshot { ts, .. } => self.closed(ts),
            _ => self,
        }
    }

    pub open spec fn of(events: Seq<EventView>) -> Gaps
        decreases events.len(),
    {
        if events.len() == 0 {
            Gaps { since: None, total: 0 }
        } else {
            Gaps::of(events.drop_last()).step(events.last())
        }
    }

    /// The time in gaps, a gap that never closed counted to the last event.
    pub open spec fn time(events: Seq<EventView>) -> int {
        if events.len() == 0 {
            0
        } else {
            Gaps::of(events).closed(events.last().time()).total
        }
    }
}

fn add_gap(total: u64, from: i64, to: i64, Ghost(exact): Ghost<int>) -> (r: u64)
    requires
        exact >= 0,
        total == capped(exact),
    ensures
        r == capped(exact + lasted(from, to)),
{
    let length: u128 = if from <= to {
        (to as i128 - from as i128) as u128
    } else {
        0
    };
    let sum: u128 = total as u128 + length;
    if sum < u64::MAX as u128 {
        sum as u64
    } else {
        u64::MAX
    }
}

/// The number, or the largest that the type holds.
pub open spec fn capped(n: int) -> int {
    if n < u64::MAX {
        n
    } else {
        u64::MAX as int
    }
}

/// The time in feed gaps, from each gap to the snapshot after it.
pub fn gap_ms(events: &Vec<Event>) -> (r: u64)
    ensures
        r == capped(Gaps::time(crate::event::views(events@))),
        Gaps::time(crate::event::views(events@)) <= u64::MAX ==> r == Gaps::time(
            crate::event::views(events@),
        ),
{
    let ghost all = crate::event::views(events@);
    let mut since: Option<i64> = None;
    let mut total: u64 = 0;
    let mut i: usize = 0;
    assert(all.take(0) =~= Seq::empty());
    while i < events.len()
        invariant
            i <= events.len(),
            all == crate::event::views(events@),
            Gaps::of(all.take(i as int)).total >= 0,
            since == Gaps::of(all.take(i as int)).since,
            total == capped(Gaps::of(all.take(i as int)).total),
        decreases events.len() - i,
    {
        proof {
            assert(all.take(i + 1).drop_last() =~= all.take(i as int));
            assert(all.take(i + 1).last() == events[i as int]@);
        }
        let ghost exact = Gaps::of(all.take(i as int)).total;
        match &events[i] {
            Event::Gap { ts, .. } => {
                if since.is_none() {
                    since = Some(*ts);
                }
            },
            Event::Snapshot { ts, .. } => {
                if let Some(from) = since {
                    total = add_gap(total, from, *ts, Ghost(exact));
                    since = None;
                }
            },
            _ => {},
        }
        i = i + 1;
    }
    assert(all.take(i as int) =~= all);
    if events.len() > 0 {
        if let Some(from) = since {
            let last: i64 = events[events.len() - 1].ts();
            total = add_gap(total, from, last, Ghost(Gaps::of(all).total));
        }
    }
    total
}

/// Whether a day is left out of the study: its feed gaps add up to more than a
/// minute.
pub fn is_excluded(events: &Vec<Event>) -> (r: bool)
    ensures
        r == (Gaps::time(crate::event::views(events@)) > MAX_GAP_MS),
        r <==> Gaps::time(crate::event::views(events@)) > 60 * 1_000,
{
    gap_ms(events) > MAX_GAP_MS
}

/// A replay that notes the imbalance after each update of the book.
pub struct Imbalances {
    pub levels: Levels,
    pub flow: Flow,
    pub values: Seq<Double>,
}

impl Imbalances {
    pub open spec fn start(window_ms: i64) -> Imbalances {
        Imbalances {
            levels: Levels::empty(),
            flow: Flow::empty(window_ms),
            values: Seq::empty(),
        }
    }

    pub open spec fn seen(self, ts: i64, levels: Levels) -> Imbalances {
        match crate::measure::touch_of(levels) {
            Some(now) => {
                let flow = self.flow.updated(ts, now);
                Imbalances { levels, flow, values: self.values.push(flow.sum) }
            },
            None => Imbalances { levels, ..self },
        }
    }

    pub open spec fn step(self, e: EventView) -> Imbalances {
        match e {
            EventView::Gap { .. } => Imbalances {
                levels: Levels::empty(),
                flow: Flow::empty(self.flow.window_ms),
                ..self
            },
            EventView::Snapshot { ts, bids, asks } => self.seen(
                ts,
                Levels::empty().update(bids, asks),
            ),
            EventView::Change { ts, bids, asks } => self.seen(ts, self.levels.update(bids, asks)),
            _ => self,
        }
    }

    pub open spec fn of(events: Seq<EventView>, window_ms: i64) -> Imbalances
        decreases events.len(),
    {
        if events.len() == 0 {
            Imbalances::start(window_ms)
        } else {
            Imbalances::of(events.drop_last(), window_ms).step(events.last())
        }
    }
}

/// The variance of a sample of three or more.
pub open spec fn spread_of(xs: Seq<Double>) -> Option<Double> {
    if xs.len() < 3 {
        None
    } else {
        Some(crate::stats::variance_of(xs))
    }
}

/// The variance of the day's own order flow imbalance. Its square root is what
/// the signal quoter's threshold is stated in. Computed in one pass before the
/// grid runs, from the same feed, so no future information reaches the
/// threshold beyond the scale of the day.
pub fn ofi_variance(events: &Vec<Event>, window_ms: i64) -> (r: Option<Double>)
    ensures
        r == spread_of(Imbalances::of(crate::event::views(events@), window_ms).values),
{
    let ghost all = crate::event::views(events@);
    let mut book: Book = Book::new();
    let mut ofi: Ofi = Ofi::new(window_ms);
    let mut values: Vec<Double> = Vec::new();
    let mut i: usize = 0;
    assert(all.take(0) =~= Seq::empty());
    while i < events.len()
        invariant
            i <= events.len(),
            all == crate::event::views(events@),
            ({
                let seen = Imbalances::of(all.take(i as int), window_ms);
                &&& book@ == seen.levels
                &&& ofi@ == seen.flow
                &&& values@ == seen.values
            }),
        decreases events.len() - i,
    {
        proof {
            assert(all.take(i + 1).drop_last() =~= all.take(i as int));
            assert(all.take(i + 1).last() == events[i as int]@);
        }
        let e: &Event = &events[i];
        i = i + 1;
        let updated: bool = match e {
            Event::Gap { .. } => {
                book.clear();
                ofi.reset();
                false
            },
            Event::Snapshot { bids, asks, .. } => {
                book.clear();
                book.update(bids, asks);
                true
            },
            Event::Change { bids, asks, .. } => {
                book.update(bids, asks);
                true
            },
            _ => false,
        };
        if updated {
            if let Some(now) = touch(&book) {
                values.push(ofi.update(e.ts(), now));
            }
        }
    }
    assert(all.take(i as int) =~= all);
    if values.len() < 3 {
        None
    } else {
        Some(variance(&values))
    }
}

/// A timestamp in seconds, its fraction cut off.
pub open spec fn second_of(ts: i64) -> int {
    if ts >= 0 {
        ts as int / 1_000
    } else {
        -((-ts) / 1_000)
    }
}

fn second(ts: i64) -> (r: i64)
    ensures
        r == second_of(ts),
{
    if ts >= 0 {
        ts / 1_000
    } else {
        let size: i128 = (-(ts as i128)) / 1_000;
        -(size as i64)
    }
}

/// A replay that notes the first mid of each second.
pub struct Seconds {
    pub levels: Levels,
    pub last: int,
    pub mids: Seq<Double>,
}

impl Seconds {
    pub open spec fn start() -> Seconds {
        Seconds { levels: Levels::empty(), last: i64::MIN as int, mids: Seq::empty() }
    }

    pub open spec fn step(self, e: EventView, tick_size: Double) -> Seconds {
        let levels = match e {
            EventView::Snapshot { bids, asks, .. } => Levels::empty().update(bids, asks),
            EventView::Change { bids, asks, .. } => self.levels.update(bids, asks),
            _ => self.levels,
        };
        let second = second_of(e.time());
        match levels.mid2() {
            Some(mid2) if second != self.last => Seconds {
                levels,
                last: second,
                mids: self.mids.push(crate::intensity::mid_usd(mid2, tick_size)),
            },
            _ => Seconds { levels, ..self },
        }
    }

    pub open spec fn of(events: Seq<EventView>, tick_size: Double) -> Seconds
        decreases events.len(),
    {
        if events.len() == 0 {
            Seconds::start()
        } else {
            Seconds::of(events.drop_last(), tick_size).step(events.last(), tick_size)
        }
    }
}

/// What each number is above the one before.
pub open spec fn steps_of(xs: Seq<Double>) -> Seq<Double> {
    Seq::new((xs.len() - 1) as nat, |i: int| xs[i + 1].minus(xs[i]))
}

/// The variance of the mid's moves in USD from second to second. Its square
/// root is the realised volatility. The quoter needs one, and taking it from
/// the day being traded is the honest version of choosing one. None where the
/// day has fewer than three mids.
pub fn realised_variance(events: &Vec<Event>, tick_size: Double) -> (r: Option<Double>)
    ensures
        ({
            let mids = Seconds::of(crate::event::views(events@), tick_size).mids;
            r == if mids.len() < 3 {
                None
            } else {
                Some(crate::stats::variance_of(steps_of(mids)))
            }
        }),
{
    let ghost all = crate::event::views(events@);
    let mut book: Book = Book::new();
    let mut last: i64 = i64::MIN;
    let mut mids: Vec<Double> = Vec::new();
    let mut i: usize = 0;
    assert(all.take(0) =~= Seq::empty());
    while i < events.len()
        invariant
            i <= events.len(),
            all == crate::event::views(events@),
            ({
                let seen = Seconds::of(all.take(i as int), tick_size);
                &&& book@ == seen.levels
                &&& last == seen.last
                &&& mids@ == seen.mids
            }),
        decreases events.len() - i,
    {
        proof {
            assert(all.take(i + 1).drop_last() =~= all.take(i as int));
            assert(all.take(i + 1).last() == events[i as int]@);
        }
        let e: &Event = &events[i];
        i = i + 1;
        match e {
            Event::Snapshot { bids, asks, .. } => {
                book.clear();
                book.update(bids, asks);
            },
            Event::Change { bids, asks, .. } => {
                book.update(bids, asks);
            },
            _ => {},
        }
        let now: i64 = second(e.ts());
        if now != last {
            if let Some(mid2) = book.wide_mid2() {
                mids.push(Double::from_wide(mid2).mul(tick_size).div(Double::from_i64(2)));
                last = now;
            }
        }
    }
    assert(all.take(i as int) =~= all);
    if mids.len() < 3 {
        return None;
    }
    let mut moves: Vec<Double> = Vec::new();
    let mut j: usize = 1;
    while j < mids.len()
        invariant
            1 <= j <= mids.len(),
            moves.len() == j - 1,
            forall|k: int| 0 <= k < moves.len() ==> #[trigger] moves[k] == mids[k + 1].minus(mids[k]),
        decreases mids.len() - j,
    {
        moves.push(mids[j].sub(mids[j - 1]));
        j = j + 1;
    }
    assert(moves@ =~= steps_of(mids@));
    Some(variance(&moves))
}

/// A model held against itself overstates nothing and inflates nothing.
pub proof fn law_a_model_does_not_overstate_itself(row: Row)
    requires
        row.pnl_btc.is_finite(),
    ensures
        overstated(row, row) matches Some(x) ==> x == Double::of_int(0),
        inflated(row, row) matches Some(x) ==> x == Double::of_int(1),
{
    let p = row.pnl_btc;
    let size = p.magnitude();
    crate::order::lemma_of_int(0);
    if Double::of_int(0).below(size) {
        crate::order::lemma_minus(p, p);
        crate::order::lemma_rounded(0, p.is_neg() && !p.is_neg());
        assert(p.minus(p) == Double::of_int(0));
        crate::order::lemma_zero_over(size);
    }
    if row.fills > 0 {
        crate::order::lemma_of_int(row.fills as int);
        crate::order::lemma_over_itself(Double::of_int(row.fills as int));
    }
}

} // verus!
