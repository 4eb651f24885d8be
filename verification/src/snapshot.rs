//! The decisive check on the rebuilt book.
//!
//! The quote channel publishes the exchange's own best bid and ask, but on its
//! own schedule. Comparing it against a book rebuilt from a 100ms aggregated
//! feed compares two different moments, so disagreement is the normal state of
//! affairs rather than a defect.
//!
//! A REST snapshot carries the `change_id` it was taken at, and that is the
//! same sequence the book channel advances, so replaying the feed to that exact
//! id and comparing states compares like with like. If those disagree, the
//! reconstruction is wrong.
use std::collections::BTreeMap;

use vstd::prelude::*;

use crate::book::{listed, Tick};
use crate::double::Double;
use crate::event::{to_ticks, Instrument};
use crate::messages::{BookEntry, BookMsg};
use crate::stats::count;
use crate::text;

verus! {

/// One side of the book with the amounts as they were sent.
pub struct Depth {
    levels: BTreeMap<Tick, Double>,
}

impl View for Depth {
    type V = Map<Tick, Double>;

    closed spec fn view(&self) -> Map<Tick, Double> {
        self.levels@
    }
}

/// Whether an entry takes its level away.
pub open spec fn removes(entry: BookEntry) -> bool {
    entry.0@ == "delete"@ || entry.2.at_most(Double::of_int(0))
}

/// The levels after some entries, in turn.
pub open spec fn applied(
    levels: Map<Tick, Double>,
    entries: Seq<BookEntry>,
    inst: Instrument,
) -> Map<Tick, Double>
    decreases entries.len(),
{
    if entries.len() == 0 {
        levels
    } else {
        let before = applied(levels, entries.drop_last(), inst);
        let entry = entries.last();
        if removes(entry) {
            before.remove(inst.ticks(entry.1))
        } else {
            before.insert(inst.ticks(entry.1), entry.2)
        }
    }
}

/// The levels in ascending price.
pub open spec fn listing(levels: Map<Tick, Double>) -> Seq<(Tick, Double)> {
    choose|list: Seq<(Tick, Double)>| crate::book::lists(list, levels)
}

/// The first `n` of a list, or all of it.
pub open spec fn first_of(list: Seq<(Tick, Double)>, n: nat) -> Seq<(Tick, Double)> {
    if n < list.len() {
        list.take(n as int)
    } else {
        list
    }
}

/// The `n` levels nearest to the other side: the highest bids, or the lowest
/// asks.
pub open spec fn nearest(levels: Map<Tick, Double>, n: nat, descending: bool) -> Seq<
    (Tick, Double),
> {
    first_of(
        if descending {
            listing(levels).reverse()
        } else {
            listing(levels)
        },
        n,
    )
}

impl Depth {
    pub fn new() -> (r: Self)
        ensures
            r@ == Map::<Tick, Double>::empty(),
    {
        Depth { levels: BTreeMap::new() }
    }

    pub fn apply(&mut self, entries: &Vec<BookEntry>, inst: &Instrument)
        ensures
            final(self)@ == applied(old(self)@, entries@, *inst),
    {
        let ghost start = self@;
        let mut i: usize = 0;
        assert(entries@.take(0) =~= Seq::empty());
        while i < entries.len()
            invariant
                i <= entries.len(),
                self@ == applied(start, entries@.take(i as int), *inst),
            decreases entries.len() - i,
        {
            proof {
                assert(entries@.take(i + 1).drop_last() =~= entries@.take(i as int));
                assert(entries@.take(i + 1).last() == entries[i as int]);
            }
            let tick: Tick = to_ticks(entries[i].1, inst);
            let amount: Double = entries[i].2;
            if text::same(entries[i].0.as_str(), "delete") || amount.le(Double::zero()) {
                self.levels.remove(&tick);
            } else {
                self.levels.insert(tick, amount);
            }
            i = i + 1;
        }
        assert(entries@.take(i as int) =~= entries@);
    }

    /// The `n` highest levels, the highest first, or the `n` lowest.
    pub fn top(&self, n: usize, descending: bool) -> (r: Vec<(Tick, Double)>)
        ensures
            r@ == nearest(self@, n as nat, descending),
    {
        let all: Vec<(Tick, Double)> = listed(&self.levels);
        proof {
            assert(crate::book::lists(all@, self@));
            crate::book::lemma_one_list(all@, listing(self@), self@);
        }
        let ghost ordered = if descending {
            all@.reverse()
        } else {
            all@
        };
        let len: usize = all.len();
        let mut out: Vec<(Tick, Double)> = Vec::new();
        let mut i: usize = 0;
        while i < n && i < len
            invariant
                len == all.len(),
                i <= len,
                i <= n,
                ordered == if descending {
                    all@.reverse()
                } else {
                    all@
                },
                out@ == ordered.take(i as int),
            decreases len - i,
        {
            let at: usize = if descending {
                len - 1 - i
            } else {
                i
            };
            out.push(all[at]);
            i = i + 1;
            assert(out@ =~= ordered.take(i as int));
        }
        assert(out@ =~= first_of(ordered, n as nat));
        out
    }
}

/// A snapshot of the book, taken at `change_id`.
#[derive(Debug)]
pub struct RestBook {
    pub change_id: u64,
    pub bids: Vec<(Double, Double)>,
    pub asks: Vec<(Double, Double)>,
}

/// The first `n` levels of a snapshot, at the ticks of their prices.
pub open spec fn rest_list(levels: Seq<(Double, Double)>, inst: Instrument, n: nat) -> Seq<
    (Tick, Double),
> {
    first_of(levels.map_values(|l: (Double, Double)| (inst.ticks(l.0), l.1)), n)
}

pub fn rest_levels(levels: &Vec<(Double, Double)>, inst: &Instrument, n: usize) -> (r: Vec<
    (Tick, Double),
>)
    ensures
        r@ == rest_list(levels@, *inst, n as nat),
{
    let mut out: Vec<(Tick, Double)> = Vec::new();
    let mut i: usize = 0;
    while i < n && i < levels.len()
        invariant
            i <= n,
            i <= levels.len(),
            out.len() == i,
            forall|j: int|
                0 <= j < i ==> #[trigger] out[j] == (inst.ticks(levels[j].0), levels[j].1),
        decreases levels.len() - i,
    {
        out.push((to_ticks(levels[i].0, inst), levels[i].1));
        i = i + 1;
    }
    assert(out@ =~= rest_list(levels@, *inst, n as nat));
    out
}

/// The lists name the same prices with the same amounts.
pub open spec fn agree(a: Seq<(Tick, Double)>, b: Seq<(Tick, Double)>) -> bool {
    &&& a.len() == b.len()
    &&& forall|i: int|
        0 <= i < a.len() ==> (#[trigger] a[i]).0 == b[i].0 && a[i].1.same(b[i].1)
}

fn lists_agree(a: &Vec<(Tick, Double)>, b: &Vec<(Tick, Double)>) -> (r: bool)
    ensures
        r == agree(a@, b@),
{
    if a.len() != b.len() {
        return false;
    }
    let mut i: usize = 0;
    while i < a.len()
        invariant
            a.len() == b.len(),
            i <= a.len(),
            forall|j: int| 0 <= j < i ==> (#[trigger] a[j]).0 == b[j].0 && a[j].1.same(b[j].1),
        decreases a.len() - i,
    {
        if a[i].0 != b[i].0 || !a[i].1.eq(b[i].1) {
            assert(!(a@[i as int].0 == b@[i as int].0 && a@[i as int].1.same(b@[i as int].1)));
            return false;
        }
        i = i + 1;
    }
    true
}

/// What came of holding the rebuilt book against a snapshot.
#[derive(Debug, Clone, Copy, PartialEq, Eq, Structural)]
pub enum Verdict {
    /// No snapshot was reached.
    Waiting,
    /// Both books are the same.
    Exact,
    /// The snapshot was taken between two of our updates, so there is no moment
    /// at which the two states are comparable.
    Straddled,
    /// The books differ. With the best bid of each.
    Wrong { change_id: u64, ours: Option<Tick>, theirs: Option<Tick> },
}

/// How the checks went so far.
#[derive(Debug, Clone, Copy, PartialEq, Eq, Structural)]
pub struct Tally {
    pub exact: u64,
    pub straddled: u64,
    pub wrong: u64,
}

impl Tally {
    pub open spec fn with(self, verdict: Verdict) -> Tally {
        match verdict {
            Verdict::Waiting => self,
            Verdict::Exact => Tally { exact: crate::stats::one_more(self.exact), ..self },
            Verdict::Straddled => Tally {
                straddled: crate::stats::one_more(self.straddled),
                ..self
            },
            Verdict::Wrong { .. } => Tally { wrong: crate::stats::one_more(self.wrong), ..self },
        }
    }

    /// How many snapshots were reached.
    pub fn checked(&self) -> (r: u128)
        ensures
            r == self.exact + self.straddled + self.wrong,
    {
        self.exact as u128 + self.straddled as u128 + self.wrong as u128
    }
}

/// The price of the first level.
pub open spec fn first_price(list: Seq<(Tick, Double)>) -> Option<Tick> {
    if list.len() == 0 {
        None
    } else {
        Some(list[0].0)
    }
}

/// The rebuilt book and the snapshot that waits for it.
#[verifier::ext_equal]
pub struct Pair {
    pub bids: Map<Tick, Double>,
    pub asks: Map<Tick, Double>,
    /// The snapshot that waits: its id and its sides.
    pub waiting: Option<(u64, Seq<(Double, Double)>, Seq<(Double, Double)>)>,
    pub tally: Tally,
}

impl Pair {
    /// The books after a book message.
    pub open spec fn rebuilt(self, msg: BookMsg, inst: Instrument) -> Pair {
        let fresh = msg.kind@ == "snapshot"@;
        Pair {
            bids: applied(
                if fresh {
                    Map::empty()
                } else {
                    self.bids
                },
                msg.bids@,
                inst,
            ),
            asks: applied(
                if fresh {
                    Map::empty()
                } else {
                    self.asks
                },
                msg.asks@,
                inst,
            ),
            ..self
        }
    }

    /// The books of both sides agree, to a depth.
    pub open spec fn matches(self, inst: Instrument, depth: nat) -> bool {
        match self.waiting {
            Some((_, bids, asks)) => {
                &&& agree(nearest(self.bids, depth, true), rest_list(bids, inst, depth))
                &&& agree(nearest(self.asks, depth, false), rest_list(asks, inst, depth))
            },
            None => false,
        }
    }

    /// What is to be said once the books have reached `change_id`.
    pub open spec fn verdict(self, change_id: u64, inst: Instrument, depth: nat) -> Verdict {
        match self.waiting {
            None => Verdict::Waiting,
            Some((id, bids, _)) => if change_id < id {
                Verdict::Waiting
            } else if change_id > id {
                Verdict::Straddled
            } else if self.matches(inst, depth) {
                Verdict::Exact
            } else {
                Verdict::Wrong {
                    change_id: id,
                    ours: first_price(nearest(self.bids, depth, true)),
                    theirs: first_price(rest_list(bids, inst, depth)),
                }
            },
        }
    }

    /// The books, the snapshot and the tally after a verdict.
    pub open spec fn judged(self, verdict: Verdict) -> Pair {
        Pair {
            waiting: if verdict is Waiting {
                self.waiting
            } else {
                None
            },
            tally: self.tally.with(verdict),
            ..self
        }
    }
}

/// Replays the book channel and holds it against snapshots.
pub struct Checker {
    bids: Depth,
    asks: Depth,
    waiting: Option<RestBook>,
    tally: Tally,
}

impl View for Checker {
    type V = Pair;

    closed spec fn view(&self) -> Pair {
        Pair {
            bids: self.bids@,
            asks: self.asks@,
            waiting: match self.waiting {
                Some(rest) => Some((rest.change_id, rest.bids@, rest.asks@)),
                None => None,
            },
            tally: self.tally,
        }
    }
}

fn first_tick(list: &Vec<(Tick, Double)>) -> (r: Option<Tick>)
    ensures
        r == first_price(list@),
{
    if list.len() == 0 {
        None
    } else {
        Some(list[0].0)
    }
}

impl Checker {
    pub fn new() -> (r: Self)
        ensures
            r@ == (Pair {
                bids: Map::empty(),
                asks: Map::empty(),
                waiting: None,
                tally: Tally { exact: 0, straddled: 0, wrong: 0 },
            }),
    {
        Checker {
            bids: Depth::new(),
            asks: Depth::new(),
            waiting: None,
            tally: Tally { exact: 0, straddled: 0, wrong: 0 },
        }
    }

    pub fn tally(&self) -> (r: Tally)
        ensures
            r == self@.tally,
    {
        self.tally
    }

    /// A snapshot to wait for, in place of any other.
    pub fn on_snapshot(&mut self, rest: RestBook)
        ensures
            final(self)@ == (Pair {
                waiting: Some((rest.change_id, rest.bids@, rest.asks@)),
                ..old(self)@
            }),
    {
        self.waiting = Some(rest);
    }

    fn judge(&self, change_id: u64, inst: &Instrument, depth: usize) -> (r: Verdict)
        ensures
            r == self@.verdict(change_id, *inst, depth as nat),
    {
        match &self.waiting {
            None => Verdict::Waiting,
            Some(rest) => {
                if change_id < rest.change_id {
                    return Verdict::Waiting;
                }
                if change_id > rest.change_id {
                    return Verdict::Straddled;
                }
                let our_bids: Vec<(Tick, Double)> = self.bids.top(depth, true);
                let our_asks: Vec<(Tick, Double)> = self.asks.top(depth, false);
                let their_bids: Vec<(Tick, Double)> = rest_levels(&rest.bids, inst, depth);
                let their_asks: Vec<(Tick, Double)> = rest_levels(&rest.asks, inst, depth);
                if lists_agree(&our_bids, &their_bids) && lists_agree(&our_asks, &their_asks) {
                    Verdict::Exact
                } else {
                    Verdict::Wrong {
                        change_id: rest.change_id,
                        ours: first_tick(&our_bids),
                        theirs: first_tick(&their_bids),
                    }
                }
            },
        }
    }

    /// A message of the book channel: rebuilds the book, and holds it against
    /// the snapshot that waits, if it has come that far.
    pub fn on_book(&mut self, msg: &BookMsg, inst: &Instrument, depth: usize) -> (r: Verdict)
        ensures
            r == old(self)@.rebuilt(*msg, *inst).verdict(msg.change_id, *inst, depth as nat),
            final(self)@ == old(self)@.rebuilt(*msg, *inst).judged(r),
    {
        if text::same(msg.kind.as_str(), "snapshot") {
            self.bids = Depth::new();
            self.asks = Depth::new();
        }
        self.bids.apply(&msg.bids, inst);
        self.asks.apply(&msg.asks, inst);
        assert(self@ =~= old(self)@.rebuilt(*msg, *inst));
        let verdict: Verdict = self.judge(msg.change_id, inst, depth);
        match verdict {
            Verdict::Waiting => {},
            Verdict::Exact => {
                self.tally.exact = count(self.tally.exact);
                self.waiting = None;
            },
            Verdict::Straddled => {
                self.tally.straddled = count(self.tally.straddled);
                self.waiting = None;
            },
            Verdict::Wrong { .. } => {
                self.tally.wrong = count(self.tally.wrong);
                self.waiting = None;
            },
        }
        verdict
    }
}

/// Only states at one and the same id are ever compared.
pub proof fn law_like_is_compared_with_like(
    pair: Pair,
    change_id: u64,
    inst: Instrument,
    depth: nat,
)
    ensures
        ({
            let verdict = pair.verdict(change_id, inst, depth);
            verdict is Exact || verdict is Wrong ==> pair.waiting is Some && (
            pair.waiting->0).0 == change_id
        }),
{
}

/// A snapshot is judged once: no verdict leaves it waiting.
pub proof fn law_a_snapshot_is_judged_once(
    pair: Pair,
    change_id: u64,
    inst: Instrument,
    depth: nat,
)
    ensures
        ({
            let verdict = pair.verdict(change_id, inst, depth);
            verdict !is Waiting ==> pair.judged(verdict).waiting is None
        }),
{
}

} // verus!
