//! Price-time limit order book rebuilt from an exchange feed.
use std::collections::BTreeMap;

use vstd::prelude::*;

verus! {

/// Price in ticks. BTC-PERPETUAL has a tick size of 0.5 USD, so a tick of
/// 200_000 is a price of 100_000.0 USD.
pub type Tick = i64;

/// Size in USD notional. Deribit reports perpetual amounts in USD.
pub type Qty = i64;

#[derive(Clone, Copy, PartialEq, Eq, Debug, Structural)]
pub enum Side {
    Bid,
    Ask,
}

impl Side {
    pub open spec fn other(self) -> Side {
        match self {
            Side::Bid => Side::Ask,
            Side::Ask => Side::Bid,
        }
    }

    pub fn opposite(self) -> (r: Side)
        ensures
            r == self.other(),
    {
        match self {
            Side::Bid => Side::Ask,
            Side::Ask => Side::Bid,
        }
    }
}

/// The visible levels of both sides: what rests at each price.
#[verifier::ext_equal]
pub struct Levels {
    pub bids: Map<Tick, Qty>,
    pub asks: Map<Tick, Qty>,
}

/// A level takes an absolute amount; an amount of zero or less deletes it.
pub open spec fn put(levels: Map<Tick, Qty>, price: Tick, amount: Qty) -> Map<Tick, Qty> {
    if amount <= 0 {
        levels.remove(price)
    } else {
        levels.insert(price, amount)
    }
}

/// Several levels in turn.
pub open spec fn put_all(levels: Map<Tick, Qty>, updates: Seq<(Tick, Qty)>) -> Map<Tick, Qty>
    decreases updates.len(),
{
    if updates.len() == 0 {
        levels
    } else {
        put(put_all(levels, updates.drop_last()), updates.last().0, updates.last().1)
    }
}

pub open spec fn amount_at(levels: Map<Tick, Qty>, price: Tick) -> Qty {
    if levels.contains_key(price) {
        levels[price]
    } else {
        0
    }
}

/// `best` is the highest level with its amount, none of an empty side.
pub open spec fn is_highest(levels: Map<Tick, Qty>, best: Option<(Tick, Qty)>) -> bool {
    match best {
        Some((price, amount)) => {
            &&& levels.contains_key(price)
            &&& levels[price] == amount
            &&& forall|p: Tick| #[trigger] levels.contains_key(p) ==> p <= price
        },
        None => forall|p: Tick| !#[trigger] levels.contains_key(p),
    }
}

/// `best` is the lowest level with its amount, none of an empty side.
pub open spec fn is_lowest(levels: Map<Tick, Qty>, best: Option<(Tick, Qty)>) -> bool {
    match best {
        Some((price, amount)) => {
            &&& levels.contains_key(price)
            &&& levels[price] == amount
            &&& forall|p: Tick| #[trigger] levels.contains_key(p) ==> price <= p
        },
        None => forall|p: Tick| !#[trigger] levels.contains_key(p),
    }
}

/// The highest level of a side.
pub open spec fn highest(levels: Map<Tick, Qty>) -> Option<(Tick, Qty)> {
    choose|best: Option<(Tick, Qty)>| is_highest(levels, best)
}

/// The lowest level of a side.
pub open spec fn lowest(levels: Map<Tick, Qty>) -> Option<(Tick, Qty)> {
    choose|best: Option<(Tick, Qty)>| is_lowest(levels, best)
}

/// Every level holds something, and there are finitely many.
pub open spec fn stocked(levels: Map<Tick, Qty>) -> bool {
    &&& levels.dom().finite()
    &&& forall|p: Tick| #[trigger] levels.contains_key(p) ==> levels[p] > 0
}

/// `list` holds every level once, in ascending price.
pub open spec fn lists<V>(list: Seq<(Tick, V)>, levels: Map<Tick, V>) -> bool {
    &&& forall|i: int, j: int|
        0 <= i < j < list.len() ==> #[trigger] list[i].0 < #[trigger] list[j].0
    &&& forall|i: int|
        0 <= i < list.len() ==> #[trigger] levels.contains_key(list[i].0) && levels[list[i].0]
            == list[i].1
    &&& forall|p: Tick| #[trigger]
        levels.contains_key(p) ==> exists|i: int| 0 <= i < list.len() && #[trigger] list[i].0 == p
}

impl Levels {
    pub open spec fn empty() -> Levels {
        Levels { bids: Map::empty(), asks: Map::empty() }
    }

    pub open spec fn side(self, side: Side) -> Map<Tick, Qty> {
        match side {
            Side::Bid => self.bids,
            Side::Ask => self.asks,
        }
    }

    pub open spec fn put(self, side: Side, price: Tick, amount: Qty) -> Levels {
        match side {
            Side::Bid => Levels { bids: put(self.bids, price, amount), ..self },
            Side::Ask => Levels { asks: put(self.asks, price, amount), ..self },
        }
    }

    /// A book update: the bids in turn, then the asks.
    pub open spec fn update(self, bids: Seq<(Tick, Qty)>, asks: Seq<(Tick, Qty)>) -> Levels {
        Levels { bids: put_all(self.bids, bids), asks: put_all(self.asks, asks) }
    }

    pub open spec fn qty_at(self, side: Side, price: Tick) -> Qty {
        amount_at(self.side(side), price)
    }

    pub open spec fn best_bid(self) -> Option<(Tick, Qty)> {
        highest(self.bids)
    }

    pub open spec fn best_ask(self) -> Option<(Tick, Qty)> {
        lowest(self.asks)
    }

    /// Every level of both sides holds something, and there are finitely many.
    pub open spec fn valid(self) -> bool {
        stocked(self.bids) && stocked(self.asks)
    }

    /// Twice the mid, as an integer of any size.
    pub open spec fn mid2(self) -> Option<int> {
        match (self.best_bid(), self.best_ask()) {
            (Some((b, _)), Some((a, _))) => Some(b + a),
            _ => None,
        }
    }

    pub open spec fn crossed(self) -> bool {
        match (self.best_bid(), self.best_ask()) {
            (Some((b, _)), Some((a, _))) => b >= a,
            _ => false,
        }
    }
}

/// A side has at most one best level.
pub proof fn lemma_highest(levels: Map<Tick, Qty>, best: Option<(Tick, Qty)>)
    requires
        is_highest(levels, best),
    ensures
        highest(levels) == best,
{
    let other = highest(levels);
    assert(is_highest(levels, other));
    match best {
        Some((p, q)) => {
            assert(levels.contains_key(p));
            match other {
                Some((p2, q2)) => {
                    assert(levels.contains_key(p2));
                },
                None => {},
            }
        },
        None => {
            match other {
                Some((p2, q2)) => {
                    assert(levels.contains_key(p2));
                },
                None => {},
            }
        },
    }
}

pub proof fn lemma_lowest(levels: Map<Tick, Qty>, best: Option<(Tick, Qty)>)
    requires
        is_lowest(levels, best),
    ensures
        lowest(levels) == best,
{
    let other = lowest(levels);
    assert(is_lowest(levels, other));
    match best {
        Some((p, q)) => {
            assert(levels.contains_key(p));
            match other {
                Some((p2, q2)) => {
                    assert(levels.contains_key(p2));
                },
                None => {},
            }
        },
        None => {
            match other {
                Some((p2, q2)) => {
                    assert(levels.contains_key(p2));
                },
                None => {},
            }
        },
    }
}

/// `BTreeMap::last_key_value`: the entry with the largest key, none of an empty
/// map.
#[verifier::external_body]
fn last_entry(levels: &BTreeMap<Tick, Qty>) -> (r: Option<(Tick, Qty)>)
    ensures
        is_highest(levels@, r),
{
    levels.last_key_value().map(|(p, q)| (*p, *q))
}

/// `BTreeMap::first_key_value`: the entry with the smallest key, none of an
/// empty map.
#[verifier::external_body]
fn first_entry(levels: &BTreeMap<Tick, Qty>) -> (r: Option<(Tick, Qty)>)
    ensures
        is_lowest(levels@, r),
{
    levels.first_key_value().map(|(p, q)| (*p, *q))
}

/// The levels, in ascending price.
pub fn listed<V: Copy>(levels: &BTreeMap<Tick, V>) -> (r: Vec<(Tick, V)>)
    ensures
        lists(r@, levels@),
{
    let mut out: Vec<(Tick, V)> = Vec::new();
    let iter = levels.iter();
    let ghost all = vstd::std_specs::iter::IteratorSpec::remaining(&iter);
    for (price, amount) in it: iter
        invariant
            it.seq() == all,
            out.len() == it.index(),
            forall|i: int| 0 <= i < out.len() ==> #[trigger] out[i] == (*all[i].0, *all[i].1),
    {
        out.push((*price, *amount));
    }
    proof {
        let keys = all.map_values(|kv: (&Tick, &V)| *kv.0);
        assert(vstd::std_specs::btree::increasing_seq(keys));
        assert forall|i: int, j: int| 0 <= i < j < out.len() implies #[trigger] out[i].0
            < #[trigger] out[j].0 by {
            assert(keys[i] == *all[i].0 && keys[j] == *all[j].0);
            vstd::std_specs::btree::axiom_increasing_seq_meaning::<Tick>(keys);
            assert(vstd::std_specs::cmp::OrdSpec::cmp_spec(&keys[i], &keys[j]) is Less);
        }
        assert forall|i: int| 0 <= i < out.len() implies #[trigger] levels@.contains_key(
            out[i].0,
        ) && levels@[out[i].0] == out[i].1 by {
            assert(levels@.contains_key(*all[i].0));
        }
        assert forall|p: Tick| #[trigger] levels@.contains_key(p) implies exists|i: int|
            0 <= i < out.len() && #[trigger] out[i].0 == p by {
            assert(all.contains((&p, &levels@[p])));
            let i = choose|i: int| 0 <= i < all.len() && all[i] == (&p, &levels@[p]);
            assert(out[i].0 == p);
        }
    }
    out
}

/// A set of levels has only one list.
pub proof fn lemma_one_list<V>(a: Seq<(Tick, V)>, b: Seq<(Tick, V)>, levels: Map<Tick, V>)
    requires
        lists(a, levels),
        lists(b, levels),
    ensures
        a == b,
    decreases a.len(),
{
    if a.len() == 0 {
        if b.len() > 0 {
            assert(levels.contains_key(b[0].0));
        }
        assert(a =~= b);
    } else {
        let x = a.last();
        let y = b.last();
        assert(levels.contains_key(a[a.len() - 1].0));
        assert(b.len() > 0);
        assert(levels.contains_key(b[b.len() - 1].0));
        let i = choose|i: int| 0 <= i < a.len() && #[trigger] a[i].0 == y.0;
        let j = choose|j: int| 0 <= j < b.len() && #[trigger] b[j].0 == x.0;
        if i < a.len() - 1 {
            assert(a[i].0 < a[a.len() - 1].0);
            assert(j == b.len() - 1 || b[j].0 < b[b.len() - 1].0);
        }
        if j < b.len() - 1 {
            assert(b[j].0 < b[b.len() - 1].0);
        }
        assert(x == y);
        lemma_list_without_last(a, levels);
        lemma_list_without_last(b, levels);
        lemma_one_list(a.drop_last(), b.drop_last(), levels.remove(x.0));
        assert(a =~= a.drop_last().push(x));
        assert(b =~= b.drop_last().push(y));
    }
}

proof fn lemma_list_without_last<V>(list: Seq<(Tick, V)>, levels: Map<Tick, V>)
    requires
        lists(list, levels),
        list.len() > 0,
    ensures
        lists(list.drop_last(), levels.remove(list.last().0)),
{
    let rest = list.drop_last();
    let less = levels.remove(list.last().0);
    assert forall|i: int| 0 <= i < rest.len() implies #[trigger] less.contains_key(rest[i].0)
        && less[rest[i].0] == rest[i].1 by {
        assert(rest[i] == list[i]);
        assert(list[i].0 < list[list.len() - 1].0);
        assert(levels.contains_key(list[i].0));
    }
    assert forall|i: int, j: int| 0 <= i < j < rest.len() implies #[trigger] rest[i].0
        < #[trigger] rest[j].0 by {
        assert(list[i].0 < list[j].0);
    }
    assert forall|p: Tick| #[trigger] less.contains_key(p) implies exists|i: int|
        0 <= i < rest.len() && #[trigger] rest[i].0 == p by {
        assert(levels.contains_key(p));
        let i = choose|i: int| 0 <= i < list.len() && #[trigger] list[i].0 == p;
        assert(rest[i].0 == p);
    }
}

#[derive(Debug)]
pub struct Book {
    bids: BTreeMap<Tick, Qty>,
    asks: BTreeMap<Tick, Qty>,
}

impl View for Book {
    type V = Levels;

    closed spec fn view(&self) -> Levels {
        Levels { bids: self.bids@, asks: self.asks@ }
    }
}

/// One level of a side is set; an amount of nothing takes it away.
fn set_level(levels: BTreeMap<Tick, Qty>, price: Tick, amount: Qty) -> (r: BTreeMap<Tick, Qty>)
    requires
        stocked(levels@),
    ensures
        r@ == put(levels@, price, amount),
        stocked(r@),
{
    let mut levels = levels;
    if amount <= 0 {
        levels.remove(&price);
    } else {
        levels.insert(price, amount);
    }
    levels
}

impl Clone for Book {
    fn clone(&self) -> (r: Book)
        ensures
            r@ == self@,
    {
        proof {
            use_type_invariant(self);
        }
        Book { bids: self.bids.clone(), asks: self.asks.clone() }
    }
}

impl Default for Book {
    fn default() -> (r: Book)
        ensures
            r@ == Levels::empty(),
    {
        Book { bids: BTreeMap::new(), asks: BTreeMap::new() }
    }
}

impl Book {
    /// A book only ever holds positive amounts.
    #[verifier::type_invariant]
    spec fn well_formed(self) -> bool {
        self@.valid()
    }

    pub fn new() -> (r: Self)
        ensures
            r@ == Levels::empty(),
    {
        Self::default()
    }

    /// Deribit sends absolute amounts per level; a delete carries amount 0.
    pub fn set(&mut self, side: Side, price: Tick, amount: Qty)
        ensures
            final(self)@ == old(self)@.put(side, price, amount),
            final(self)@.valid(),
    {
        proof {
            use_type_invariant(&*self);
        }
        let mut levels: BTreeMap<Tick, Qty> = BTreeMap::new();
        match side {
            Side::Bid => {
                std::mem::swap(&mut levels, &mut self.bids);
                self.bids = set_level(levels, price, amount);
            },
            Side::Ask => {
                std::mem::swap(&mut levels, &mut self.asks);
                self.asks = set_level(levels, price, amount);
            },
        }
    }

    /// Sets every level of a book update, the bids first.
    pub fn update(&mut self, bids: &Vec<(Tick, Qty)>, asks: &Vec<(Tick, Qty)>)
        ensures
            final(self)@ == old(self)@.update(bids@, asks@),
    {
        let ghost start = self@;
        let mut i: usize = 0;
        assert(bids@.take(0) =~= Seq::empty());
        while i < bids.len()
            invariant
                i <= bids.len(),
                self@.bids == put_all(start.bids, bids@.take(i as int)),
                self@.asks == start.asks,
            decreases bids.len() - i,
        {
            self.set(Side::Bid, bids[i].0, bids[i].1);
            i = i + 1;
            assert(bids@.take(i as int).drop_last() =~= bids@.take(i - 1));
        }
        assert(bids@.take(i as int) =~= bids@);
        i = 0;
        assert(asks@.take(0) =~= Seq::empty());
        while i < asks.len()
            invariant
                i <= asks.len(),
                self@.bids == put_all(start.bids, bids@),
                self@.asks == put_all(start.asks, asks@.take(i as int)),
            decreases asks.len() - i,
        {
            self.set(Side::Ask, asks[i].0, asks[i].1);
            i = i + 1;
            assert(asks@.take(i as int).drop_last() =~= asks@.take(i - 1));
        }
        assert(asks@.take(i as int) =~= asks@);
    }

    pub fn qty_at(&self, side: Side, price: Tick) -> (r: Qty)
        ensures
            r == self@.qty_at(side, price),
            r >= 0,
    {
        proof {
            use_type_invariant(self);
        }
        let found: Option<&Qty> = match side {
            Side::Bid => self.bids.get(&price),
            Side::Ask => self.asks.get(&price),
        };
        match found {
            Some(amount) => *amount,
            None => 0,
        }
    }

    pub fn best_bid(&self) -> (r: Option<(Tick, Qty)>)
        ensures
            r == self@.best_bid(),
            is_highest(self@.bids, r),
            r matches Some((_, amount)) ==> amount > 0,
    {
        proof {
            use_type_invariant(self);
        }
        let best = last_entry(&self.bids);
        proof {
            lemma_highest(self.bids@, best);
        }
        best
    }

    pub fn best_ask(&self) -> (r: Option<(Tick, Qty)>)
        ensures
            r == self@.best_ask(),
            is_lowest(self@.asks, r),
            r matches Some((_, amount)) ==> amount > 0,
    {
        proof {
            use_type_invariant(self);
        }
        let best = first_entry(&self.asks);
        proof {
            lemma_lowest(self.asks@, best);
        }
        best
    }

    /// Mid in ticks, doubled so it stays an integer.
    pub fn mid2(&self) -> (r: Option<Tick>)
        requires
            self@.mid2() matches Some(m) ==> i64::MIN <= m <= i64::MAX,
        ensures
            match r {
                Some(m) => self@.mid2() == Some(m as int),
                None => self@.mid2() is None,
            },
    {
        match (self.best_bid(), self.best_ask()) {
            (Some((b, _)), Some((a, _))) => Some(b + a),
            _ => None,
        }
    }

    /// Twice the mid in a type that holds the sum of any two ticks.
    pub fn wide_mid2(&self) -> (r: Option<i128>)
        ensures
            match r {
                Some(m) => self@.mid2() == Some(m as int) && 2 * i64::MIN <= m <= 2 * i64::MAX,
                None => self@.mid2() is None,
            },
    {
        match (self.best_bid(), self.best_ask()) {
            (Some((b, _)), Some((a, _))) => Some(b as i128 + a as i128),
            _ => None,
        }
    }

    pub fn crossed(&self) -> (r: bool)
        ensures
            r == self@.crossed(),
    {
        match (self.best_bid(), self.best_ask()) {
            (Some((b, _)), Some((a, _))) => b >= a,
            _ => false,
        }
    }

    /// The levels of a side, in ascending price.
    pub fn levels(&self, side: Side) -> (r: Vec<(Tick, Qty)>)
        ensures
            lists(r@, self@.side(side)),
            forall|i: int| 0 <= i < r.len() ==> (#[trigger] r[i]).1 > 0,
    {
        proof {
            use_type_invariant(self);
        }
        let list: Vec<(Tick, Qty)> = match side {
            Side::Bid => listed(&self.bids),
            Side::Ask => listed(&self.asks),
        };
        assert forall|i: int| 0 <= i < list.len() implies (#[trigger] list[i]).1 > 0 by {
            assert(self@.side(side).contains_key(list[i].0));
        }
        list
    }

    pub fn clear(&mut self)
        ensures
            final(self)@ == Levels::empty(),
    {
        *self = Book::new();
    }
}

/// The other side of the other side is the side itself.
pub proof fn law_opposite_is_an_involution(side: Side)
    ensures
        side.other().other() == side,
        side.other() != side,
{
}

/// What was set at a price is read back there, zero after a delete, and no
/// other price or side is touched.
pub proof fn law_a_level_reads_back(levels: Levels, side: Side, price: Tick, amount: Qty)
    ensures
        ({
            let after = levels.put(side, price, amount);
            &&& after.qty_at(side, price) == if amount > 0 { amount } else { 0 }
            &&& forall|p: Tick|
                p != price ==> #[trigger] after.qty_at(side, p) == levels.qty_at(side, p)
            &&& after.side(side.other()) == levels.side(side.other())
        }),
{
}

/// After any run of updates a price holds what the last update at that price
/// said.
pub proof fn law_the_last_update_of_a_price_counts(
    levels: Map<Tick, Qty>,
    updates: Seq<(Tick, Qty)>,
    last: int,
)
    requires
        0 <= last < updates.len(),
        forall|i: int| last < i < updates.len() ==> (#[trigger] updates[i]).0 != updates[last].0,
    ensures
        amount_at(put_all(levels, updates), updates[last].0) == if updates[last].1 > 0 {
            updates[last].1
        } else {
            0
        },
    decreases updates.len(),
{
    if last < updates.len() - 1 {
        let rest = updates.drop_last();
        assert(updates[updates.len() - 1].0 != updates[last].0);
        assert(rest[last] == updates[last]);
        assert forall|i: int| last < i < rest.len() implies (#[trigger] rest[i]).0
            != rest[last].0 by {
            assert(rest[i] == updates[i]);
        }
        law_the_last_update_of_a_price_counts(levels, rest, last);
    }
}

/// A price that no update names keeps what it held.
pub proof fn law_an_unnamed_price_is_kept(
    levels: Map<Tick, Qty>,
    updates: Seq<(Tick, Qty)>,
    price: Tick,
)
    requires
        forall|i: int| 0 <= i < updates.len() ==> (#[trigger] updates[i]).0 != price,
    ensures
        amount_at(put_all(levels, updates), price) == amount_at(levels, price),
    decreases updates.len(),
{
    if updates.len() > 0 {
        let rest = updates.drop_last();
        assert(updates[updates.len() - 1].0 != price);
        assert forall|i: int| 0 <= i < rest.len() implies (#[trigger] rest[i]).0 != price by {
            assert(rest[i] == updates[i]);
        }
        law_an_unnamed_price_is_kept(levels, rest, price);
    }
}

/// A book only ever holds positive amounts, whatever it is told.
pub proof fn law_updates_keep_a_book_valid(
    levels: Levels,
    bids: Seq<(Tick, Qty)>,
    asks: Seq<(Tick, Qty)>,
)
    requires
        levels.valid(),
    ensures
        levels.update(bids, asks).valid(),
        Levels::empty().valid(),
    decreases bids.len() + asks.len(),
{
    if bids.len() > 0 {
        law_updates_keep_a_book_valid(levels, bids.drop_last(), asks);
        let before = levels.update(bids.drop_last(), asks);
        let after = levels.update(bids, asks);
        assert(after.bids == put(before.bids, bids.last().0, bids.last().1));
        assert(after.asks == before.asks);
        assert forall|p: Tick| #[trigger] after.bids.contains_key(p) implies after.bids[p]
            > 0 by {
            if p != bids.last().0 {
                assert(before.bids.contains_key(p));
            }
        }
    } else if asks.len() > 0 {
        law_updates_keep_a_book_valid(levels, bids, asks.drop_last());
        let before = levels.update(bids, asks.drop_last());
        let after = levels.update(bids, asks);
        assert(after.asks == put(before.asks, asks.last().0, asks.last().1));
        assert(after.bids == before.bids);
        assert forall|p: Tick| #[trigger] after.asks.contains_key(p) implies after.asks[p]
            > 0 by {
            if p != asks.last().0 {
                assert(before.asks.contains_key(p));
            }
        }
    }
}

/// A side has a best level exactly when it holds one, and nothing on it is
/// better.
pub proof fn law_the_best_level_is_the_best(levels: Map<Tick, Qty>)
    requires
        levels.dom().finite(),
    ensures
        is_highest(levels, highest(levels)),
        is_lowest(levels, lowest(levels)),
        highest(levels) is None <==> levels == Map::<Tick, Qty>::empty(),
        lowest(levels) is None <==> levels == Map::<Tick, Qty>::empty(),
    decreases levels.dom().len(),
{
    if levels.dom().is_empty() {
        assert(levels =~= Map::empty());
        let none: Option<(Tick, Qty)> = None;
        assert(is_highest(levels, none));
        assert(is_lowest(levels, none));
    } else {
        let p = levels.dom().choose();
        assert(levels.contains_key(p));
        let rest = levels.remove(p);
        law_the_best_level_is_the_best(rest);
        assert forall|x: Tick| levels.contains_key(x) implies x == p || rest.contains_key(x) by {};
        let up = match highest(rest) {
            Some((h, q)) if h > p => Some((h, q)),
            _ => Some((p, levels[p])),
        };
        assert forall|x: Tick| #[trigger] levels.contains_key(x) implies x <= (up->0).0 by {
            if x != p {
                assert(rest.contains_key(x));
            }
        }
        assert(levels.contains_key((up->0).0)) by {
            if (up->0).0 != p {
                assert(rest.contains_key((up->0).0));
            }
        }
        assert(is_highest(levels, up));
        let down = match lowest(rest) {
            Some((l, q)) if l < p => Some((l, q)),
            _ => Some((p, levels[p])),
        };
        assert forall|x: Tick| #[trigger] levels.contains_key(x) implies (down->0).0 <= x by {
            if x != p {
                assert(rest.contains_key(x));
            }
        }
        assert(levels.contains_key((down->0).0)) by {
            if (down->0).0 != p {
                assert(rest.contains_key((down->0).0));
            }
        }
        assert(is_lowest(levels, down));
        lemma_highest(levels, up);
        lemma_lowest(levels, down);
    }
}

} // verus!
