//! A stable sort by an integer key.
use std::collections::VecDeque;

use vstd::prelude::*;

verus! {

/// What has a place in an order. Two things with one key are equal in it.
pub trait Keyed: Sized {
    spec fn key(&self) -> int;

    fn precedes(&self, other: &Self) -> (r: bool)
        ensures
            r == (self.key() < other.key()),
    ;
}

pub open spec fn in_order<T: Keyed>(items: Seq<T>) -> bool {
    forall|i: int, j: int|
        0 <= i <= j < items.len() ==> (#[trigger] items[i]).key() <= (#[trigger] items[j]).key()
}

pub open spec fn has_key<T: Keyed>(k: int) -> spec_fn(T) -> bool {
    |x: T| x.key() == k
}

/// The items of one key, in the order in which they stand.
pub open spec fn of_key<T: Keyed>(items: Seq<T>, k: int) -> Seq<T> {
    items.filter(has_key(k))
}

/// `sorted` holds the items of `items` in the order of their keys, those of one
/// key in the order in which they stood.
pub open spec fn is_stable_sort<T: Keyed>(items: Seq<T>, sorted: Seq<T>) -> bool {
    &&& in_order(sorted)
    &&& sorted.len() == items.len()
    &&& forall|k: int| #[trigger] of_key(sorted, k) == of_key(items, k)
}

proof fn lemma_of_key_add<T: Keyed>(a: Seq<T>, b: Seq<T>, k: int)
    ensures
        of_key(a + b, k) == of_key(a, k) + of_key(b, k),
{
    Seq::filter_distributes_over_add(a, b, has_key(k));
}

proof fn lemma_of_key_one<T: Keyed>(x: T, k: int)
    ensures
        of_key(seq![x], k) == if x.key() == k {
            seq![x]
        } else {
            Seq::empty()
        },
{
    reveal(Seq::filter);
    let pred = has_key::<T>(k);
    let one = seq![x];
    let none = Seq::<T>::empty();
    assert(one.drop_last() =~= none);
    assert(none.filter(pred) =~= none);
    assert(one.last() == x);
    assert(one.filter(pred) == if pred(x) {
        none.push(x)
    } else {
        none
    });
    assert(none.push(x) =~= one);
}

proof fn lemma_of_key_none<T: Keyed>(items: Seq<T>, k: int)
    requires
        forall|i: int| 0 <= i < items.len() ==> (#[trigger] items[i]).key() != k,
    ensures
        of_key(items, k) == Seq::<T>::empty(),
    decreases items.len(),
{
    reveal(Seq::filter);
    if items.len() > 0 {
        let rest = items.drop_last();
        assert forall|i: int| 0 <= i < rest.len() implies (#[trigger] rest[i]).key() != k by {
            assert(rest[i] == items[i]);
        }
        lemma_of_key_none(rest, k);
        assert(items.last().key() != k);
    }
}

/// Merges two ordered runs, the first one first among equals.
fn merge<T: Keyed>(a: VecDeque<T>, b: VecDeque<T>) -> (out: VecDeque<T>)
    requires
        in_order(a@),
        in_order(b@),
    ensures
        is_stable_sort(a@ + b@, out@),
{
    let ghost all = a@ + b@;
    let mut a = a;
    let mut b = b;
    let mut out: VecDeque<T> = VecDeque::new();
    proof {
        assert forall|k: int| #[trigger] of_key(all, k) == of_key(Seq::<T>::empty(), k) + (of_key(
            a@,
            k,
        ) + of_key(b@, k)) by {
            lemma_of_key_add(a@, b@, k);
            lemma_of_key_none(Seq::<T>::empty(), k);
        }
    }
    while a.len() > 0 || b.len() > 0
        invariant
            in_order(a@),
            in_order(b@),
            in_order(out@),
            out.len() + a.len() + b.len() == all.len(),
            forall|i: int, j: int|
                0 <= i < out.len() && 0 <= j < a.len() ==> (#[trigger] out@[i]).key() <= (
                #[trigger] a@[j]).key(),
            forall|i: int, j: int|
                0 <= i < out.len() && 0 <= j < b.len() ==> (#[trigger] out@[i]).key() <= (
                #[trigger] b@[j]).key(),
            forall|k: int| #[trigger]
                of_key(all, k) == of_key(out@, k) + (of_key(a@, k) + of_key(b@, k)),
        decreases a.len() + b.len(),
    {
        let from_b: bool = if a.len() == 0 {
            true
        } else if b.len() == 0 {
            false
        } else {
            b[0].precedes(&a[0])
        };
        let ghost a0 = a@;
        let ghost b0 = b@;
        let ghost out0 = out@;
        let taken = if from_b {
            b.pop_front()
        } else {
            a.pop_front()
        };
        if let Some(x) = taken {
            proof {
                assert forall|k: int| #[trigger]
                    of_key(all, k) == of_key(out0.push(x), k) + (of_key(a@, k) + of_key(
                    b@,
                    k,
                )) by {
                    assert(of_key(all, k) == of_key(out0, k) + (of_key(a0, k) + of_key(b0, k)));
                    let one = seq![x];
                    assert(out0.push(x) =~= out0 + one);
                    lemma_of_key_add(out0, one, k);
                    lemma_of_key_one(x, k);
                    if from_b {
                        assert(b0 =~= one + b@);
                        lemma_of_key_add(one, b@, k);
                        if k == x.key() {
                            assert forall|i: int| 0 <= i < a0.len() implies (
                            #[trigger] a0[i]).key() != k by {
                                assert(a0[0].key() <= a0[i].key());
                            }
                            lemma_of_key_none(a0, k);
                        }
                        assert(of_key(out0, k) + (of_key(a0, k) + of_key(b0, k)) =~= of_key(
                            out0.push(x),
                            k,
                        ) + (of_key(a@, k) + of_key(b@, k)));
                    } else {
                        assert(a0 =~= one + a@);
                        lemma_of_key_add(one, a@, k);
                        assert(of_key(out0, k) + (of_key(a0, k) + of_key(b0, k)) =~= of_key(
                            out0.push(x),
                            k,
                        ) + (of_key(a@, k) + of_key(b@, k)));
                    }
                }
            }
            out.push_back(x);
            proof {
                assert forall|j: int| 0 <= j < a.len() implies x.key() <= (#[trigger] a@[j]).key() by {
                    if from_b {
                        assert(a0[0].key() <= a0[j].key());
                    } else {
                        assert(a0[0].key() <= a0[j + 1].key());
                    }
                }
                assert forall|j: int| 0 <= j < b.len() implies x.key() <= (#[trigger] b@[j]).key() by {
                    if from_b {
                        assert(b0[0].key() <= b0[j + 1].key());
                    } else {
                        assert(b0[0].key() <= b0[j].key());
                    }
                }
            }
        }
    }
    proof {
        assert forall|k: int| #[trigger] of_key(out@, k) == of_key(all, k) by {
            lemma_of_key_none(a@, k);
            lemma_of_key_none(b@, k);
            assert(of_key(all, k) == of_key(out@, k) + (of_key(a@, k) + of_key(b@, k)));
            assert(of_key(all, k) =~= of_key(out@, k));
        }
    }
    out
}

fn sort_queue<T: Keyed>(items: VecDeque<T>) -> (out: VecDeque<T>)
    ensures
        is_stable_sort(items@, out@),
    decreases items.len(),
{
    let n: usize = items.len();
    if n <= 1 {
        return items;
    }
    let mut left = items;
    let ghost all = left@;
    let right = left.split_off(n / 2);
    let ghost l = left@;
    let ghost r = right@;
    let left = sort_queue(left);
    let right = sort_queue(right);
    let out = merge(left, right);
    proof {
        assert forall|k: int| #[trigger] of_key(out@, k) == of_key(all, k) by {
            assert(of_key(out@, k) == of_key(left@ + right@, k));
            lemma_of_key_add(left@, right@, k);
            assert(all =~= l + r);
            lemma_of_key_add(l, r, k);
            assert(of_key(left@, k) == of_key(l, k));
            assert(of_key(right@, k) == of_key(r, k));
        }
    }
    out
}

/// Sorts by key; what has one key keeps its order.
pub fn stable_sort<T: Keyed>(items: Vec<T>) -> (out: Vec<T>)
    ensures
        is_stable_sort(items@, out@),
{
    let mut items = items;
    let ghost all = items@;
    let mut queue: VecDeque<T> = VecDeque::new();
    while items.len() > 0
        invariant
            items@ + queue@ == all,
        decreases items.len(),
    {
        if let Some(x) = items.pop() {
            queue.push_front(x);
        }
        assert(items@ + queue@ =~= all);
    }
    assert(queue@ =~= all);
    let mut sorted = sort_queue(queue);
    let ghost done = sorted@;
    let mut out: Vec<T> = Vec::new();
    while sorted.len() > 0
        invariant
            out@ + sorted@ == done,
        decreases sorted.len(),
    {
        if let Some(x) = sorted.pop_front() {
            out.push(x);
        }
        assert(out@ + sorted@ =~= done);
    }
    assert(out@ =~= done);
    out
}

proof fn lemma_of_key_is_given<T: Keyed>(items: Seq<T>, k: int, x: T)
    requires
        of_key(items, k).contains(x),
    ensures
        items.contains(x),
    decreases items.len(),
{
    reveal(Seq::filter);
    if items.len() > 0 {
        let rest = items.drop_last();
        if of_key(rest, k).contains(x) {
            lemma_of_key_is_given(rest, k, x);
            let i = choose|i: int| 0 <= i < rest.len() && rest[i] == x;
            assert(items[i] == x);
        } else {
            assert(items.last() == x);
            assert(items[items.len() - 1] == x);
        }
    }
}

/// What is sorted is among what was given.
pub proof fn lemma_sorted_item_is_given<T: Keyed>(items: Seq<T>, sorted: Seq<T>, j: int)
    requires
        is_stable_sort(items, sorted),
        0 <= j < sorted.len(),
    ensures
        items.contains(sorted[j]),
{
    let k = sorted[j].key();
    let pred = has_key::<T>(k);
    sorted.lemma_filter_contains(pred, j);
    assert(of_key(sorted, k).contains(sorted[j]));
    lemma_of_key_is_given(items, k, sorted[j]);
}

proof fn lemma_first_of_key<T: Keyed>(items: Seq<T>, k: int)
    requires
        items.len() > 0,
    ensures
        of_key(items, k) == if items[0].key() == k {
            seq![items[0]] + of_key(items.drop_first(), k)
        } else {
            of_key(items.drop_first(), k)
        },
{
    let one = seq![items[0]];
    assert(items =~= one + items.drop_first());
    lemma_of_key_add(one, items.drop_first(), k);
    lemma_of_key_one(items[0], k);
    assert(Seq::<T>::empty() + of_key(items.drop_first(), k) =~= of_key(items.drop_first(), k));
}

proof fn lemma_in_order_rest<T: Keyed>(items: Seq<T>)
    requires
        in_order(items),
        items.len() > 0,
    ensures
        in_order(items.drop_first()),
{
    let rest = items.drop_first();
    assert forall|i: int, j: int| 0 <= i <= j < rest.len() implies (#[trigger] rest[i]).key() <= (
    #[trigger] rest[j]).key() by {
        assert(items[i + 1].key() <= items[j + 1].key());
    }
}

/// There is only one way to sort stably.
pub proof fn law_a_stable_sort_is_unique<T: Keyed>(items: Seq<T>, a: Seq<T>, b: Seq<T>)
    requires
        is_stable_sort(items, a),
        is_stable_sort(items, b),
    ensures
        a == b,
{
    let same = |x: T| x;
    law_what_looks_alike_sorts_alike(items, items, a, b, same);
    assert(a.map_values(same) =~= a);
    assert(b.map_values(same) =~= b);
}

/// Items that look alike, each with the key that its looks give it, look alike
/// when they are sorted.
pub proof fn law_what_looks_alike_sorts_alike<T: Keyed, U>(
    items: Seq<T>,
    others: Seq<T>,
    a: Seq<T>,
    b: Seq<T>,
    looks: spec_fn(T) -> U,
)
    requires
        is_stable_sort(items, a),
        is_stable_sort(others, b),
        items.map_values(looks) == others.map_values(looks),
        forall|x: T, y: T| #[trigger] looks(x) == #[trigger] looks(y) ==> x.key() == y.key(),
    ensures
        a.map_values(looks) == b.map_values(looks),
{
    assert(items.map_values(looks).len() == items.len());
    assert(others.map_values(looks).len() == others.len());
    assert forall|k: int| #[trigger] of_key(a, k).map_values(looks) == of_key(b, k).map_values(
        looks,
    ) by {
        assert(of_key(a, k) == of_key(items, k));
        assert(of_key(b, k) == of_key(others, k));
        lemma_of_key_looks(items, others, looks, k);
    }
    lemma_same_runs(a, b, looks);
}

proof fn lemma_of_key_looks<T: Keyed, U>(
    items: Seq<T>,
    others: Seq<T>,
    looks: spec_fn(T) -> U,
    k: int,
)
    requires
        items.map_values(looks) == others.map_values(looks),
        forall|x: T, y: T| #[trigger] looks(x) == #[trigger] looks(y) ==> x.key() == y.key(),
    ensures
        of_key(items, k).map_values(looks) == of_key(others, k).map_values(looks),
    decreases items.len(),
{
    reveal(Seq::filter);
    assert(items.map_values(looks).len() == items.len());
    assert(others.map_values(looks).len() == others.len());
    if items.len() > 0 {
        let p = items.drop_last();
        let q = others.drop_last();
        assert(p.map_values(looks) =~= items.map_values(looks).drop_last());
        assert(q.map_values(looks) =~= others.map_values(looks).drop_last());
        lemma_of_key_looks(p, q, looks, k);
        assert(items.map_values(looks).last() == looks(items.last()));
        assert(others.map_values(looks).last() == looks(others.last()));
        assert(of_key(p, k).push(items.last()).map_values(looks) =~= of_key(p, k).map_values(
            looks,
        ).push(looks(items.last())));
        assert(of_key(q, k).push(others.last()).map_values(looks) =~= of_key(q, k).map_values(
            looks,
        ).push(looks(others.last())));
    } else {
        assert(items =~= others);
    }
}

proof fn lemma_same_runs<T: Keyed, U>(a: Seq<T>, b: Seq<T>, looks: spec_fn(T) -> U)
    requires
        in_order(a),
        in_order(b),
        a.len() == b.len(),
        forall|k: int| #[trigger]
            of_key(a, k).map_values(looks) == of_key(b, k).map_values(looks),
    ensures
        a.map_values(looks) == b.map_values(looks),
    decreases a.len(),
{
    if a.len() == 0 {
        assert(a =~= b);
    } else {
        let x = a[0];
        let y = b[0];
        assert(of_key(a, x.key()).map_values(looks) == of_key(b, x.key()).map_values(looks));
        assert(of_key(a, y.key()).map_values(looks) == of_key(b, y.key()).map_values(looks));
        lemma_first_of_key(a, x.key());
        lemma_first_of_key(b, y.key());
        assert(of_key(a, x.key()).map_values(looks).len() > 0);
        assert(of_key(b, y.key()).map_values(looks).len() > 0);
        if y.key() > x.key() {
            assert forall|i: int| 0 <= i < b.len() implies (#[trigger] b[i]).key() != x.key() by {
                assert(b[0].key() <= b[i].key());
            }
            lemma_of_key_none(b, x.key());
            assert(of_key(b, x.key()).map_values(looks).len() == 0);
        }
        if x.key() > y.key() {
            assert forall|i: int| 0 <= i < a.len() implies (#[trigger] a[i]).key() != y.key() by {
                assert(a[0].key() <= a[i].key());
            }
            lemma_of_key_none(a, y.key());
            assert(of_key(a, y.key()).map_values(looks).len() == 0);
        }
        assert(of_key(a, x.key()).map_values(looks)[0] == looks(x));
        assert(of_key(b, x.key()).map_values(looks)[0] == looks(y));
        let p = a.drop_first();
        let q = b.drop_first();
        lemma_in_order_rest(a);
        lemma_in_order_rest(b);
        assert forall|k: int| #[trigger] of_key(p, k).map_values(looks) == of_key(
            q,
            k,
        ).map_values(looks) by {
            assert(of_key(a, k).map_values(looks) == of_key(b, k).map_values(looks));
            lemma_first_of_key(a, k);
            lemma_first_of_key(b, k);
            if x.key() == k {
                assert(of_key(p, k).map_values(looks) =~= of_key(a, k).map_values(
                    looks,
                ).drop_first());
                assert(of_key(q, k).map_values(looks) =~= of_key(b, k).map_values(
                    looks,
                ).drop_first());
            }
        }
        lemma_same_runs(p, q, looks);
        assert(a.map_values(looks) =~= seq![looks(x)] + p.map_values(looks));
        assert(b.map_values(looks) =~= seq![looks(y)] + q.map_values(looks));
    }
}

/// A map that goes with the order of the keys goes through a sort.
pub proof fn law_a_growing_map_keeps_the_sort<T: Keyed>(
    items: Seq<T>,
    sorted: Seq<T>,
    f: spec_fn(T) -> T,
    grow: spec_fn(int) -> int,
)
    requires
        is_stable_sort(items, sorted),
        forall|i: int|
            0 <= i < items.len() ==> f(#[trigger] items[i]).key() == grow(items[i].key()),
        forall|a: int, b: int| a < b ==> #[trigger] grow(a) < #[trigger] grow(b),
    ensures
        is_stable_sort(items.map_values(f), sorted.map_values(f)),
{
    let x = items.map_values(f);
    let y = sorted.map_values(f);
    assert forall|j: int| 0 <= j < sorted.len() implies f(#[trigger] sorted[j]).key() == grow(
        sorted[j].key(),
    ) by {
        lemma_sorted_item_is_given(items, sorted, j);
    }
    assert forall|i: int, j: int| 0 <= i <= j < y.len() implies (#[trigger] y[i]).key() <= (
    #[trigger] y[j]).key() by {
        assert(sorted[i].key() <= sorted[j].key());
        assert(f(sorted[i]).key() == grow(sorted[i].key()));
        assert(f(sorted[j]).key() == grow(sorted[j].key()));
    }
    assert forall|k: int| #[trigger] of_key(y, k) == of_key(x, k) by {
        if exists|k0: int| #[trigger] grow(k0) == k {
            let k0 = choose|k0: int| #[trigger] grow(k0) == k;
            lemma_of_key_mapped(items, f, grow, k0);
            lemma_of_key_mapped(sorted, f, grow, k0);
            assert(of_key(sorted, k0) == of_key(items, k0));
        } else {
            assert forall|i: int| 0 <= i < x.len() implies (#[trigger] x[i]).key() != k by {
                assert(f(items[i]).key() == grow(items[i].key()));
            }
            assert forall|i: int| 0 <= i < y.len() implies (#[trigger] y[i]).key() != k by {
                assert(f(sorted[i]).key() == grow(sorted[i].key()));
            }
            lemma_of_key_none(x, k);
            lemma_of_key_none(y, k);
        }
    }
}

proof fn lemma_of_key_mapped<T: Keyed>(
    items: Seq<T>,
    f: spec_fn(T) -> T,
    grow: spec_fn(int) -> int,
    k: int,
)
    requires
        forall|i: int|
            0 <= i < items.len() ==> f(#[trigger] items[i]).key() == grow(items[i].key()),
        forall|a: int, b: int| a < b ==> #[trigger] grow(a) < #[trigger] grow(b),
    ensures
        of_key(items.map_values(f), grow(k)) == of_key(items, k).map_values(f),
    decreases items.len(),
{
    reveal(Seq::filter);
    let mapped = items.map_values(f);
    if items.len() > 0 {
        let rest = items.drop_last();
        assert forall|i: int| 0 <= i < rest.len() implies f(#[trigger] rest[i]).key() == grow(
            rest[i].key(),
        ) by {
            assert(rest[i] == items[i]);
        }
        lemma_of_key_mapped(rest, f, grow, k);
        assert(mapped.drop_last() =~= rest.map_values(f));
        let last = items[items.len() - 1];
        assert(mapped.last() == f(last));
        assert(f(last).key() == grow(last.key()));
        if last.key() < k {
            assert(grow(last.key()) < grow(k));
        }
        if k < last.key() {
            assert(grow(k) < grow(last.key()));
        }
        assert(of_key(rest, k).push(last).map_values(f) =~= of_key(rest, k).map_values(f).push(
            f(last),
        ));
    } else {
        assert(mapped =~= Seq::empty());
        assert(of_key(items, k).map_values(f) =~= of_key(mapped, grow(k)));
    }
}

/// How many items are as `pred` says.
pub open spec fn tally<T>(items: Seq<T>, pred: spec_fn(T) -> bool) -> nat
    decreases items.len(),
{
    if items.len() == 0 {
        0
    } else {
        tally(items.drop_last(), pred) + if pred(items.last()) {
            1nat
        } else {
            0nat
        }
    }
}

proof fn lemma_tally_without<T>(items: Seq<T>, pred: spec_fn(T) -> bool, j: int)
    requires
        0 <= j < items.len(),
    ensures
        tally(items, pred) == tally(items.remove(j), pred) + if pred(items[j]) {
            1nat
        } else {
            0nat
        },
    decreases items.len(),
{
    let rest = items.remove(j);
    if j == items.len() - 1 {
        assert(rest =~= items.drop_last());
    } else {
        lemma_tally_without(items.drop_last(), pred, j);
        assert(rest.drop_last() =~= items.drop_last().remove(j));
        assert(rest.last() == items.last());
    }
}

/// A tally does not depend on the order of the items.
pub proof fn law_a_tally_has_no_order<T>(a: Seq<T>, b: Seq<T>, pred: spec_fn(T) -> bool)
    requires
        a.to_multiset() == b.to_multiset(),
    ensures
        tally(a, pred) == tally(b, pred),
    decreases a.len(),
{
    broadcast use vstd::seq_lib::group_to_multiset_ensures;

    if a.len() > 0 {
        let x = a.last();
        assert(a.to_multiset().count(x) > 0) by {
            assert(a.contains(x));
        }
        assert(b.contains(x));
        let j = choose|j: int| 0 <= j < b.len() && b[j] == x;
        let rest = b.remove(j);
        assert(a.drop_last() =~= a.remove(a.len() - 1));
        assert(a.drop_last().to_multiset() =~= rest.to_multiset());
        law_a_tally_has_no_order(a.drop_last(), rest, pred);
        lemma_tally_without(b, pred, j);
    } else {
        assert(a.to_multiset().len() == 0);
        assert(b.len() == 0);
    }
}

proof fn lemma_count_of_key<T: Keyed>(items: Seq<T>, x: T)
    ensures
        of_key(items, x.key()).to_multiset().count(x) == items.to_multiset().count(x),
    decreases items.len(),
{
    broadcast use vstd::seq_lib::group_to_multiset_ensures;

    reveal(Seq::filter);
    if items.len() > 0 {
        let rest = items.drop_last();
        lemma_count_of_key(rest, x);
        assert(items =~= rest.push(items.last()));
        assert(items.to_multiset() =~= rest.to_multiset().insert(items.last()));
        assert(of_key(rest, x.key()).push(items.last()).to_multiset() =~= of_key(
            rest,
            x.key(),
        ).to_multiset().insert(items.last()));
    } else {
        assert(of_key(items, x.key()) =~= items);
    }
}

/// A sort loses nothing and adds nothing.
pub proof fn law_a_sort_keeps_the_items<T: Keyed>(items: Seq<T>, sorted: Seq<T>)
    requires
        is_stable_sort(items, sorted),
    ensures
        items.to_multiset() == sorted.to_multiset(),
{
    assert forall|x: T| #[trigger] items.to_multiset().count(x) == sorted.to_multiset().count(
        x,
    ) by {
        lemma_count_of_key(items, x);
        lemma_count_of_key(sorted, x);
        assert(of_key(sorted, x.key()) == of_key(items, x.key()));
    }
    assert(items.to_multiset() =~= sorted.to_multiset());
}

} // verus!
