//! Confidence intervals by resampling whole days.
use vstd::prelude::*;

use crate::double::Double;
use crate::sort::{stable_sort, Keyed};

verus! {

/// 0.025
pub const LOW_BITS: u64 = 0x3F99_9999_9999_999A;

/// 0.975
pub const HIGH_BITS: u64 = 0x3FEF_3333_3333_3333;

/// Deterministic 64-bit generator. A dependency would do, but reproducing a
/// confidence interval on another machine should not depend on a crate's
/// version picking a different stream.
pub struct SplitMix64 {
    state: u64,
}

impl View for SplitMix64 {
    type V = u64;

    closed spec fn view(&self) -> u64 {
        self.state
    }
}

/// The state after `state`.
pub open spec fn next_state(state: u64) -> u64 {
    state.wrapping_add(0x9E37_79B9_7F4A_7C15)
}

/// The number that a state is mixed into.
pub open spec fn mixed(state: u64) -> u64 {
    let a = (state ^ (state >> 30)).wrapping_mul(0xBF58_476D_1CE4_E5B9);
    let b = (a ^ (a >> 27)).wrapping_mul(0x94D0_49BB_1331_11EB);
    b ^ (b >> 31)
}

impl SplitMix64 {
    pub fn new(seed: u64) -> (r: Self)
        ensures
            r@ == seed,
    {
        Self { state: seed }
    }

    pub fn next_u64(&mut self) -> (r: u64)
        ensures
            final(self)@ == next_state(old(self)@),
            r == mixed(final(self)@),
    {
        self.state = self.state.wrapping_add(0x9E37_79B9_7F4A_7C15);
        let mut z: u64 = self.state;
        z = (z ^ (z >> 30)).wrapping_mul(0xBF58_476D_1CE4_E5B9);
        z = (z ^ (z >> 27)).wrapping_mul(0x94D0_49BB_1331_11EB);
        z ^ (z >> 31)
    }

    pub fn below(&mut self, n: usize) -> (r: usize)
        requires
            n > 0,
        ensures
            final(self)@ == next_state(old(self)@),
            r == mixed(final(self)@) as int % n as int,
            r < n,
    {
        (self.next_u64() % n as u64) as usize
    }
}

/// The sum of `draws` elements drawn with replacement, and the state after that.
pub open spec fn drawn(data: Seq<Double>, state: u64, draws: nat) -> (Double, u64)
    decreases draws,
{
    if draws == 0 {
        (Double::of_int(0), state)
    } else {
        let (sum, before) = drawn(data, state, (draws - 1) as nat);
        let after = next_state(before);
        (sum.plus(data[mixed(after) as int % data.len() as int]), after)
    }
}

/// The means of `resamples` resamples, and the state after that.
pub open spec fn resampled(data: Seq<Double>, state: u64, resamples: nat) -> (Seq<Double>, u64)
    decreases resamples,
{
    if resamples == 0 {
        (Seq::empty(), state)
    } else {
        let (means, before) = resampled(data, state, (resamples - 1) as nat);
        let (sum, after) = drawn(data, before, data.len());
        (means.push(sum.over(Double::of_int(data.len() as int))), after)
    }
}

/// The means of the resamples that a seed gives.
pub open spec fn means_of(data: Seq<Double>, resamples: nat, seed: u64) -> Seq<Double> {
    resampled(data, seed, resamples).0
}

/// Where a percentile stands among `n` sorted means.
pub open spec fn place(n: nat, fraction: Double) -> int {
    let x = Double::of_int(n as int).times(fraction);
    let i = x.cast(x.trunc_int(), 0, u64::MAX as int);
    if i < n {
        i
    } else {
        n - 1
    }
}

impl Keyed for Double {
    open spec fn key(&self) -> int {
        self.rank()
    }

    fn precedes(&self, other: &Self) -> (r: bool) {
        let a: u64 = self.to_bits();
        let b: u64 = other.to_bits();
        let sign: u64 = crate::double::SIGN_BIT;
        if a >= sign {
            if b >= sign {
                b < a
            } else {
                a != sign || b != 0
            }
        } else if b >= sign {
            false
        } else {
            a < b
        }
    }
}

fn resample(data: &Vec<Double>, resamples: usize, seed: u64) -> (means: Vec<Double>)
    requires
        data.len() > 0,
    ensures
        means@ == means_of(data@, resamples as nat, seed),
        means.len() == resamples,
{
    let mut rng: SplitMix64 = SplitMix64::new(seed);
    let mut means: Vec<Double> = Vec::new();
    let size: Double = Double::from_u64(data.len() as u64);
    let mut i: usize = 0;
    while i < resamples
        invariant
            data.len() > 0,
            size == Double::of_int(data.len() as int),
            i <= resamples,
            means.len() == i,
            (means@, rng@) == resampled(data@, seed, i as nat),
        decreases resamples - i,
    {
        let ghost before = rng@;
        let mut sum: Double = Double::zero();
        let mut j: usize = 0;
        while j < data.len()
            invariant
                data.len() > 0,
                j <= data.len(),
                (sum, rng@) == drawn(data@, before, j as nat),
            decreases data.len() - j,
        {
            let at: usize = rng.below(data.len());
            sum = sum.add(data[at]);
            j = j + 1;
        }
        means.push(sum.div(size));
        i = i + 1;
    }
    means
}

fn index_of(n: usize, fraction: Double) -> (r: usize)
    requires
        n > 0,
    ensures
        r == place(n as nat, fraction),
        r < n,
{
    let i: u64 = Double::from_u64(n as u64).mul(fraction).trunc_u64();
    if i < n as u64 {
        i as usize
    } else {
        n - 1
    }
}

/// Every resampled mean is a number, so that they have an order. A single one
/// needs none.
pub open spec fn resamples_well(data: Seq<Double>, resamples: nat, seed: u64) -> bool {
    data.len() > 0 && resamples > 1 ==> forall|i: int|
        0 <= i < resamples ==> !(#[trigger] means_of(data, resamples, seed)[i]).is_nan()
}

/// Whether the resampled means have an order, as [`paired_bootstrap`] wants it.
pub fn can_bootstrap(data: &Vec<Double>, resamples: usize, seed: u64) -> (r: bool)
    ensures
        r == resamples_well(data@, resamples as nat, seed),
{
    if data.len() == 0 || resamples <= 1 {
        return true;
    }
    let means: Vec<Double> = resample(data, resamples, seed);
    let mut i: usize = 0;
    while i < resamples
        invariant
            data.len() > 0,
            resamples > 1,
            means.len() == resamples,
            means@ == means_of(data@, resamples as nat, seed),
            i <= resamples,
            forall|j: int| 0 <= j < i ==> !(#[trigger] means[j]).is_nan(),
        decreases resamples - i,
    {
        if means[i].not_a_number() {
            assert(means_of(data@, resamples as nat, seed)[i as int].is_nan());
            return false;
        }
        i = i + 1;
    }
    true
}

/// What [`paired_bootstrap`] may return: two places among the sorted means.
pub open spec fn is_interval(
    r: (Double, Double),
    data: Seq<Double>,
    resamples: nat,
    seed: u64,
    sorted: Seq<Double>,
) -> bool {
    &&& crate::sort::is_stable_sort(means_of(data, resamples, seed), sorted)
    &&& r.0 == sorted[place(resamples, Double { bits: LOW_BITS })]
    &&& r.1 == sorted[place(resamples, Double { bits: HIGH_BITS })]
}

/// Percentile 95% interval for the mean of `data`, resampling whole elements
/// with replacement. Elements are trading days, so within-day dependence is
/// kept intact. Neither end is a number where there is nothing to resample.
pub fn paired_bootstrap(data: &Vec<Double>, resamples: usize, seed: u64) -> (r: (Double, Double))
    requires
        resamples_well(data@, resamples as nat, seed),
    ensures
        data.len() == 0 || resamples == 0 ==> r == (Double::nan(), Double::nan()),
        data.len() > 0 && resamples > 0 ==> exists|sorted: Seq<Double>| #[trigger]
            is_interval(r, data@, resamples as nat, seed, sorted),
{
    if data.len() == 0 || resamples == 0 {
        let nan: Double = Double::from_bits(crate::double::NAN_BITS);
        return (nan, nan);
    }
    let means: Vec<Double> = resample(data, resamples, seed);
    let sorted: Vec<Double> = stable_sort(means);
    let lo: Double = sorted[index_of(resamples, Double::from_bits(LOW_BITS))];
    let hi: Double = sorted[index_of(resamples, Double::from_bits(HIGH_BITS))];
    assert(is_interval((lo, hi), data@, resamples as nat, seed, sorted@));
    (lo, hi)
}

/// The same sample and the same seed give the same interval.
pub proof fn law_the_same_seed_gives_the_same_interval(
    data: Seq<Double>,
    resamples: nat,
    seed: u64,
    first: (Double, Double),
    second: (Double, Double),
    a: Seq<Double>,
    b: Seq<Double>,
)
    requires
        is_interval(first, data, resamples, seed, a),
        is_interval(second, data, resamples, seed, b),
    ensures
        first == second,
{
    crate::sort::law_a_stable_sort_is_unique(means_of(data, resamples, seed), a, b);
}

proof fn lemma_trunc_keeps_order(a: Double, b: Double)
    requires
        a.non_negative(),
        b.non_negative(),
        a.at_most(b),
    ensures
        a.cast(a.trunc_int(), 0, u64::MAX as int) <= b.cast(b.trunc_int(), 0, u64::MAX as int),
        0 <= a.cast(a.trunc_int(), 0, u64::MAX as int),
{
    let unit = vstd::arithmetic::power2::pow2(1074) as int;
    vstd::arithmetic::power2::lemma_pow2_pos(1074);
    if a.is_finite() && b.is_finite() {
        crate::order::lemma_order_of_values(a, b);
        vstd::arithmetic::div_mod::lemma_div_is_ordered(a.size() as int, b.size() as int, unit);
    }
    if a.is_finite() {
        vstd::arithmetic::div_mod::lemma_div_pos_is_pos(a.size() as int, unit);
    }
}

/// The lower end of an interval is never above the upper one.
pub proof fn law_the_interval_is_not_reversed(
    data: Seq<Double>,
    resamples: nat,
    seed: u64,
    r: (Double, Double),
    sorted: Seq<Double>,
)
    requires
        is_interval(r, data, resamples, seed, sorted),
        0 < resamples <= u64::MAX,
        forall|i: int|
            0 <= i < resamples ==> !(#[trigger] means_of(data, resamples, seed)[i]).is_nan(),
    ensures
        r.0.at_most(r.1),
{
    let n = Double::of_int(resamples as int);
    let low = Double { bits: LOW_BITS };
    let high = Double { bits: HIGH_BITS };
    lemma_means_len(data, resamples, seed);
    crate::order::lemma_of_int(resamples as int);
    crate::order::lemma_times_monotone(low, high, n);
    crate::order::lemma_times_commutes(low, n);
    crate::order::lemma_times_commutes(high, n);
    reveal(Double::times);
    lemma_trunc_keeps_order(n.times(low), n.times(high));
    let i = place(resamples, low);
    let j = place(resamples, high);
    assert(sorted[i].key() <= sorted[j].key());
    crate::sort::lemma_sorted_item_is_given(means_of(data, resamples, seed), sorted, i);
    crate::sort::lemma_sorted_item_is_given(means_of(data, resamples, seed), sorted, j);
}

proof fn lemma_means_len(data: Seq<Double>, resamples: nat, seed: u64)
    ensures
        means_of(data, resamples, seed).len() == resamples,
    decreases resamples,
{
    if resamples > 0 {
        lemma_means_len(data, (resamples - 1) as nat, seed);
    }
}

/// The places in a sample of `n` that are drawn.
pub open spec fn picks(n: nat, state: u64, draws: nat) -> Seq<int>
    decreases draws,
{
    if draws == 0 {
        Seq::empty()
    } else {
        picks(n, state, (draws - 1) as nat).push(
            mixed(stepped(state, draws)) as int % n as int,
        )
    }
}

/// The state after some draws.
pub open spec fn stepped(state: u64, draws: nat) -> u64
    decreases draws,
{
    if draws == 0 {
        state
    } else {
        next_state(stepped(state, (draws - 1) as nat))
    }
}

/// The sum of some elements, from the positive zero on.
pub open spec fn summed(xs: Seq<Double>) -> Double
    decreases xs.len(),
{
    if xs.len() == 0 {
        Double::of_int(0)
    } else {
        summed(xs.drop_last()).plus(xs.last())
    }
}

/// Which places are drawn depends on the seed and on the size of the sample, not
/// on what stands in it.
pub proof fn law_the_draws_do_not_look_at_the_sample(data: Seq<Double>, state: u64, draws: nat)
    ensures
        drawn(data, state, draws).0 == summed(
            picks(data.len(), state, draws).map_values(|i: int| data[i]),
        ),
        drawn(data, state, draws).1 == stepped(state, draws),
    decreases draws,
{
    let look = |i: int| data[i];
    let places = picks(data.len(), state, draws);
    if draws == 0 {
        assert(places.map_values(look) =~= Seq::empty());
    } else {
        law_the_draws_do_not_look_at_the_sample(data, state, (draws - 1) as nat);
        let before = picks(data.len(), state, (draws - 1) as nat);
        assert(places.map_values(look).drop_last() =~= before.map_values(look));
        assert(places.map_values(look).last() == look(places.last()));
    }
}

/// Every number doubled.
pub open spec fn all_twice(data: Seq<Double>) -> Seq<Double> {
    data.map_values(|x: Double| x.twice())
}

/// No sum of drawn elements overflows when it is doubled, and no mean is so small
/// that digits are lost.
pub open spec fn doubles_well(data: Seq<Double>) -> bool {
    &&& forall|i: int|
        0 <= i < data.len() ==> (#[trigger] data[i]).is_finite() && data[i].twice().is_finite()
    &&& forall|state: u64, draws: nat|
        draws <= data.len() ==> (#[trigger] drawn(data, state, draws)).0.is_finite() && drawn(
            data,
            state,
            draws,
        ).0.twice().is_finite()
    &&& forall|state: u64|
        {
            let sum = (#[trigger] drawn(data, state, data.len())).0;
            let mean = sum.over(Double::of_int(data.len() as int));
            &&& crate::doubling::is_full(mean)
            &&& mean.pattern() == 0 ==> sum.pattern() == 0
            &&& mean.twice().is_finite()
        }
}

proof fn lemma_drawn_twice(data: Seq<Double>, state: u64, draws: nat)
    requires
        data.len() > 0,
        doubles_well(data),
        draws <= data.len(),
    ensures
        drawn(all_twice(data), state, draws).0 == drawn(data, state, draws).0.twice(),
        drawn(all_twice(data), state, draws).1 == drawn(data, state, draws).1,
    decreases draws,
{
    let twice = all_twice(data);
    if draws == 0 {
        let zero = Double::of_int(0);
        crate::order::lemma_of_int(0);
        crate::order::lemma_plus(zero, zero);
        assert(crate::rounding::units(0) == 0);
    } else {
        let m = (draws - 1) as nat;
        lemma_drawn_twice(data, state, m);
        let (sum, before) = drawn(data, state, m);
        let at = mixed(next_state(before)) as int % data.len() as int;
        assert(twice[at] == data[at].twice());
        assert(data[at].is_finite());
        assert(drawn(data, state, draws).0 == sum.plus(data[at]));
        assert(drawn(data, state, draws).0.twice().is_finite());
        crate::doubling::lemma_plus_twice(sum, data[at]);
    }
}

proof fn lemma_resampled_twice(data: Seq<Double>, state: u64, resamples: nat)
    requires
        0 < data.len() <= u64::MAX,
        doubles_well(data),
    ensures
        resampled(all_twice(data), state, resamples).0 == all_twice(
            resampled(data, state, resamples).0,
        ),
        resampled(all_twice(data), state, resamples).1 == resampled(data, state, resamples).1,
        forall|i: int|
            0 <= i < resampled(data, state, resamples).0.len() ==> {
                let mean = #[trigger] resampled(data, state, resamples).0[i];
                mean.is_finite() && mean.twice().is_finite()
            },
    decreases resamples,
{
    if resamples == 0 {
        assert(all_twice(Seq::empty()) =~= Seq::empty());
    } else {
        let m = (resamples - 1) as nat;
        lemma_resampled_twice(data, state, m);
        let (means, before) = resampled(data, state, m);
        let n = Double::of_int(data.len() as int);
        let sum = drawn(data, before, data.len()).0;
        let mean = sum.over(n);
        lemma_drawn_twice(data, before, data.len());
        crate::order::lemma_of_int(data.len() as int);
        assert(sum.is_finite() && sum.twice().is_finite());
        assert(mean.twice().is_finite());
        assert(mean.is_finite()) by {
            reveal(Double::plus);
        }
        crate::doubling::lemma_over_twice(sum, n);
        assert(all_twice(means.push(mean)) =~= all_twice(means).push(mean.twice()));
        assert forall|i: int| 0 <= i < resampled(data, state, resamples).0.len() implies {
            let mean = #[trigger] resampled(data, state, resamples).0[i];
            mean.is_finite() && mean.twice().is_finite()
        } by {
            if i < means.len() {
                assert(resampled(data, state, resamples).0[i] == means[i]);
            }
        }
    }
}

/// Where a rank goes when the number is doubled.
spec fn doubled_rank(rank: int) -> int {
    if rank < 0 {
        -(crate::doubling::doubled((-rank) as nat) as int)
    } else {
        crate::doubling::doubled(rank as nat) as int
    }
}

/// Doubling every element of a sample doubles both ends of its interval.
pub proof fn law_doubling_the_sample_doubles_the_interval(
    data: Seq<Double>,
    resamples: nat,
    seed: u64,
    one: (Double, Double),
    other: (Double, Double),
    a: Seq<Double>,
    b: Seq<Double>,
)
    requires
        0 < data.len() <= u64::MAX,
        0 < resamples,
        doubles_well(data),
        is_interval(one, data, resamples, seed, a),
        is_interval(other, all_twice(data), resamples, seed, b),
    ensures
        other.0 == one.0.twice(),
        other.1 == one.1.twice(),
{
    let means = means_of(data, resamples, seed);
    let f = |x: Double| x.twice();
    let grow = |k: int| doubled_rank(k);
    lemma_resampled_twice(data, seed, resamples);
    lemma_means_len(data, resamples, seed);
    assert forall|i: int| 0 <= i < means.len() implies f(#[trigger] means[i]).key() == grow(
        means[i].key(),
    ) by {
        crate::doubling::lemma_twice(means[i]);
    }
    assert forall|x: int, y: int| x < y implies #[trigger] grow(x) < #[trigger] grow(y) by {}
    crate::sort::law_a_growing_map_keeps_the_sort(means, a, f, grow);
    crate::sort::law_a_stable_sort_is_unique(all_twice(means), a.map_values(f), b);
    lemma_place(resamples, Double { bits: LOW_BITS });
    lemma_place(resamples, Double { bits: HIGH_BITS });
}

proof fn lemma_place(n: nat, fraction: Double)
    requires
        n > 0,
    ensures
        0 <= place(n, fraction) < n,
{
}

/// A sample of equal elements.
pub open spec fn copies(x: Double, n: nat) -> Seq<Double> {
    Seq::new(n, |i: int| x)
}

proof fn lemma_copies(x: Double, n: nat)
    requires
        n > 0,
    ensures
        crate::stats::total(copies(x, n)) == crate::stats::total(copies(x, (n - 1) as nat)).plus(
            x,
        ),
{
    assert(copies(x, n).drop_last() =~= copies(x, (n - 1) as nat));
}

/// Sums of up to `n` copies are finite.
pub open spec fn sums_up_to(x: Double, n: nat) -> bool {
    x.is_finite() && forall|m: nat|
        m <= n ==> (#[trigger] crate::stats::total(copies(x, m))).is_finite()
}

proof fn lemma_drawn_between(
    data: Seq<Double>,
    state: u64,
    draws: nat,
    low: Double,
    high: Double,
)
    requires
        data.len() > 0,
        draws <= data.len(),
        sums_up_to(low, data.len()),
        sums_up_to(high, data.len()),
        forall|i: int|
            0 <= i < data.len() ==> low.at_most(#[trigger] data[i]) && data[i].at_most(high),
    ensures
        drawn(data, state, draws).0.is_finite(),
        crate::stats::total(copies(low, draws)).at_most(drawn(data, state, draws).0),
        drawn(data, state, draws).0.at_most(crate::stats::total(copies(high, draws))),
    decreases draws,
{
    crate::order::lemma_of_int(0);
    if draws > 0 {
        let m = (draws - 1) as nat;
        lemma_drawn_between(data, state, m, low, high);
        lemma_copies(low, draws);
        lemma_copies(high, draws);
        let (sum, before) = drawn(data, state, m);
        let x = data[mixed(next_state(before)) as int % data.len() as int];
        assert(low.at_most(x) && x.at_most(high));
        let floor = crate::stats::total(copies(low, m));
        let roof = crate::stats::total(copies(high, m));
        crate::order::lemma_plus_keeps_order(floor, sum, low);
        crate::order::lemma_plus_keeps_order(low, x, sum);
        crate::order::lemma_plus_keeps_order(sum, roof, high);
        crate::order::lemma_plus_keeps_order(x, high, sum);
        assert(crate::stats::total(copies(low, draws)).is_finite());
        assert(crate::stats::total(copies(high, draws)).is_finite());
    } else {
        assert(copies(low, 0) =~= Seq::empty());
        assert(copies(high, 0) =~= Seq::empty());
    }
}

/// The interval lies between the extremes of the sample, each with the roundings
/// that the mean of as many copies of it goes through.
pub proof fn law_the_interval_lies_within_the_sample(
    data: Seq<Double>,
    resamples: nat,
    seed: u64,
    r: (Double, Double),
    sorted: Seq<Double>,
    low: Double,
    high: Double,
)
    requires
        0 < data.len() <= u64::MAX,
        0 < resamples,
        is_interval(r, data, resamples, seed, sorted),
        sums_up_to(low, data.len()),
        sums_up_to(high, data.len()),
        forall|i: int|
            0 <= i < data.len() ==> low.at_most(#[trigger] data[i]) && data[i].at_most(high),
    ensures
        crate::stats::mean_of(copies(low, data.len())).at_most(r.0),
        r.0.at_most(crate::stats::mean_of(copies(high, data.len()))),
        crate::stats::mean_of(copies(low, data.len())).at_most(r.1),
        r.1.at_most(crate::stats::mean_of(copies(high, data.len()))),
{
    let means = means_of(data, resamples, seed);
    lemma_means_len(data, resamples, seed);
    lemma_means_between(data, seed, resamples, low, high);
    lemma_place(resamples, Double { bits: LOW_BITS });
    lemma_place(resamples, Double { bits: HIGH_BITS });
    let i = place(resamples, Double { bits: LOW_BITS });
    let j = place(resamples, Double { bits: HIGH_BITS });
    crate::sort::lemma_sorted_item_is_given(means, sorted, i);
    crate::sort::lemma_sorted_item_is_given(means, sorted, j);
}

proof fn lemma_means_between(
    data: Seq<Double>,
    state: u64,
    resamples: nat,
    low: Double,
    high: Double,
)
    requires
        0 < data.len() <= u64::MAX,
        sums_up_to(low, data.len()),
        sums_up_to(high, data.len()),
        forall|i: int|
            0 <= i < data.len() ==> low.at_most(#[trigger] data[i]) && data[i].at_most(high),
    ensures
        forall|i: int|
            0 <= i < resampled(data, state, resamples).0.len() ==> {
                let mean = #[trigger] resampled(data, state, resamples).0[i];
                &&& crate::stats::mean_of(copies(low, data.len())).at_most(mean)
                &&& mean.at_most(crate::stats::mean_of(copies(high, data.len())))
            },
    decreases resamples,
{
    if resamples > 0 {
        let m = (resamples - 1) as nat;
        lemma_means_between(data, state, m, low, high);
        let (means, before) = resampled(data, state, m);
        let n = Double::of_int(data.len() as int);
        let sum = drawn(data, before, data.len()).0;
        lemma_drawn_between(data, before, data.len(), low, high);
        crate::order::lemma_of_int(data.len() as int);
        crate::order::lemma_over_keeps_order(
            crate::stats::total(copies(low, data.len())),
            sum,
            n,
        );
        crate::order::lemma_over_keeps_order(
            sum,
            crate::stats::total(copies(high, data.len())),
            n,
        );
        assert forall|i: int| 0 <= i < resampled(data, state, resamples).0.len() implies {
            let mean = #[trigger] resampled(data, state, resamples).0[i];
            &&& crate::stats::mean_of(copies(low, data.len())).at_most(mean)
            &&& mean.at_most(crate::stats::mean_of(copies(high, data.len())))
        } by {
            if i < means.len() {
                assert(resampled(data, state, resamples).0[i] == means[i]);
            }
        }
    }
}

} // verus!
