//! Which of the resampled means are the ends of the interval.
use vstd::arithmetic::power2::*;
use vstd::prelude::*;

use crate::double::Double;
use crate::error::PRECISION;

verus! {

/// What a product with a fraction near `num` fortieths is, in units.
proof fn lemma_product(n: int, v: int, f: int, unit: int, m: int, d: int, num: int, e: int)
    requires
        1 <= n <= 0x100_0000_0000,
        unit >= 0x20_0000_0000_0000,
        f * d == m * unit,
        40 * m == num * d + e,
        -16 <= e <= 16,
        d >= 0x20_0000_0000_0000,
        0 <= f <= unit,
        crate::error::gap(v, n * f) * PRECISION <= n * f + 0x10_0000_0000_0000,
    ensures
        -unit <= 50 * (40 * v - (num * n) * unit) <= unit,
{
    let g = crate::error::gap(v, n * f);
    assert(g * PRECISION <= 0x200_0000_0000 * unit) by (nonlinear_arith)
        requires
            g * PRECISION <= n * f + 0x10_0000_0000_0000,
            1 <= n <= 0x100_0000_0000,
            0 <= f <= unit,
            unit >= 0x20_0000_0000_0000,
    ;
    assert(0x1000 * g <= unit) by (nonlinear_arith)
        requires
            g * PRECISION <= 0x200_0000_0000 * unit,
            PRECISION == 0x20_0000_0000_0000,
            unit > 0,
    ;
    let off = 40 * (n * f) - (num * n) * unit;
    assert(off * d == n * e * unit) by (nonlinear_arith)
        requires
            off == 40 * (n * f) - (num * n) * unit,
            f * d == m * unit,
            40 * m == num * d + e,
    ;
    assert(-(0x1000_0000_0000 * unit) <= off * d <= 0x1000_0000_0000 * unit) by (nonlinear_arith)
        requires
            off * d == n * e * unit,
            1 <= n <= 0x100_0000_0000,
            -16 <= e <= 16,
            unit > 0,
    ;
    assert(-unit <= 0x200 * off <= unit) by (nonlinear_arith)
        requires
            -(0x1000_0000_0000 * unit) <= off * d <= 0x1000_0000_0000 * unit,
            d >= 0x20_0000_0000_0000,
            unit > 0,
    ;
}

proof fn lemma_place(n: nat, fraction: Double, m: int, d: int, num: int, e: int)
    requires
        1 <= n <= 0x100_0000_0000,
        fraction.non_negative(),
        fraction.is_finite(),
        fraction.at_most(Double::of_int(1)),
        fraction.value() * d == m * pow2(1074),
        40 * m == num * d + e,
        -16 <= e <= 16,
        d >= 0x20_0000_0000_0000,
        1 <= num <= 39,
    ensures
        num * n - 40 <= 40 * crate::bootstrap::place(n, fraction) <= num * n,
{
    let unit = pow2(1074) as int;
    let one = Double::of_int(1);
    let a = Double::of_int(n as int);
    let f = fraction.value();
    lemma_pow2_pos(1074);
    lemma2_to64();
    lemma2_to64_rest();
    lemma_pow2_strictly_increases(53, 1074);
    crate::order::lemma_of_int(1);
    crate::order::lemma_of_int_exact(1);
    crate::order::lemma_of_int(n as int);
    crate::order::lemma_of_int_exact(n as int);
    crate::order::lemma_order_of_values(fraction, one);
    crate::order::lemma_times_monotone(fraction, one, a);
    crate::order::lemma_times_commutes(fraction, a);
    crate::order::lemma_times_commutes(one, a);
    crate::order::lemma_times_one(a);
    let x = a.times(fraction);
    let v = x.value();
    crate::error::lemma_times_error(a, fraction);
    assert(crate::error::gap(v, n * f) * PRECISION <= n * f + 0x10_0000_0000_0000) by {
        crate::error::lemma_gap_scales(v, n * f, unit);
        let g = crate::error::gap(v, n * f);
        let p = n * f;
        assert((n * unit) * f == p * unit && p * unit >= 0 && p >= 0) by (nonlinear_arith)
            requires
                p == n * f,
                n >= 1,
                f >= 0,
                unit > 0,
        ;
        assert(g * PRECISION <= p + 0x10_0000_0000_0000) by (nonlinear_arith)
            requires
                (g * unit) * PRECISION <= p * unit + unit * 0x10_0000_0000_0000,
                unit > 0,
        ;
    }
    lemma_product(n as int, v, f, unit, m, d, num, e);
    let t = x.trunc_int();
    assert(t == v / unit);
    vstd::arithmetic::div_mod::lemma_fundamental_div_mod(v, unit);
    vstd::arithmetic::div_mod::lemma_mod_bound(v, unit);
    let k = num * n;
    let r = v % unit;
    assert(40 * t <= k && k - 40 <= 40 * t) by (nonlinear_arith)
        requires
            v == unit * t + r,
            0 <= r < unit,
            -unit <= 50 * (40 * v - k * unit) <= unit,
            unit > 0,
    ;
    assert(k <= 39 * n) by (nonlinear_arith)
        requires
            k == num * n,
            num <= 39,
            n >= 1,
    ;
}

/// The number of a pattern, in units.
proof fn lemma_value(bits: u64, m: nat, k: nat)
    requires
        crate::rounding::BINADE <= m < 2 * crate::rounding::BINADE,
        bits == k * crate::rounding::BINADE + m,
        bits < crate::rounding::INFINITY_BITS,
    ensures
        (Double { bits }).value() == m * pow2(k),
        (Double { bits }).is_finite(),
        (Double { bits }).non_negative(),
{
    crate::rounding::lemma_units_of_binade(m, k);
}

/// The interval leaves out a fortieth of the sorted means at each end: its lower
/// end stands at the fortieth part of them and its upper end at 39 of 40 parts,
/// each with the next place below where that is a whole number.
pub proof fn law_the_interval_leaves_out_a_fortieth_at_each_end(
    r: (Double, Double),
    data: Seq<Double>,
    resamples: nat,
    seed: u64,
    sorted: Seq<Double>,
)
    requires
        crate::bootstrap::is_interval(r, data, resamples, seed, sorted),
        1 <= resamples <= 0x100_0000_0000,
    ensures
        exists|low: int, high: int|
            {
                &&& r.0 == #[trigger] sorted[low]
                &&& r.1 == #[trigger] sorted[high]
                &&& resamples - 40 <= 40 * low <= resamples
                &&& 39 * resamples - 40 <= 40 * high <= 39 * resamples
                &&& 0 <= low <= high < resamples
            },
{
    let low = Double { bits: crate::bootstrap::LOW_BITS };
    let high = Double { bits: crate::bootstrap::HIGH_BITS };
    let a: nat = 0x19_9999_9999_999A;
    let b: nat = 0x1F_3333_3333_3333;
    lemma2_to64();
    lemma2_to64_rest();
    lemma_value(low.bits, a, 1016);
    lemma_value(high.bits, b, 1021);
    lemma_pow2_adds(1016, 58);
    lemma_pow2_adds(1021, 53);
    lemma_pow2_pos(1016);
    lemma_pow2_pos(1021);
    let x = pow2(1016) as int;
    let y = pow2(1021) as int;
    assert((a * x) * pow2(58) == a * (x * pow2(58))) by (nonlinear_arith);
    assert((b * y) * pow2(53) == b * (y * pow2(53))) by (nonlinear_arith);
    crate::order::lemma_of_int(1);
    crate::order::lemma_of_int_exact(1);
    crate::order::lemma_order_of_values(low, Double::of_int(1));
    crate::order::lemma_order_of_values(high, Double::of_int(1));
    assert(a * x <= x * pow2(58)) by (nonlinear_arith)
        requires
            a <= pow2(58),
            x > 0,
    ;
    assert(b * y <= y * pow2(53)) by (nonlinear_arith)
        requires
            b <= pow2(53),
            y > 0,
    ;
    lemma_place(resamples, low, a as int, pow2(58) as int, 1, 40 * a - pow2(58));
    lemma_place(resamples, high, b as int, pow2(53) as int, 39, 40 * b - 39 * pow2(53));
    let l = crate::bootstrap::place(resamples, low);
    let h = crate::bootstrap::place(resamples, high);
    assert(l >= 0 && h >= 0);
    assert(l <= h);
    assert(r.0 == sorted[l] && r.1 == sorted[h]);
}

/// Each resample draws as many elements as there are, its mean is what they add up to
/// over how many there are, and each goes on where the one before it ended.
pub proof fn law_each_mean_is_of_as_many_draws_as_there_are_elements(
    data: Seq<Double>,
    resamples: nat,
    seed: u64,
    i: int,
)
    requires
        0 <= i < resamples,
    ensures
        ({
            let means = crate::bootstrap::means_of(data, resamples, seed);
            let state = crate::bootstrap::stepped(seed, (i * data.len()) as nat);
            let places = crate::bootstrap::picks(data.len(), state, data.len());
            &&& means.len() == resamples
            &&& means[i] == crate::bootstrap::summed(places.map_values(|j: int| data[j])).over(
                Double::of_int(data.len() as int),
            )
        }),
{
    lemma_resampled(data, resamples, seed, i);
    let state = crate::bootstrap::stepped(seed, (i * data.len()) as nat);
    crate::bootstrap::law_the_draws_do_not_look_at_the_sample(data, state, data.len());
}

proof fn lemma_stepped_on(state: u64, a: nat, b: nat)
    ensures
        crate::bootstrap::stepped(crate::bootstrap::stepped(state, a), b)
            == crate::bootstrap::stepped(state, a + b),
    decreases b,
{
    if b > 0 {
        lemma_stepped_on(state, a, (b - 1) as nat);
    }
}

proof fn lemma_resampled(data: Seq<Double>, resamples: nat, seed: u64, i: int)
    ensures
        ({
            let (means, after) = crate::bootstrap::resampled(data, seed, resamples);
            &&& means.len() == resamples
            &&& after == crate::bootstrap::stepped(seed, resamples * data.len())
            &&& 0 <= i < resamples ==> means[i] == crate::bootstrap::drawn(
                data,
                crate::bootstrap::stepped(seed, (i * data.len()) as nat),
                data.len(),
            ).0.over(Double::of_int(data.len() as int))
        }),
    decreases resamples,
{
    let n = data.len();
    if resamples == 0 {
        assert(0 * n == 0);
    } else {
        let k = (resamples - 1) as nat;
        lemma_resampled(data, k, seed, i);
        let before = crate::bootstrap::resampled(data, seed, k).1;
        crate::bootstrap::law_the_draws_do_not_look_at_the_sample(data, before, n);
        lemma_stepped_on(seed, k * n, n);
        assert(k * n + n == resamples * n) by (nonlinear_arith)
            requires
                k == resamples - 1,
        ;
    }
}

/// A single mean needs no order, and neither does none: only several of them have to be
/// numbers.
pub proof fn law_a_single_mean_needs_no_order(data: Seq<Double>, resamples: nat, seed: u64)
    requires
        resamples <= 1 || data.len() == 0,
    ensures
        crate::bootstrap::resamples_well(data, resamples, seed),
{
}

/// Each draw is what is left of the next random number once the size of the sample is taken
/// off it as often as it goes.
pub proof fn law_a_draw_is_the_remainder_of_the_next_number(
    n: nat,
    state: u64,
    draws: nat,
    j: int,
)
    requires
        0 < n,
        0 <= j < draws,
    ensures
        ({
            let pick = crate::bootstrap::picks(n, state, draws)[j];
            let number = crate::bootstrap::mixed(crate::bootstrap::stepped(state, (j + 1) as nat));
            &&& crate::bootstrap::picks(n, state, draws).len() == draws
            &&& 0 <= pick < n
            &&& exists|k: int| number as int == #[trigger] (k * n) + pick
        }),
{
    lemma_pick(n, state, draws, j);
    let number = crate::bootstrap::mixed(
        crate::bootstrap::stepped(state, (j + 1) as nat),
    ) as int;
    let k = number / n as int;
    vstd::arithmetic::div_mod::lemma_fundamental_div_mod(number, n as int);
    vstd::arithmetic::div_mod::lemma_mod_bound(number, n as int);
    assert(k * n == n as int * k) by (nonlinear_arith);
    assert(number == k * n + crate::bootstrap::picks(n, state, draws)[j]);
}

proof fn lemma_pick(n: nat, state: u64, draws: nat, j: int)
    requires
        0 <= j < draws,
    ensures
        crate::bootstrap::picks(n, state, draws).len() == draws,
        crate::bootstrap::picks(n, state, draws)[j] == crate::bootstrap::mixed(
            crate::bootstrap::stepped(state, (j + 1) as nat),
        ) as int % n as int,
    decreases draws,
{
    reveal_with_fuel(crate::bootstrap::picks, 2);
    if j < draws - 1 {
        lemma_pick(n, state, (draws - 1) as nat, j);
    } else if draws > 1 {
        lemma_pick(n, state, (draws - 1) as nat, 0);
    }
}

} // verus!
