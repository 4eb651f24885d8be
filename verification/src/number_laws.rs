//! What comparing, rounding down and cutting off do to a number.
use vstd::arithmetic::power2::*;
use vstd::prelude::*;

use crate::double::Double;

verus! {

/// The larger of two numbers is one of them and not below either, and the smaller one
/// is one of them and not above either.
pub proof fn law_the_larger_is_not_below_either(a: Double, b: Double)
    requires
        !a.is_nan(),
        !b.is_nan(),
    ensures
        a.larger(b) == a || a.larger(b) == b,
        a.at_most(a.larger(b)),
        b.at_most(a.larger(b)),
        a.smaller(b) == a || a.smaller(b) == b,
        a.smaller(b).at_most(a),
        a.smaller(b).at_most(b),
{
}

/// What is not a number gives way to what is.
pub proof fn law_what_is_no_number_gives_way(a: Double, b: Double)
    requires
        a.is_nan(),
    ensures
        a.larger(b) == b,
        a.smaller(b) == b,
        !b.is_nan() ==> b.larger(a) == b && b.smaller(a) == b,
        !a.below(b) && !b.below(a) && !a.at_most(b) && !a.same(b),
{
}

/// The floor of a number is the largest integer that is not above it.
pub proof fn law_the_floor_is_just_below(a: Double)
    requires
        a.is_finite(),
    ensures
        a.floor_int() * pow2(1074) <= a.value() < (a.floor_int() + 1) * pow2(1074),
{
    let unit = pow2(1074) as int;
    lemma_pow2_pos(1074);
    let v = a.value();
    vstd::arithmetic::div_mod::lemma_fundamental_div_mod(v, unit);
    vstd::arithmetic::div_mod::lemma_mod_bound(v, unit);
    let q = v / unit;
    assert(q * unit == unit * q && (q + 1) * unit == unit * q + unit) by (nonlinear_arith);
}

/// Cutting off the fraction of a number brings it towards zero by less than one.
pub proof fn law_a_fraction_is_cut_off_towards_zero(a: Double)
    requires
        a.is_finite(),
    ensures
        a.value() >= 0 ==> 0 <= a.trunc_int() * pow2(1074) <= a.value() < (a.trunc_int() + 1)
            * pow2(1074),
        a.value() <= 0 ==> (a.trunc_int() - 1) * pow2(1074) < a.value() <= a.trunc_int() * pow2(
            1074,
        ) <= 0,
{
    let unit = pow2(1074) as int;
    lemma_pow2_pos(1074);
    let s = a.size() as int;
    vstd::arithmetic::div_mod::lemma_fundamental_div_mod(s, unit);
    vstd::arithmetic::div_mod::lemma_mod_bound(s, unit);
    vstd::arithmetic::div_mod::lemma_div_pos_is_pos(s, unit);
    let q = s / unit;
    assert(q * unit == unit * q && (q + 1) * unit == unit * q + unit && (-q) * unit == -(unit * q)
        && (-q - 1) * unit == -(unit * q) - unit && q * unit >= 0) by (nonlinear_arith)
        requires
            q >= 0,
            unit > 0,
    ;
    assert(q == a.size() / pow2(1074));
}

/// The size of a number does not depend on its sign.
pub proof fn law_the_size_does_not_depend_on_the_sign(a: Double)
    ensures
        a.magnitude() == a.negated().magnitude(),
        !a.magnitude().is_neg(),
        a.magnitude().pattern() == a.pattern(),
        a.magnitude() == a || a.magnitude() == a.negated(),
{
    crate::order::lemma_negated(a);
}

/// A cast keeps what the type holds, takes the nearest end of its range for what it does
/// not hold, infinities included, and makes zero of what is not a number.
pub proof fn law_a_cast_takes_the_nearest_value(a: Double, n: int, lo: int, hi: int)
    requires
        lo <= 0 <= hi,
    ensures
        lo <= a.cast(n, lo, hi) <= hi,
        a.is_nan() ==> a.cast(n, lo, hi) == 0,
        a.is_inf() ==> a.cast(n, lo, hi) == if a.is_neg() {
            lo
        } else {
            hi
        },
        a.is_finite() && lo <= n <= hi ==> a.cast(n, lo, hi) == n,
        a.is_finite() && n < lo ==> a.cast(n, lo, hi) == lo,
        a.is_finite() && hi < n ==> a.cast(n, lo, hi) == hi,
{
}

/// Counting goes up by one and stops at the largest count.
pub proof fn law_a_count_stops_at_the_largest(n: u64)
    ensures
        n < u64::MAX ==> crate::stats::one_more(n) == n + 1,
        crate::stats::one_more(u64::MAX) == u64::MAX,
{
}

} // verus!
