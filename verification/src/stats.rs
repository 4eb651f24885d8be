//! Sums, means and least squares over binary64 numbers, taken left to right.
use vstd::prelude::*;

use crate::double::Double;

verus! {

/// One more, as far as the type goes.
pub open spec fn one_more(n: u64) -> u64 {
    if n < u64::MAX {
        (n + 1) as u64
    } else {
        n
    }
}

pub fn count(n: u64) -> (r: u64)
    ensures
        r == one_more(n),
{
    if n < u64::MAX {
        n + 1
    } else {
        n
    }
}

/// The sum of some numbers. It starts at the negative zero, which added to any
/// number leaves that number.
pub open spec fn total(xs: Seq<Double>) -> Double
    decreases xs.len(),
{
    if xs.len() == 0 {
        Double::of_int(0).negated()
    } else {
        total(xs.drop_last()).plus(xs.last())
    }
}

/// The mean of some numbers; not a number where there are none.
pub open spec fn mean_of(xs: Seq<Double>) -> Double {
    if xs.len() == 0 {
        Double::nan()
    } else {
        total(xs).over(Double::of_int(xs.len() as int))
    }
}

/// The sum of the products of the deviations from `mx` and `my`.
pub open spec fn deviation(xs: Seq<Double>, ys: Seq<Double>, mx: Double, my: Double) -> Double
    decreases xs.len(),
{
    if xs.len() == 0 || ys.len() == 0 {
        Double::of_int(0)
    } else {
        deviation(xs.drop_last(), ys.drop_last(), mx, my).plus(
            xs.last().minus(mx).times(ys.last().minus(my)),
        )
    }
}

/// The variance of a sample, with one less than its size as the divisor.
pub open spec fn variance_of(xs: Seq<Double>) -> Double {
    let m = mean_of(xs);
    deviation(xs, xs, m, m).over(Double::of_int(xs.len() - 1))
}

pub fn sum(xs: &Vec<Double>) -> (r: Double)
    ensures
        r == total(xs@),
{
    let mut sum: Double = Double::zero().neg();
    let mut i: usize = 0;
    assert(xs@.take(0) =~= Seq::empty());
    while i < xs.len()
        invariant
            i <= xs.len(),
            sum == total(xs@.take(i as int)),
        decreases xs.len() - i,
    {
        assert(xs@.take(i + 1).drop_last() =~= xs@.take(i as int));
        sum = sum.add(xs[i]);
        i = i + 1;
    }
    assert(xs@.take(i as int) =~= xs@);
    sum
}

pub fn mean(xs: &Vec<Double>) -> (r: Double)
    ensures
        r == mean_of(xs@),
{
    if xs.len() == 0 {
        Double::from_bits(crate::double::NAN_BITS)
    } else {
        sum(xs).div(Double::from_u64(xs.len() as u64))
    }
}

/// The sum of the products of the deviations from `mx` and `my`.
pub fn sum_of_products(xs: &Vec<Double>, ys: &Vec<Double>, mx: Double, my: Double) -> (r: Double)
    requires
        xs.len() == ys.len(),
    ensures
        r == deviation(xs@, ys@, mx, my),
{
    let mut sum: Double = Double::zero();
    let mut i: usize = 0;
    assert(xs@.take(0) =~= Seq::empty());
    while i < xs.len()
        invariant
            i <= xs.len(),
            xs.len() == ys.len(),
            sum == deviation(xs@.take(i as int), ys@.take(i as int), mx, my),
        decreases xs.len() - i,
    {
        assert(xs@.take(i + 1).drop_last() =~= xs@.take(i as int));
        assert(ys@.take(i + 1).drop_last() =~= ys@.take(i as int));
        sum = sum.add(xs[i].sub(mx).mul(ys[i].sub(my)));
        i = i + 1;
    }
    assert(xs@.take(i as int) =~= xs@);
    assert(ys@.take(i as int) =~= ys@);
    sum
}

pub fn variance(xs: &Vec<Double>) -> (r: Double)
    requires
        xs.len() >= 2,
    ensures
        r == variance_of(xs@),
{
    let m: Double = mean(xs);
    sum_of_products(xs, xs, m, m).div(Double::from_u64((xs.len() - 1) as u64))
}

/// The slope of the least squares line through some points, and the share of
/// the variance that it explains. Neither is a number where there are fewer
/// than three points or where one of the coordinates does not vary.
pub open spec fn regression(xs: Seq<Double>, ys: Seq<Double>) -> (Double, Double) {
    let mx = mean_of(xs);
    let my = mean_of(ys);
    let sxy = deviation(xs, ys, mx, my);
    let sxx = deviation(xs, xs, mx, mx);
    let syy = deviation(ys, ys, my, my);
    let zero = Double::of_int(0);
    if xs.len() < 3 || sxx.same(zero) || syy.same(zero) {
        (Double::nan(), Double::nan())
    } else {
        (sxy.over(sxx), sxy.times(sxy).over(sxx.times(syy)))
    }
}

fn first(xs: &Vec<Double>, n: usize) -> (r: Vec<Double>)
    requires
        n <= xs.len(),
    ensures
        r@ == xs@.take(n as int),
{
    let mut out: Vec<Double> = Vec::new();
    let mut i: usize = 0;
    while i < n
        invariant
            i <= n <= xs.len(),
            out@ == xs@.take(i as int),
        decreases n - i,
    {
        out.push(xs[i]);
        i = i + 1;
    }
    out
}

/// Ordinary least squares of `y` on `x` with an intercept, returning
/// (slope, r_squared, n). Points without a partner are left out.
pub fn regress(x: &Vec<Double>, y: &Vec<Double>) -> (r: (Double, Double, usize))
    ensures
        ({
            let n = if x.len() <= y.len() {
                x.len()
            } else {
                y.len()
            };
            &&& r.2 == n
            &&& (r.0, r.1) == regression(x@.take(n as int), y@.take(n as int))
        }),
{
    let n: usize = if x.len() <= y.len() {
        x.len()
    } else {
        y.len()
    };
    let nan: Double = Double::from_bits(crate::double::NAN_BITS);
    if n < 3 {
        return (nan, nan, n);
    }
    let xs: Vec<Double> = first(x, n);
    let ys: Vec<Double> = first(y, n);
    let mx: Double = mean(&xs);
    let my: Double = mean(&ys);
    let sxy: Double = sum_of_products(&xs, &ys, mx, my);
    let sxx: Double = sum_of_products(&xs, &xs, mx, mx);
    let syy: Double = sum_of_products(&ys, &ys, my, my);
    if sxx.eq(Double::zero()) || syy.eq(Double::zero()) {
        return (nan, nan, n);
    }
    (sxy.div(sxx), sxy.mul(sxy).div(sxx.mul(syy)), n)
}

} // verus!
