//! Rounding of exact quotients to binary64 bit patterns.
//!
//! Magnitudes are counted in units of two to the power of -1074, the smallest
//! positive binary64 number, so every finite binary64 magnitude is a natural
//! number and every exact result of an operation is a quotient of two.
use vstd::arithmetic::div_mod::*;
use vstd::arithmetic::mul::*;
use vstd::arithmetic::power2::*;
use vstd::prelude::*;

verus! {

/// Two to the power of 52: the weight of the implicit leading digit, and the
/// distance between the patterns of two neighbouring binades.
pub const BINADE: u64 = 0x0010_0000_0000_0000;

/// The pattern of positive infinity.
pub const INFINITY_BITS: u64 = 0x7FF0_0000_0000_0000;

/// How many binary digits `t` has. Zero has none.
pub open spec fn bit_len(t: nat) -> nat
    decreases t,
{
    if t == 0 {
        0
    } else {
        1 + bit_len(t / 2)
    }
}

/// `num / den` rounded to the nearest integer, ties to the even one.
pub open spec fn nearest_even(num: nat, den: nat) -> nat {
    let q = num / den;
    let r = num % den;
    if 2 * r > den || (2 * r == den && q % 2 == 1) {
        q + 1
    } else {
        q
    }
}

/// The binary logarithm of the distance between neighbouring binary64 numbers
/// around `num / den`: 53 significant digits are kept, and none below the unit.
pub open spec fn spacing(num: nat, den: nat) -> nat {
    let digits = bit_len(num / den);
    if digits <= 53 {
        0
    } else {
        (digits - 53) as nat
    }
}

/// The pattern of the non-negative binary64 number nearest to `num / den`
/// units, ties to even, infinity when the magnitude is too large.
///
/// A magnitude of `m` times two to the power of `k`, with `m` of 53 digits (or
/// fewer where `k` is zero), has the pattern `k * BINADE + m`.
pub open spec fn nearest(num: nat, den: nat) -> nat {
    let k = spacing(num, den);
    let pattern = k * BINADE as nat + nearest_even(num, den * pow2(k));
    if pattern > INFINITY_BITS {
        INFINITY_BITS as nat
    } else {
        pattern
    }
}

/// The magnitude in units that a finite pattern without its sign stands for.
pub open spec fn units(pattern: nat) -> nat {
    if pattern < BINADE {
        pattern
    } else {
        (BINADE as nat + pattern % BINADE as nat) * pow2(
            (pattern / BINADE as nat - 1) as nat,
        )
    }
}

pub proof fn lemma_bit_len(t: nat)
    ensures
        t < pow2(bit_len(t)),
        t > 0 ==> bit_len(t) > 0 && pow2((bit_len(t) - 1) as nat) <= t,
    decreases t,
{
    lemma2_to64();
    if t > 0 {
        lemma_bit_len(t / 2);
        lemma_pow2_unfold(bit_len(t));
        if t / 2 > 0 {
            lemma_pow2_unfold((bit_len(t) - 1) as nat);
        }
    }
}

pub proof fn lemma_bit_len_is(t: nat, n: nat)
    requires
        n > 0,
        pow2((n - 1) as nat) <= t < pow2(n),
    ensures
        bit_len(t) == n,
{
    lemma_bit_len(t);
    lemma_pow2_pos((n - 1) as nat);
    let m = bit_len(t);
    if m < n {
        if m < n - 1 {
            lemma_pow2_strictly_increases(m, (n - 1) as nat);
        }
    }
    if n < m {
        if n < m - 1 {
            lemma_pow2_strictly_increases(n, (m - 1) as nat);
        }
    }
}

pub proof fn lemma_bit_len_monotone(a: nat, b: nat)
    requires
        a <= b,
    ensures
        bit_len(a) <= bit_len(b),
    decreases b,
{
    if a > 0 {
        lemma_bit_len_monotone(a / 2, b / 2);
    }
}

/// Scaling both sides of a quotient changes neither its floor nor the way it
/// rounds.
pub proof fn lemma_nearest_even_scale(num: nat, den: nat, c: nat)
    requires
        den > 0,
        c > 0,
    ensures
        nearest_even(num * c, den * c) == nearest_even(num, den),
        (num * c) / (den * c) == num / den,
{
    let q = num / den;
    let r = num % den;
    lemma_fundamental_div_mod(num as int, den as int);
    assert(num * c == q * (den * c) + r * c) by (nonlinear_arith)
        requires
            num == den * q + r,
    ;
    assert(0 <= r * c < den * c) by (nonlinear_arith)
        requires
            0 <= r < den,
            c > 0,
    ;
    lemma_fundamental_div_mod_converse(
        (num * c) as int,
        (den * c) as int,
        q as int,
        (r * c) as int,
    );
    assert(2 * (r * c) > den * c <==> 2 * r > den) by (nonlinear_arith)
        requires
            c > 0,
    ;
    assert(2 * (r * c) == den * c <==> 2 * r == den) by (nonlinear_arith)
        requires
            c > 0,
    ;
}

/// How a quotient rounds can be read off its floor in a finer grid: `s` is the
/// floor of `num / b`, `exact` says that nothing was cut off, and the coarser
/// grid is `pow2(d)` times wider.
pub proof fn lemma_nearest_even_from_floor(num: nat, b: nat, s: nat, exact: bool, d: nat)
    requires
        b > 0,
        d > 0,
        s * b <= num < (s + 1) * b,
        exact <==> num == s * b,
    ensures
        ({
            let q = s / pow2(d);
            let r = s % pow2(d);
            nearest_even(num, b * pow2(d)) == if 2 * r > pow2(d) || (2 * r == pow2(d) && (!exact
                || q % 2 == 1)) {
                q + 1
            } else {
                q
            }
        }),
{
    let w = pow2(d);
    let half = pow2((d - 1) as nat);
    lemma_pow2_unfold(d);
    lemma_pow2_pos(d);
    assert(w == 2 * half);
    let q = s / w;
    let r = s % w;
    let f = (num - s * b) as nat;
    lemma_fundamental_div_mod(s as int, w as int);
    assert(f < b) by (nonlinear_arith)
        requires
            num < (s + 1) * b,
            f == num - s * b,
    ;
    assert(num == q * (b * w) + (r * b + f)) by (nonlinear_arith)
        requires
            s == w * q + r,
            num == s * b + f,
    ;
    assert(r * b + f < b * w) by (nonlinear_arith)
        requires
            r < w,
            f < b,
    ;
    assert(0 <= r * b) by (nonlinear_arith);
    assert(b * w > 0) by (nonlinear_arith)
        requires
            b > 0,
            w > 0,
    ;
    lemma_fundamental_div_mod_converse(num as int, (b * w) as int, q as int, (r * b + f) as int);
    let rem = (r * b + f) as nat;
    assert(b * w == 2 * (half * b)) by (nonlinear_arith)
        requires
            w == 2 * half,
    ;
    if r < half {
        assert(r * b + f < half * b) by (nonlinear_arith)
            requires
                r < half,
                f < b,
        ;
    } else if r > half {
        assert(r * b + f > half * b) by (nonlinear_arith)
            requires
                r > half,
                f >= 0,
                b > 0,
        ;
    }
}

/// The finer grid of [`lemma_nearest_even_from_floor`] for an operation result:
/// `s` holds the leading digits, of which there are `len`, in steps of two to
/// the power of `e - bias`.
pub open spec fn leads(num: nat, den: nat, s: nat, exact: bool, e: nat, bias: nat) -> bool {
    let scaled = num * pow2(bias);
    let step = den * pow2(e);
    &&& den > 0
    &&& s * step <= scaled < (s + 1) * step
    &&& exact <==> scaled == s * step
}

/// The exponent of the coarse grid that `len` leading digits round to.
pub open spec fn coarse(len: nat, e: nat, bias: nat) -> nat {
    if len + e > bias + 53 {
        (len + e - bias - 53) as nat
    } else {
        0
    }
}

pub proof fn lemma_spacing_from_digits(
    num: nat,
    den: nat,
    s: nat,
    exact: bool,
    e: nat,
    bias: nat,
    len: nat,
)
    requires
        leads(num, den, s, exact, e, bias),
        len > 0,
        pow2((len - 1) as nat) <= s < pow2(len),
    ensures
        spacing(num, den) == coarse(len, e, bias),
{
    let pb = pow2(bias);
    let pe = pow2(e);
    let step = den * pe;
    lemma_pow2_pos(bias);
    lemma_pow2_pos(e);
    lemma_pow2_adds(len, e);
    lemma_pow2_adds((len - 1) as nat, e);
    let hi = pow2(len + e);
    let lo = pow2((len - 1 + e) as nat);
    assert(den * lo <= num * pb) by (nonlinear_arith)
        requires
            pow2((len - 1) as nat) <= s,
            s * step <= num * pb,
            step == den * pe,
            lo == pow2((len - 1) as nat) * pe,
            den > 0,
    ;
    assert(num * pb < den * hi) by (nonlinear_arith)
        requires
            s + 1 <= pow2(len),
            num * pb < (s + 1) * step,
            step == den * pe,
            hi == pow2(len) * pe,
            den > 0,
    ;
    if len + e >= bias + 1 {
        let top = (len + e - bias) as nat;
        lemma_pow2_adds(top, bias);
        lemma_pow2_adds((top - 1) as nat, bias);
        let pt = pow2(top);
        let pt1 = pow2((top - 1) as nat);
        assert(den * pt1 <= num) by (nonlinear_arith)
            requires
                den * (pt1 * pb) <= num * pb,
                pb > 0,
        ;
        assert(num < den * pt) by (nonlinear_arith)
            requires
                num * pb < den * (pt * pb),
                pb > 0,
        ;
        assert(pt1 <= num / den) by {
            lemma_div_is_ordered((den * pt1) as int, num as int, den as int);
            lemma_div_by_multiple(pt1 as int, den as int);
            assert(pt1 * den == den * pt1) by (nonlinear_arith);
        }
        assert(num / den < pt) by {
            lemma_fundamental_div_mod(num as int, den as int);
            assert(num / den < pt) by (nonlinear_arith)
                requires
                    num < den * pt,
                    num >= den * (num / den),
                    den > 0,
            ;
        }
        lemma_bit_len_is(num / den, top);
    } else {
        if len + e < bias {
            lemma_pow2_strictly_increases(len + e, bias);
        }
        assert(num < den) by (nonlinear_arith)
            requires
                num * pb < den * hi,
                hi <= pb,
                pb > 0,
                den > 0,
        ;
        assert(num / den == 0) by {
            lemma_basic_div(num as int, den as int);
        }
        assert(bit_len(0) == 0);
    }
}

/// What the nearest pattern is, read off the leading digits.
pub proof fn lemma_nearest_from_digits(
    num: nat,
    den: nat,
    s: nat,
    exact: bool,
    e: nat,
    bias: nat,
    len: nat,
)
    requires
        leads(num, den, s, exact, e, bias),
        len >= 55,
        pow2((len - 1) as nat) <= s < pow2(len),
    ensures
        ({
            let k = coarse(len, e, bias);
            let d = (k + bias - e) as nat;
            let q = s / pow2(d);
            let r = s % pow2(d);
            let m = if 2 * r > pow2(d) || (2 * r == pow2(d) && (!exact || q % 2 == 1)) {
                q + 1
            } else {
                q
            };
            &&& k + bias >= e + 2
            &&& spacing(num, den) == k
            &&& nearest_even(num, den * pow2(k)) == m
        }),
{
    lemma_spacing_from_digits(num, den, s, exact, e, bias, len);
    let k = coarse(len, e, bias);
    let d = (k + bias - e) as nat;
    let scaled = num * pow2(bias);
    let step = den * pow2(e);
    lemma_pow2_pos(bias);
    lemma_pow2_pos(e);
    lemma_pow2_pos(k);
    assert(step > 0) by (nonlinear_arith)
        requires
            step == den * pow2(e),
            den > 0,
            pow2(e) > 0,
    ;
    lemma_nearest_even_from_floor(scaled, step, s, exact, d);
    lemma_pow2_adds(e, d);
    lemma_pow2_adds(k, bias);
    assert(e + d == k + bias);
    assert(step * pow2(d) == (den * pow2(k)) * pow2(bias)) by (nonlinear_arith)
        requires
            step == den * pow2(e),
            pow2(e) * pow2(d) == pow2(k) * pow2(bias),
    ;
    assert(den * pow2(k) > 0) by (nonlinear_arith)
        requires
            den > 0,
            pow2(k) > 0,
    ;
    lemma_nearest_even_scale(num, den * pow2(k), pow2(bias));
}

/// Nothing rounds to nothing.
pub proof fn lemma_nearest_zero(den: nat)
    requires
        den > 0,
    ensures
        nearest(0, den) == 0,
{
    lemma2_to64();
    lemma_basic_div(0, den as int);
    lemma_small_mod(0, den);
    assert(bit_len(0) == 0);
    assert(den * pow2(0) == den) by (nonlinear_arith)
        requires
            pow2(0) == 1,
    ;
}

/// A larger pattern stands for a larger magnitude.
pub proof fn lemma_units_increasing(a: nat, b: nat)
    requires
        a < b,
    ensures
        units(a) < units(b),
{
    let step = BINADE as nat;
    if a >= step {
        let fa = a / step;
        let fb = b / step;
        let pa = pow2((fa - 1) as nat);
        let pb = pow2((fb - 1) as nat);
        lemma_pow2_pos((fa - 1) as nat);
        lemma_pow2_pos((fb - 1) as nat);
        let ra = a % step;
        let rb = b % step;
        if fa == fb {
            assert((step + ra) * pa < (step + rb) * pa) by (nonlinear_arith)
                requires
                    ra < rb,
                    pa > 0,
            ;
        } else {
            lemma_pow2_unfold(fa);
            if fa < fb - 1 {
                lemma_pow2_strictly_increases(fa, (fb - 1) as nat);
            }
            assert((step + ra) * pa < (step + rb) * pb) by (nonlinear_arith)
                requires
                    ra < step,
                    2 * pa <= pb,
                    pa > 0,
            ;
        }
    } else if b >= step {
        let pb = pow2((b / step - 1) as nat);
        lemma_pow2_pos((b / step - 1) as nat);
        assert((step + b % step) * pb >= step) by (nonlinear_arith)
            requires
                pb >= 1,
        ;
    }
}

/// The pattern of `m` times two to the power of `k`, for `m` of 53 digits.
pub proof fn lemma_units_of_binade(m: nat, k: nat)
    requires
        BINADE <= m < 2 * BINADE,
    ensures
        units(k * BINADE as nat + m) == m * pow2(k),
{
    let step = BINADE as nat;
    let p = k * step + m;
    lemma_fundamental_div_mod_converse(p as int, step as int, (k + 1) as int, (m - step) as int);
}

/// What 53 digits can hold is not changed by rounding.
pub proof fn lemma_nearest_exact(m: nat, k: nat)
    requires
        m < 2 * BINADE,
        k <= 2045,
    ensures
        nearest(m * pow2(k), 1) < INFINITY_BITS,
        units(nearest(m * pow2(k), 1)) == m * pow2(k),
    decreases k,
{
    let u = m * pow2(k);
    lemma2_to64();
    lemma2_to64_rest();
    lemma_pow2_pos(k);
    if m >= BINADE {
        lemma_pow2_adds(52, k);
        lemma_pow2_adds(53, k);
        assert(pow2(52 + k) <= u < pow2(53 + k)) by (nonlinear_arith)
            requires
                pow2(52 + k) == 0x10_0000_0000_0000 * pow2(k),
                pow2(53 + k) == 0x20_0000_0000_0000 * pow2(k),
                0x10_0000_0000_0000 <= m < 0x20_0000_0000_0000,
                u == m * pow2(k),
                pow2(k) > 0,
        ;
        lemma_bit_len_is(u, 53 + k);
        assert(u / 1 == u);
        lemma_div_by_multiple(m as int, pow2(k) as int);
        lemma_mod_multiples_basic(m as int, pow2(k) as int);
        assert(nearest_even(u, 1 * pow2(k)) == m);
        lemma_units_of_binade(m, k);
    } else if k == 0 {
        assert(u == m) by (nonlinear_arith)
            requires
                u == m * pow2(k),
                pow2(k) == 1,
        ;
        assert(u / 1 == u);
        lemma_bit_len(m);
        lemma_bit_len_monotone(m, 0x1F_FFFF_FFFF_FFFF);
        lemma_bit_len_is(0x1F_FFFF_FFFF_FFFF, 53);
        assert(nearest_even(u, 1 * pow2(0)) == m);
    } else {
        lemma_pow2_unfold(k);
        assert(u == (2 * m) * pow2((k - 1) as nat)) by (nonlinear_arith)
            requires
                u == m * pow2(k),
                pow2(k) == 2 * pow2((k - 1) as nat),
        ;
        lemma_nearest_exact(2 * m, (k - 1) as nat);
    }
}

/// A finite pattern is what its own magnitude rounds to.
pub proof fn lemma_nearest_of_units(p: nat)
    requires
        p < INFINITY_BITS,
    ensures
        nearest(units(p), 1) == p,
{
    let step = BINADE as nat;
    lemma2_to64();
    if p >= step {
        let k = (p / step - 1) as nat;
        let m = step + p % step;
        assert(p == k * step + m);
        lemma_nearest_exact(m, k);
    } else {
        assert(p * pow2(0) == p);
        lemma_nearest_exact(p, 0);
    }
    let q = nearest(units(p), 1);
    if q < p {
        lemma_units_increasing(q, p);
    } else if p < q {
        lemma_units_increasing(p, q);
    }
}

proof fn lemma_nearest_even_monotone(a: nat, b: nat, den: nat)
    requires
        a <= b,
        den > 0,
    ensures
        nearest_even(a, den) <= nearest_even(b, den),
{
    lemma_fundamental_div_mod(a as int, den as int);
    lemma_fundamental_div_mod(b as int, den as int);
    lemma_div_is_ordered(a as int, b as int, den as int);
}

proof fn lemma_nearest_even_bounds(num: nat, den: nat, lo: nat, hi: nat)
    requires
        den > 0,
        lo * den <= num <= hi * den,
    ensures
        lo <= nearest_even(num, den) <= hi,
{
    lemma_fundamental_div_mod(num as int, den as int);
    let q = num / den;
    let r = num % den;
    assert(lo <= q) by (nonlinear_arith)
        requires
            lo * den <= num,
            num == den * q + r,
            r < den,
            den > 0,
    ;
    assert(q < hi || (q == hi && r == 0)) by (nonlinear_arith)
        requires
            num <= hi * den,
            num == den * q + r,
            0 <= r,
            den > 0,
    ;
}

/// Rounding keeps the order.
pub proof fn lemma_nearest_monotone(a: nat, b: nat, den: nat)
    requires
        a <= b,
        den > 0,
    ensures
        nearest(a, den) <= nearest(b, den),
{
    lemma_div_is_ordered(a as int, b as int, den as int);
    lemma_bit_len_monotone(a / den, b / den);
    let ka = spacing(a, den);
    let kb = spacing(b, den);
    lemma_pow2_pos(ka);
    lemma_pow2_pos(kb);
    assert(den * pow2(ka) > 0) by (nonlinear_arith)
        requires
            den > 0,
            pow2(ka) > 0,
    ;
    assert(den * pow2(kb) > 0) by (nonlinear_arith)
        requires
            den > 0,
            pow2(kb) > 0,
    ;
    lemma2_to64();
    lemma2_to64_rest();
    if ka == kb {
        lemma_nearest_even_monotone(a, b, den * pow2(ka));
    } else {
        // The smaller one rounds to at most 53 digits in its binade, the larger
        // one to at least the first number of a higher binade.
        let ta = a / den;
        let tb = b / den;
        lemma_bit_len(ta);
        lemma_bit_len(tb);
        lemma_pow2_adds(53, ka);
        lemma_pow2_adds(52, kb);
        lemma_fundamental_div_mod(a as int, den as int);
        lemma_fundamental_div_mod(b as int, den as int);
        if bit_len(ta) < 53 + ka {
            lemma_pow2_strictly_increases(bit_len(ta), 53 + ka);
        }
        assert(den * (ta + 1) == den * ta + den) by (nonlinear_arith);
        assert(a <= pow2(53) * (den * pow2(ka))) by (nonlinear_arith)
            requires
                a < den * (ta + 1),
                ta + 1 <= pow2(53) * pow2(ka),
                den > 0,
        ;
        assert(0 * (den * pow2(ka)) == 0);
        lemma_nearest_even_bounds(a, den * pow2(ka), 0, pow2(53));
        assert(bit_len(tb) == 53 + kb);
        assert(b >= pow2(52) * (den * pow2(kb))) by (nonlinear_arith)
            requires
                b >= den * tb,
                tb >= pow2(52) * pow2(kb),
                den > 0,
        ;
        let qb = nearest_even(b, den * pow2(kb));
        lemma_fundamental_div_mod(b as int, (den * pow2(kb)) as int);
        assert(pow2(52) <= b / (den * pow2(kb))) by (nonlinear_arith)
            requires
                b >= pow2(52) * (den * pow2(kb)),
                b == (den * pow2(kb)) * (b / (den * pow2(kb))) + b % (den * pow2(kb)),
                b % (den * pow2(kb)) < den * pow2(kb),
                den * pow2(kb) > 0,
        ;
        assert(ka * BINADE + pow2(53) <= kb * BINADE + pow2(52));
    }
}

} // verus!
