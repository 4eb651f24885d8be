//! Binary64 arithmetic on bit patterns.
//!
//! Prices, fees and queue positions are binary64 numbers. Their arithmetic is
//! done here on integers, so that what an addition or a division returns is
//! stated and proved: the exact result, rounded to the nearest binary64 number
//! with ties to even.
use vstd::arithmetic::div_mod::*;
use vstd::arithmetic::mul::*;
use vstd::arithmetic::power2::*;
use vstd::prelude::*;

use crate::rounding::{BINADE, INFINITY_BITS};

verus! {

/// The sign bit.
pub const SIGN_BIT: u64 = 0x8000_0000_0000_0000;

/// The pattern every operation returns for "not a number".
pub const NAN_BITS: u64 = 0x7FF8_0000_0000_0000;

/// Offset that keeps the exponents of intermediate results non-negative.
const BIAS: u32 = 1400;

/// Two to the power of 54: the fewest leading digits that rounding reads.
const LEADING: u128 = 0x40_0000_0000_0000;

/// A binary64 number, held as its bit pattern.
#[derive(Clone, Copy, Debug, Default)]
pub struct Double {
    pub bits: u64,
}

/// A pattern with its sign.
pub open spec fn signed(neg: bool, pattern: nat) -> Double {
    Double { bits: (if neg { pattern + SIGN_BIT } else { pattern as int }) as u64 }
}

/// The number nearest to `units`; a zero has the given sign.
pub open spec fn rounded(units: int, neg_zero: bool) -> Double {
    if units == 0 {
        signed(neg_zero, 0)
    } else if units < 0 {
        signed(true, crate::rounding::nearest((-units) as nat, 1))
    } else {
        signed(false, crate::rounding::nearest(units as nat, 1))
    }
}

/// A signed magnitude as an integer.
pub open spec fn signed_int(neg: bool, size: nat) -> int {
    if neg {
        -(size as int)
    } else {
        size as int
    }
}

impl Double {
    pub open spec fn is_neg(self) -> bool {
        self.bits >= SIGN_BIT
    }

    /// The pattern without its sign.
    pub open spec fn pattern(self) -> nat {
        if self.bits >= SIGN_BIT {
            (self.bits - SIGN_BIT) as nat
        } else {
            self.bits as nat
        }
    }

    pub open spec fn is_nan(self) -> bool {
        self.pattern() > INFINITY_BITS
    }

    pub open spec fn is_inf(self) -> bool {
        self.pattern() == INFINITY_BITS
    }

    pub open spec fn is_finite(self) -> bool {
        self.pattern() < INFINITY_BITS
    }

    /// The magnitude of a finite number, in units of two to the power of -1074.
    pub open spec fn size(self) -> nat {
        crate::rounding::units(self.pattern())
    }

    /// The value of a finite number, in units of two to the power of -1074.
    pub open spec fn value(self) -> int {
        signed_int(self.is_neg(), self.size())
    }

    /// Where a number stands in the order of the number line. Both zeros stand
    /// at zero.
    pub open spec fn rank(self) -> int {
        signed_int(self.is_neg(), self.pattern())
    }

    pub open spec fn nan() -> Double {
        Double { bits: NAN_BITS }
    }

    pub open spec fn negated(self) -> Double {
        signed(!self.is_neg(), self.pattern())
    }

    pub open spec fn magnitude(self) -> Double {
        signed(false, self.pattern())
    }

    /// The sum, rounded to nearest.
    #[verifier::opaque]
    pub open spec fn plus(self, other: Double) -> Double {
        if self.is_nan() || other.is_nan() {
            Double::nan()
        } else if self.is_inf() {
            if other.is_inf() && self.is_neg() != other.is_neg() {
                Double::nan()
            } else {
                self
            }
        } else if other.is_inf() {
            other
        } else {
            rounded(self.value() + other.value(), self.is_neg() && other.is_neg())
        }
    }

    /// The difference, rounded to nearest.
    pub open spec fn minus(self, other: Double) -> Double {
        self.plus(other.negated())
    }

    /// The product, rounded to nearest.
    #[verifier::opaque]
    pub open spec fn times(self, other: Double) -> Double {
        let neg = self.is_neg() != other.is_neg();
        if self.is_nan() || other.is_nan() {
            Double::nan()
        } else if self.is_inf() || other.is_inf() {
            if self.pattern() == 0 || other.pattern() == 0 {
                Double::nan()
            } else {
                signed(neg, INFINITY_BITS as nat)
            }
        } else {
            signed(neg, crate::rounding::nearest(self.size() * other.size(), pow2(1074)))
        }
    }

    /// The quotient, rounded to nearest.
    #[verifier::opaque]
    pub open spec fn over(self, other: Double) -> Double {
        let neg = self.is_neg() != other.is_neg();
        if self.is_nan() || other.is_nan() {
            Double::nan()
        } else if self.is_inf() {
            if other.is_inf() {
                Double::nan()
            } else {
                signed(neg, INFINITY_BITS as nat)
            }
        } else if other.is_inf() {
            signed(neg, 0)
        } else if other.pattern() == 0 {
            if self.pattern() == 0 {
                Double::nan()
            } else {
                signed(neg, INFINITY_BITS as nat)
            }
        } else {
            signed(neg, crate::rounding::nearest(self.size() * pow2(1074), other.size()))
        }
    }

    pub open spec fn below(self, other: Double) -> bool {
        !self.is_nan() && !other.is_nan() && self.rank() < other.rank()
    }

    pub open spec fn at_most(self, other: Double) -> bool {
        !self.is_nan() && !other.is_nan() && self.rank() <= other.rank()
    }

    pub open spec fn same(self, other: Double) -> bool {
        !self.is_nan() && !other.is_nan() && self.rank() == other.rank()
    }

    /// The smaller of two numbers; the other one where one is not a number.
    pub open spec fn smaller(self, other: Double) -> Double {
        if self.is_nan() || other.below(self) {
            other
        } else {
            self
        }
    }

    /// The larger of two numbers; the other one where one is not a number.
    pub open spec fn larger(self, other: Double) -> Double {
        if self.is_nan() || self.below(other) {
            other
        } else {
            self
        }
    }

    /// The largest integer that is not above a finite number.
    pub open spec fn floor_int(self) -> int {
        self.value() / (pow2(1074) as int)
    }

    /// The integer nearest to a finite number, halves away from zero.
    pub open spec fn round_int(self) -> int {
        signed_int(self.is_neg(), (2 * self.size() + pow2(1074)) / (2 * pow2(1074)))
    }

    /// A finite number with its fraction cut off.
    pub open spec fn trunc_int(self) -> int {
        signed_int(self.is_neg(), self.size() / pow2(1074))
    }

    /// What a cast makes of a number whose integer is `n`: the nearest value
    /// that the target type holds, zero for "not a number".
    pub open spec fn cast(self, n: int, lo: int, hi: int) -> int {
        if self.is_nan() {
            0
        } else if self.is_inf() {
            if self.is_neg() {
                lo
            } else {
                hi
            }
        } else if n < lo {
            lo
        } else if n > hi {
            hi
        } else {
            n
        }
    }

    /// The integer `n`, rounded to nearest.
    #[verifier::opaque]
    pub open spec fn of_int(n: int) -> Double {
        if n < 0 {
            signed(true, crate::rounding::nearest(((-n) as nat) * pow2(1074), 1))
        } else {
            signed(false, crate::rounding::nearest((n as nat) * pow2(1074), 1))
        }
    }
}

impl Double {
    /// The number with the given pattern.
    pub fn from_bits(bits: u64) -> (r: Double)
        ensures
            r.bits == bits,
    {
        Double { bits }
    }

    pub fn to_bits(self) -> (r: u64)
        ensures
            r == self.bits,
    {
        self.bits
    }

    fn make(neg: bool, pattern: u64) -> (r: Double)
        requires
            pattern < SIGN_BIT,
        ensures
            r == signed(neg, pattern as nat),
            r.is_neg() == neg,
            r.pattern() == pattern,
    {
        if neg {
            Double { bits: pattern + SIGN_BIT }
        } else {
            Double { bits: pattern }
        }
    }

    fn sign(self) -> (r: bool)
        ensures
            r == self.is_neg(),
    {
        self.bits >= SIGN_BIT
    }

    fn unsigned(self) -> (r: u64)
        ensures
            r == self.pattern(),
            r < SIGN_BIT,
    {
        if self.bits >= SIGN_BIT {
            self.bits - SIGN_BIT
        } else {
            self.bits
        }
    }

    pub fn neg(self) -> (r: Double)
        ensures
            r == self.negated(),
    {
        Self::make(!self.sign(), self.unsigned())
    }

    pub fn abs(self) -> (r: Double)
        ensures
            r == self.magnitude(),
    {
        Self::make(false, self.unsigned())
    }

    /// True of an infinite number and of none that is "not a number".
    pub fn infinite(self) -> (r: bool)
        ensures
            r == self.is_inf(),
    {
        self.unsigned() == INFINITY_BITS
    }

    pub fn not_a_number(self) -> (r: bool)
        ensures
            r == self.is_nan(),
    {
        self.unsigned() > INFINITY_BITS
    }

    pub fn finite(self) -> (r: bool)
        ensures
            r == self.is_finite(),
    {
        self.unsigned() < INFINITY_BITS
    }

    pub fn lt(self, other: Double) -> (r: bool)
        ensures
            r == self.below(other),
    {
        if self.not_a_number() || other.not_a_number() {
            false
        } else {
            let a: u64 = self.unsigned();
            let b: u64 = other.unsigned();
            if self.sign() {
                if other.sign() {
                    b < a
                } else {
                    a != 0 || b != 0
                }
            } else if other.sign() {
                false
            } else {
                a < b
            }
        }
    }

    pub fn le(self, other: Double) -> (r: bool)
        ensures
            r == self.at_most(other),
    {
        !self.not_a_number() && !other.not_a_number() && !other.lt(self)
    }

    pub fn eq(self, other: Double) -> (r: bool)
        ensures
            r == self.same(other),
    {
        self.le(other) && other.le(self)
    }

    pub fn min(self, other: Double) -> (r: Double)
        ensures
            r == self.smaller(other),
    {
        if self.not_a_number() || other.lt(self) {
            other
        } else {
            self
        }
    }

    pub fn max(self, other: Double) -> (r: Double)
        ensures
            r == self.larger(other),
    {
        if self.not_a_number() || self.lt(other) {
            other
        } else {
            self
        }
    }

    /// Significand and exponent of a finite pattern.
    fn parts(pattern: u64) -> (r: (u64, u32))
        requires
            pattern < INFINITY_BITS,
        ensures
            r.0 < 2 * BINADE,
            r.1 <= 2045,
            r.1 > 0 ==> r.0 >= BINADE,
            r.0 == 0 <==> pattern == 0,
            crate::rounding::units(pattern as nat) == r.0 * pow2(r.1 as nat),
    {
        if pattern < BINADE {
            proof {
                lemma2_to64();
            }
            (pattern, 0)
        } else {
            let field: u64 = pattern / BINADE;
            let frac: u64 = pattern % BINADE;
            (BINADE + frac, (field - 1) as u32)
        }
    }

    /// Rounds the leading digits `s`, in steps of two to the power of
    /// `e - BIAS` units, to the nearest number.
    fn round(
        neg: bool,
        s: u128,
        exact: bool,
        e: u32,
        Ghost(num): Ghost<nat>,
        Ghost(den): Ghost<nat>,
    ) -> (r: Double)
        requires
            LEADING <= s < 0x8000_0000_0000_0000_0000_0000_0000_0000,
            e <= 10_000,
            crate::rounding::leads(num, den, s as nat, exact, e as nat, BIAS as nat),
        ensures
            r == signed(neg, crate::rounding::nearest(num, den)),
    {
        let mut len: u32 = 55;
        let mut p: u128 = 0x80_0000_0000_0000;
        proof {
            lemma2_to64();
            lemma2_to64_rest();
            lemma_pow2_adds(63, 64);
            assert(pow2(127) == 0x8000_0000_0000_0000_0000_0000_0000_0000);
        }
        while s >= p
            invariant
                55 <= len <= 127,
                p == pow2(len as nat),
                pow2((len - 1) as nat) <= s,
                s < 0x8000_0000_0000_0000_0000_0000_0000_0000,
                pow2(127) == 0x8000_0000_0000_0000_0000_0000_0000_0000,
            decreases 127 - len,
        {
            proof {
                lemma_pow2_unfold((len + 1) as nat);
                if len == 127 {
                    assert(false);
                }
            }
            p = p * 2;
            len = len + 1;
        }
        let k: u32 = if len + e > BIAS + 53 {
            len + e - BIAS - 53
        } else {
            0
        };
        proof {
            crate::rounding::lemma_nearest_from_digits(
                num,
                den,
                s as nat,
                exact,
                e as nat,
                BIAS as nat,
                len as nat,
            );
            assert(k == crate::rounding::coarse(len as nat, e as nat, BIAS as nat));
        }
        let d: u32 = k + BIAS - e;
        if d > len {
            proof {
                lemma_pow2_unfold((len + 1) as nat);
                if len + 1 < d {
                    lemma_pow2_strictly_increases((len + 1) as nat, d as nat);
                }
                assert(2 * s < pow2(d as nat));
                lemma_basic_div(s as int, pow2(d as nat) as int);
                lemma_small_mod(s as nat, pow2(d as nat));
                assert(k == 0);
            }
            return Self::make(neg, 0);
        }
        let w: u128 = p >> ((len - d) as u128);
        proof {
            vstd::bits::lemma_u128_shr_is_div(p, (len - d) as u128);
            lemma_pow2_adds(d as nat, (len - d) as nat);
            lemma_pow2_pos((len - d) as nat);
            lemma_pow2_pos(d as nat);
            lemma_div_by_multiple(pow2(d as nat) as int, pow2((len - d) as nat) as int);
            assert(w == pow2(d as nat));
        }
        let q: u128 = s / w;
        let rem: u128 = s % w;
        proof {
            // At most 53 digits are left.
            assert(d >= len - 53);
            lemma_pow2_adds(53, d as nat);
            if len < 53 + d {
                lemma_pow2_strictly_increases(len as nat, (53 + d) as nat);
            }
            assert(s < pow2(53) * w);
            assert(q < pow2(53)) by {
                lemma_fundamental_div_mod(s as int, w as int);
                assert(q < pow2(53)) by (nonlinear_arith)
                    requires
                        s < pow2(53) * w,
                        s >= w * q,
                        w > 0,
                ;
            }
            lemma_mod_decreases(s as nat, w as nat);
        }
        let up: bool = rem > w - rem || (rem == w - rem && (!exact || q % 2 == 1));
        let m: u64 = if up {
            (q + 1) as u64
        } else {
            q as u64
        };
        if k > 2046 {
            return Self::make(neg, INFINITY_BITS);
        }
        let pattern: u64 = k as u64 * BINADE + m;
        if pattern > INFINITY_BITS {
            Self::make(neg, INFINITY_BITS)
        } else {
            Self::make(neg, pattern)
        }
    }

    /// Rounds an exact intermediate result of `s` steps of two to the power of
    /// `e - BIAS` units.
    fn round_exact(
        neg: bool,
        s: u128,
        e: u32,
        Ghost(num): Ghost<nat>,
        Ghost(den): Ghost<nat>,
    ) -> (r: Double)
        requires
            0 < s < 0x8000_0000_0000_0000_0000_0000_0000_0000,
            100 <= e <= 10_000,
            den > 0,
            num * pow2(BIAS as nat) == s * (den * pow2(e as nat)),
        ensures
            r == signed(neg, crate::rounding::nearest(num, den)),
    {
        let mut s: u128 = s;
        let mut e: u32 = e;
        let mut shifted: u32 = 0;
        proof {
            lemma2_to64();
            lemma2_to64_rest();
        }
        while s < LEADING
            invariant
                0 < s < 0x8000_0000_0000_0000_0000_0000_0000_0000,
                shifted <= 54,
                s >= pow2(shifted as nat),
                100 <= e + shifted <= 10_000,
                den > 0,
                pow2(54) == LEADING,
                num * pow2(BIAS as nat) == s * (den * pow2(e as nat)),
            decreases 54 - shifted,
        {
            proof {
                lemma_pow2_unfold((shifted + 1) as nat);
                if shifted >= 54 {
                    assert(false);
                }
                lemma_pow2_unfold(e as nat);
                assert(s * (den * pow2(e as nat)) == (2 * s) * (den * pow2((e - 1) as nat)))
                    by (nonlinear_arith)
                    requires
                        pow2(e as nat) == 2 * pow2((e - 1) as nat),
                ;
            }
            s = 2 * s;
            e = e - 1;
            shifted = shifted + 1;
        }
        proof {
            let step = den * pow2(e as nat);
            lemma_pow2_pos(e as nat);
            assert(step > 0) by (nonlinear_arith)
                requires
                    step == den * pow2(e as nat),
                    den > 0,
                    pow2(e as nat) > 0,
            ;
            assert(s * step < (s + 1) * step) by (nonlinear_arith)
                requires
                    step > 0,
            ;
        }
        Self::round(neg, s, true, e, Ghost(num), Ghost(den))
    }

    /// Sum of two finite numbers given by sign, significand and exponent, the
    /// larger exponent first.
    fn add_parts(na: bool, ma: u64, ea: u32, nb: bool, mb: u64, eb: u32) -> (r: Double)
        requires
            eb <= ea <= 2045,
            ma < 2 * BINADE,
            mb < 2 * BINADE,
            ea > 0 ==> ma >= BINADE,
        ensures
            r == rounded(
                signed_int(na, (ma * pow2(ea as nat)) as nat) + signed_int(
                    nb,
                    (mb * pow2(eb as nat)) as nat,
                ),
                na && nb,
            ),
    {
        let gap: u32 = ea - eb;
        let ghost ua = (ma * pow2(ea as nat)) as nat;
        let ghost ub = (mb * pow2(eb as nat)) as nat;
        if gap < 64 {
            let scale: u64 = 1u64 << (gap as u64);
            proof {
                lemma2_to64();
                lemma2_to64_rest();
                if gap < 63 {
                    lemma_pow2_strictly_increases(gap as nat, 63);
                }
                vstd::bits::lemma_u64_shl_is_mul(1u64, gap as u64);
                assert(scale == pow2(gap as nat));
                assert(ma * scale < 0x20_0000_0000_0000 * 0x1_0000_0000_0000_0000)
                    by (nonlinear_arith)
                    requires
                        ma < 0x20_0000_0000_0000,
                        scale < 0x1_0000_0000_0000_0000,
                ;
            }
            let hi: u128 = ma as u128 * scale as u128;
            let lo: u128 = mb as u128;
            proof {
                lemma_pow2_adds(gap as nat, eb as nat);
                assert(ua == hi * pow2(eb as nat)) by (nonlinear_arith)
                    requires
                        ua == ma * pow2(ea as nat),
                        hi == ma * scale,
                        pow2(ea as nat) == scale * pow2(eb as nat),
                ;
            }
            let (neg, s): (bool, u128) = if na == nb {
                (na, hi + lo)
            } else if hi >= lo {
                (na, (hi - lo) as u128)
            } else {
                (nb, (lo - hi) as u128)
            };
            let ghost total = signed_int(na, ua) + signed_int(nb, ub);
            proof {
                lemma_pow2_pos(eb as nat);
                let w = pow2(eb as nat) as int;
                assert(hi * w + lo * w == (hi + lo) * w) by (nonlinear_arith);
                assert(hi * w - lo * w == (hi - lo) * w) by (nonlinear_arith);
                assert(lo * w - hi * w == (lo - hi) * w) by (nonlinear_arith);
                assert(total == if neg { -(s * w) } else { s * w });
                assert(s * w == 0 <==> s == 0) by (nonlinear_arith)
                    requires
                        w > 0,
                ;
                assert(s * w >= 0) by (nonlinear_arith)
                    requires
                        w > 0,
                ;
            }
            if s == 0 {
                return Self::make(na && nb, 0);
            }
            let ghost num = (s * pow2(eb as nat)) as nat;
            proof {
                lemma_pow2_adds(eb as nat, BIAS as nat);
                assert(num * pow2(BIAS as nat) == s * (1 * pow2((eb + BIAS) as nat)))
                    by (nonlinear_arith)
                    requires
                        num == s * pow2(eb as nat),
                        pow2((eb + BIAS) as nat) == pow2(eb as nat) * pow2(BIAS as nat),
                ;
            }
            Self::round_exact(neg, s, eb + BIAS, Ghost(num), Ghost(1nat))
        } else {
            let top: u128 = ma as u128 * 8;
            let exact: bool = mb == 0;
            let s: u128 = if exact || na == nb {
                top
            } else {
                (top - 1) as u128
            };
            let ghost num = (if na == nb { ua + ub } else { (ua - ub) as nat }) as nat;
            proof {
                lemma2_to64();
                lemma2_to64_rest();
                let e3 = (ea - 3) as nat;
                let w = pow2(e3) as int;
                lemma_pow2_pos(e3);
                lemma_pow2_adds(e3, 3);
                assert(ua == top * w) by (nonlinear_arith)
                    requires
                        ua == ma * pow2(ea as nat),
                        top == ma * 8,
                        pow2(ea as nat) == w * 8,
                ;
                // The smaller operand is less than one step.
                lemma_pow2_pos(eb as nat);
                lemma_pow2_adds(53, eb as nat);
                if 53 + eb < e3 {
                    lemma_pow2_strictly_increases((53 + eb) as nat, e3);
                }
                assert(ub < w) by (nonlinear_arith)
                    requires
                        ub == mb * pow2(eb as nat),
                        mb < 0x20_0000_0000_0000,
                        0x20_0000_0000_0000 * pow2(eb as nat) <= w,
                        pow2(eb as nat) > 0,
                ;
                assert(top * w >= w) by (nonlinear_arith)
                    requires
                        top >= 1,
                        w > 0,
                ;
                assert(ub == 0 <==> mb == 0) by (nonlinear_arith)
                    requires
                        ub == mb * pow2(eb as nat),
                        pow2(eb as nat) > 0,
                ;
                lemma_pow2_adds(e3, BIAS as nat);
                let pb = pow2(BIAS as nat) as int;
                lemma_pow2_pos(BIAS as nat);
                lemma_pow2_pos(e3);
                let step = 1 * pow2((e3 + BIAS) as nat) as int;
                assert(s * w <= num < (s + 1) * w && (exact <==> num == s * w)) by {
                    assert((top + 1) * w == top * w + w) by (nonlinear_arith);
                    assert((top - 1) * w == top * w - w) by (nonlinear_arith);
                }
                assert(s * step <= num * pb && num * pb < (s + 1) * step && (num * pb == s * step
                    <==> num == s * w)) by (nonlinear_arith)
                    requires
                        s * w <= num < (s + 1) * w,
                        step == w * pb,
                        pb > 0,
                ;
                assert(num > 0) by (nonlinear_arith)
                    requires
                        s * w <= num,
                        s > 0,
                        w > 0,
                ;
            }
            Self::round(na, s, exact, ea - 3 + BIAS, Ghost(num), Ghost(1nat))
        }
    }

    pub fn add(self, other: Double) -> (r: Double)
        ensures
            r == self.plus(other),
    {
        reveal(Double::plus);
        if self.not_a_number() || other.not_a_number() {
            return Double { bits: NAN_BITS };
        }
        if self.infinite() {
            return if other.infinite() && self.sign() != other.sign() {
                Double { bits: NAN_BITS }
            } else {
                self
            };
        }
        if other.infinite() {
            return other;
        }
        let (ma, ea): (u64, u32) = Self::parts(self.unsigned());
        let (mb, eb): (u64, u32) = Self::parts(other.unsigned());
        if ea >= eb {
            Self::add_parts(self.sign(), ma, ea, other.sign(), mb, eb)
        } else {
            Self::add_parts(other.sign(), mb, eb, self.sign(), ma, ea)
        }
    }

    pub fn sub(self, other: Double) -> (r: Double)
        ensures
            r == self.minus(other),
    {
        self.add(other.neg())
    }

    pub fn mul(self, other: Double) -> (r: Double)
        ensures
            r == self.times(other),
    {
        reveal(Double::times);
        let neg: bool = self.sign() != other.sign();
        if self.not_a_number() || other.not_a_number() {
            return Double { bits: NAN_BITS };
        }
        if self.infinite() || other.infinite() {
            return if self.unsigned() == 0 || other.unsigned() == 0 {
                Double { bits: NAN_BITS }
            } else {
                Self::make(neg, INFINITY_BITS)
            };
        }
        let (ma, ea): (u64, u32) = Self::parts(self.unsigned());
        let (mb, eb): (u64, u32) = Self::parts(other.unsigned());
        let ghost ua = self.size();
        let ghost ub = other.size();
        let ghost num = ua * ub;
        let ghost den = pow2(1074);
        proof {
            lemma_pow2_pos(1074);
        }
        if ma == 0 || mb == 0 {
            proof {
                assert(num == 0) by (nonlinear_arith)
                    requires
                        num == ua * ub,
                        ua == ma * pow2(ea as nat),
                        ub == mb * pow2(eb as nat),
                        ma == 0 || mb == 0,
                ;
                crate::rounding::lemma_nearest_zero(den);
            }
            return Self::make(neg, 0);
        }
        proof {
            assert(0 < ma * mb < 0x20_0000_0000_0000 * 0x20_0000_0000_0000) by (nonlinear_arith)
                requires
                    0 < ma < 0x20_0000_0000_0000,
                    0 < mb < 0x20_0000_0000_0000,
            ;
        }
        let s: u128 = ma as u128 * mb as u128;
        let e: u32 = ea + eb + BIAS - 1074;
        proof {
            lemma_pow2_adds(ea as nat, eb as nat);
            lemma_pow2_adds((ea + eb) as nat, BIAS as nat);
            lemma_pow2_adds(1074, e as nat);
            assert(num * pow2(BIAS as nat) == s * (den * pow2(e as nat))) by (nonlinear_arith)
                requires
                    num == ua * ub,
                    ua == ma * pow2(ea as nat),
                    ub == mb * pow2(eb as nat),
                    s == ma * mb,
                    pow2((ea + eb) as nat) == pow2(ea as nat) * pow2(eb as nat),
                    pow2((ea + eb + BIAS) as nat) == pow2((ea + eb) as nat) * pow2(BIAS as nat),
                    pow2((ea + eb + BIAS) as nat) == den * pow2(e as nat),
            ;
        }
        Self::round_exact(neg, s, e, Ghost(num), Ghost(den))
    }

    pub fn div(self, other: Double) -> (r: Double)
        ensures
            r == self.over(other),
    {
        reveal(Double::over);
        let neg: bool = self.sign() != other.sign();
        if self.not_a_number() || other.not_a_number() {
            return Double { bits: NAN_BITS };
        }
        if self.infinite() {
            return if other.infinite() {
                Double { bits: NAN_BITS }
            } else {
                Self::make(neg, INFINITY_BITS)
            };
        }
        if other.infinite() {
            return Self::make(neg, 0);
        }
        if other.unsigned() == 0 {
            return if self.unsigned() == 0 {
                Double { bits: NAN_BITS }
            } else {
                Self::make(neg, INFINITY_BITS)
            };
        }
        let (ma, ea): (u64, u32) = Self::parts(self.unsigned());
        let (mb, eb): (u64, u32) = Self::parts(other.unsigned());
        let ghost ua = self.size();
        let ghost ub = other.size();
        let ghost num = ua * pow2(1074);
        proof {
            lemma_pow2_pos(eb as nat);
            assert(ub > 0) by (nonlinear_arith)
                requires
                    ub == mb * pow2(eb as nat),
                    mb > 0,
                    pow2(eb as nat) > 0,
            ;
        }
        if ma == 0 {
            proof {
                assert(num == 0) by (nonlinear_arith)
                    requires
                        num == ua * pow2(1074),
                        ua == ma * pow2(ea as nat),
                        ma == 0,
                ;
                crate::rounding::lemma_nearest_zero(ub);
            }
            return Self::make(neg, 0);
        }
        // Shift a short significand up to 53 digits.
        let mut m: u64 = ma;
        let mut t: u32 = 0;
        proof {
            lemma2_to64();
            lemma2_to64_rest();
        }
        while m < BINADE
            invariant
                0 < m < 2 * BINADE,
                t <= 52,
                m == ma * pow2(t as nat),
                m >= pow2(t as nat),
                pow2(52) == BINADE,
            decreases 52 - t,
        {
            proof {
                lemma_pow2_unfold((t + 1) as nat);
                assert(t < 52);
                assert(2 * m == ma * pow2((t + 1) as nat)) by (nonlinear_arith)
                    requires
                        m == ma * pow2(t as nat),
                        pow2((t + 1) as nat) == 2 * pow2(t as nat),
                ;
            }
            m = 2 * m;
            t = t + 1;
        }
        let wide: u128 = m as u128 * 0x4000_0000_0000_0000;
        let s: u128 = wide / mb as u128;
        let rem: u128 = wide % mb as u128;
        let e: u32 = ea + BIAS + 1012 - eb - t;
        proof {
            lemma_fundamental_div_mod(wide as int, mb as int);
            assert(s >= LEADING) by (nonlinear_arith)
                requires
                    wide >= 0x10_0000_0000_0000 * 0x4000_0000_0000_0000,
                    wide == mb * s + rem,
                    0 <= rem < mb < 0x20_0000_0000_0000,
                    LEADING == 0x40_0000_0000_0000,
            ;
            assert(s <= wide) by (nonlinear_arith)
                requires
                    wide == mb * s + rem,
                    mb >= 1,
                    rem >= 0,
            ;
            // Both sides of the quotient, counted in the same steps.
            let w = pow2((ea + BIAS + 1012 - t) as nat) as int;
            let pb = pow2(BIAS as nat) as int;
            let step = ub * pow2(e as nat);
            lemma_pow2_pos((ea + BIAS + 1012 - t) as nat);
            lemma_pow2_adds(eb as nat, e as nat);
            assert(step == mb * w) by (nonlinear_arith)
                requires
                    step == ub * pow2(e as nat),
                    ub == mb * pow2(eb as nat),
                    w == pow2(eb as nat) * pow2(e as nat),
            ;
            let t_pow = pow2(t as nat) as int;
            lemma_pow2_adds(t as nat, (ea + BIAS + 1012 - t) as nat);
            lemma_pow2_adds(62, (ea + BIAS + 1012) as nat);
            lemma_pow2_adds(ea as nat, (BIAS + 1074) as nat);
            lemma_pow2_adds(1074, BIAS as nat);
            assert(num * pb == wide * w) by {
                assert(pow2((ea + BIAS + 1074) as nat) == pow2(ea as nat) * (pow2(1074) * pb));
                assert(pow2((ea + BIAS + 1074) as nat) == 0x4000_0000_0000_0000 * (t_pow * w));
                assert(num * pb == ma * pow2((ea + BIAS + 1074) as nat)) by (nonlinear_arith)
                    requires
                        num == ua * pow2(1074),
                        ua == ma * pow2(ea as nat),
                        pow2((ea + BIAS + 1074) as nat) == pow2(ea as nat) * (pow2(1074) * pb),
                ;
                assert(wide * w == ma * (0x4000_0000_0000_0000 * (t_pow * w)))
                    by (nonlinear_arith)
                    requires
                        wide == m * 0x4000_0000_0000_0000,
                        m == ma * t_pow,
                ;
            }
            assert(s * step <= wide * w && wide * w < (s + 1) * step && (rem == 0 <==> wide * w == s
                * step)) by (nonlinear_arith)
                requires
                    step == mb * w,
                    wide == mb * s + rem,
                    0 <= rem < mb,
                    w > 0,
            ;
        }
        Self::round(neg, s, rem == 0, e, Ghost(num), Ghost(ub))
    }

    /// The integer part of a finite pattern, up to the largest `u64`, whether
    /// anything is left behind the point, and whether that is at least a half.
    fn split(pattern: u64) -> (r: (u64, bool, bool))
        requires
            pattern < INFINITY_BITS,
        ensures
            ({
                let size = crate::rounding::units(pattern as nat);
                let whole = size / pow2(1074);
                &&& r.0 == if whole > u64::MAX { u64::MAX as nat } else { whole }
                &&& whole <= u64::MAX ==> {
                    &&& r.1 <==> size % pow2(1074) != 0
                    &&& r.2 <==> 2 * (size % pow2(1074)) >= pow2(1074)
                }
            }),
    {
        let (m, e): (u64, u32) = Self::parts(pattern);
        let ghost size = crate::rounding::units(pattern as nat);
        let ghost unit = pow2(1074);
        proof {
            lemma_pow2_pos(1074);
            lemma2_to64();
            lemma2_to64_rest();
        }
        if e >= 1074 {
            let shift: u32 = e - 1074;
            proof {
                lemma_pow2_adds(shift as nat, 1074);
                lemma_pow2_pos(shift as nat);
                assert(size == (m * pow2(shift as nat)) * unit) by (nonlinear_arith)
                    requires
                        size == m * pow2(e as nat),
                        pow2(e as nat) == pow2(shift as nat) * unit,
                ;
                lemma_div_by_multiple((m * pow2(shift as nat)) as int, unit as int);
                lemma_mod_multiples_basic((m * pow2(shift as nat)) as int, unit as int);
            }
            if shift >= 64 {
                proof {
                    if shift > 64 {
                        lemma_pow2_strictly_increases(64, shift as nat);
                    }
                    assert(m * pow2(shift as nat) > u64::MAX) by (nonlinear_arith)
                        requires
                            m >= 1,
                            pow2(shift as nat) >= 0x1_0000_0000_0000_0000,
                    ;
                }
                return (u64::MAX, false, false);
            }
            let scale: u64 = 1u64 << (shift as u64);
            proof {
                if shift < 63 {
                    lemma_pow2_strictly_increases(shift as nat, 63);
                }
                vstd::bits::lemma_u64_shl_is_mul(1u64, shift as u64);
                assert(m * scale < 0x20_0000_0000_0000 * 0x1_0000_0000_0000_0000)
                    by (nonlinear_arith)
                    requires
                        m < 0x20_0000_0000_0000,
                        scale < 0x1_0000_0000_0000_0000,
                ;
            }
            let q: u128 = m as u128 * scale as u128;
            if q > u64::MAX as u128 {
                (u64::MAX, false, false)
            } else {
                (q as u64, false, false)
            }
        } else {
            let d: u32 = 1074 - e;
            let ghost step = pow2(e as nat);
            proof {
                lemma_pow2_adds(d as nat, e as nat);
                lemma_pow2_pos(e as nat);
                lemma_pow2_pos(d as nat);
            }
            if d >= 64 {
                proof {
                    if d > 64 {
                        lemma_pow2_strictly_increases(64, d as nat);
                    }
                    assert(2 * size < unit) by (nonlinear_arith)
                        requires
                            size == m * step,
                            unit == pow2(d as nat) * step,
                            m < 0x20_0000_0000_0000,
                            pow2(d as nat) >= 0x1_0000_0000_0000_0000,
                            step > 0,
                    ;
                    assert(size == 0 <==> m == 0) by (nonlinear_arith)
                        requires
                            size == m * step,
                            step > 0,
                    ;
                    lemma_basic_div(size as int, unit as int);
                    lemma_small_mod(size, unit);
                }
                return (0, m != 0, false);
            }
            let w: u64 = 1u64 << (d as u64);
            proof {
                if d < 63 {
                    lemma_pow2_strictly_increases(d as nat, 63);
                }
                vstd::bits::lemma_u64_shl_is_mul(1u64, d as u64);
                assert(w == pow2(d as nat));
            }
            let q: u64 = m / w;
            let rem: u64 = m % w;
            proof {
                lemma_fundamental_div_mod(m as int, w as int);
                let tail = rem * step;
                assert(size == q * unit + tail && 0 <= tail < unit && (tail == 0 <==> rem == 0) && (
                2 * tail >= unit <==> 2 * rem >= w)) by (nonlinear_arith)
                    requires
                        size == m * step,
                        unit == w * step,
                        m == w * q + rem,
                        0 <= rem < w,
                        tail == rem * step,
                        step > 0,
                ;
                lemma_fundamental_div_mod_converse(size as int, unit as int, q as int, tail as int);
            }
            (q, rem != 0, rem >= w - rem)
        }
    }

    /// Rounds towards negative infinity and casts.
    pub fn floor_i64(self) -> (r: i64)
        ensures
            r == self.cast(self.floor_int(), i64::MIN as int, i64::MAX as int),
    {
        if self.not_a_number() {
            return 0;
        }
        if self.infinite() {
            return if self.sign() {
                i64::MIN
            } else {
                i64::MAX
            };
        }
        let (q, frac, _): (u64, bool, bool) = Self::split(self.unsigned());
        let neg: bool = self.sign();
        proof {
            lemma_pow2_pos(1074);
            let unit = pow2(1074) as int;
            let size = self.size() as int;
            lemma_fundamental_div_mod(size, unit);
            let whole = size / unit;
            let rem = size % unit;
            if neg {
                if rem == 0 {
                    assert(-size == unit * (-whole) + 0) by (nonlinear_arith)
                        requires
                            size == unit * whole + rem,
                            rem == 0,
                    ;
                    lemma_fundamental_div_mod_converse(-size, unit, -whole, 0);
                } else {
                    assert(-size == unit * (-whole - 1) + (unit - rem)) by (nonlinear_arith)
                        requires
                            size == unit * whole + rem,
                    ;
                    lemma_fundamental_div_mod_converse(-size, unit, -whole - 1, unit - rem);
                }
            }
        }
        if neg {
            if q >= SIGN_BIT {
                i64::MIN
            } else if frac {
                -(q as i64) - 1
            } else {
                -(q as i64)
            }
        } else if q >= SIGN_BIT {
            i64::MAX
        } else {
            q as i64
        }
    }

    /// Rounds to the nearest integer, halves away from zero, and casts.
    pub fn round_i64(self) -> (r: i64)
        ensures
            r == self.cast(self.round_int(), i64::MIN as int, i64::MAX as int),
    {
        if self.not_a_number() {
            return 0;
        }
        if self.infinite() {
            return if self.sign() {
                i64::MIN
            } else {
                i64::MAX
            };
        }
        let (q, _, half): (u64, bool, bool) = Self::split(self.unsigned());
        let neg: bool = self.sign();
        proof {
            lemma_pow2_pos(1074);
            let unit = pow2(1074) as int;
            let size = self.size() as int;
            lemma_fundamental_div_mod(size, unit);
            let whole = size / unit;
            let rem = size % unit;
            if 2 * rem >= unit {
                assert(2 * size + unit == (2 * unit) * (whole + 1) + (2 * rem - unit))
                    by (nonlinear_arith)
                    requires
                        size == unit * whole + rem,
                ;
                lemma_fundamental_div_mod_converse(
                    2 * size + unit,
                    2 * unit,
                    whole + 1,
                    2 * rem - unit,
                );
            } else {
                assert(2 * size + unit == (2 * unit) * whole + (2 * rem + unit))
                    by (nonlinear_arith)
                    requires
                        size == unit * whole + rem,
                ;
                lemma_fundamental_div_mod_converse(2 * size + unit, 2 * unit, whole, 2 * rem + unit);
            }
        }
        if q >= SIGN_BIT {
            return if neg {
                i64::MIN
            } else {
                i64::MAX
            };
        }
        let n: u64 = if half {
            q + 1
        } else {
            q
        };
        if n >= SIGN_BIT {
            if neg {
                i64::MIN
            } else {
                i64::MAX
            }
        } else if neg {
            -(n as i64)
        } else {
            n as i64
        }
    }

    /// Cuts off the fraction and casts; a negative number becomes zero.
    pub fn trunc_u64(self) -> (r: u64)
        ensures
            r == self.cast(self.trunc_int(), 0, u64::MAX as int),
    {
        if self.not_a_number() {
            return 0;
        }
        proof {
            lemma_pow2_pos(1074);
            lemma_div_pos_is_pos(self.size() as int, pow2(1074) as int);
        }
        if self.sign() {
            return 0;
        }
        if self.infinite() {
            return u64::MAX;
        }
        let (q, _, _): (u64, bool, bool) = Self::split(self.unsigned());
        q
    }

    fn of_parts(neg: bool, n: u64) -> (r: Double)
        ensures
            r == signed(neg, crate::rounding::nearest(n as nat * pow2(1074), 1)),
    {
        if n == 0 {
            proof {
                assert(0 * pow2(1074) == 0);
                crate::rounding::lemma_nearest_zero(1);
            }
            return Self::make(neg, 0);
        }
        let ghost num = n as nat * pow2(1074);
        proof {
            lemma_pow2_adds(1074, BIAS as nat);
            assert(num * pow2(BIAS as nat) == n * (1 * pow2((1074 + BIAS) as nat)))
                by (nonlinear_arith)
                requires
                    num == n * pow2(1074),
                    pow2((1074 + BIAS) as nat) == pow2(1074) * pow2(BIAS as nat),
            ;
        }
        Self::round_exact(neg, n as u128, 1074 + BIAS, Ghost(num), Ghost(1nat))
    }

    pub fn from_u64(n: u64) -> (r: Double)
        ensures
            r == Double::of_int(n as int),
    {
        reveal(Double::of_int);
        Self::of_parts(false, n)
    }

    pub fn from_i64(n: i64) -> (r: Double)
        ensures
            r == Double::of_int(n as int),
    {
        reveal(Double::of_int);
        if n >= 0 {
            Self::of_parts(false, n as u64)
        } else {
            let size: u64 = (-(n + 1)) as u64 + 1;
            Self::of_parts(true, size)
        }
    }

    /// The sum or the difference of two integers of 64 bits, rounded once.
    pub fn from_wide(n: i128) -> (r: Double)
        requires
            -0x1_0000_0000_0000_0000 <= n < 0x1_0000_0000_0000_0000,
        ensures
            r == Double::of_int(n as int),
    {
        reveal(Double::of_int);
        if n >= 0 {
            Self::of_parts(false, n as u64)
        } else if n > -0x1_0000_0000_0000_0000 {
            Self::of_parts(true, (-n) as u64)
        } else {
            proof {
                let step = BINADE as nat;
                lemma2_to64();
                lemma2_to64_rest();
                lemma_pow2_adds(64, 1074);
                lemma_pow2_adds(52, 1086);
                crate::rounding::lemma_units_of_binade(step, 1086);
                crate::rounding::lemma_nearest_of_units(0x43F0_0000_0000_0000);
            }
            Double { bits: 0xC3F0_0000_0000_0000 }
        }
    }

    pub fn zero() -> (r: Double)
        ensures
            r.bits == 0,
            r == Double::of_int(0),
    {
        proof {
            reveal(Double::of_int);
            assert(0 * pow2(1074) == 0);
            crate::rounding::lemma_nearest_zero(1);
        }
        Double { bits: 0 }
    }
}

} // verus!
