//! Binary64 numbers as bit patterns, with the arithmetic of IEEE 754: every operation returns
//! the number nearest to the exact result, halfway cases to the even significand.
//!
//! A finite number is a whole number of units of `2^-1074`, so its exact value is an integer
//! and the specifications below speak of integers and their quotients only.

use crate::rounding;
use vstd::arithmetic::div_mod::*;
use vstd::arithmetic::mul::*;
use vstd::arithmetic::power::*;
use vstd::arithmetic::power2::*;
use vstd::prelude::*;

verus! {

/// The bit pattern that holds the sign alone.
pub const SIGN: u64 = 0x8000_0000_0000_0000;

/// The bit pattern that every operation without a result returns.
pub const QUIET_NAN: u64 = 0x7FF8_0000_0000_0000;

/// `2^52`, the distance between the patterns of two neighbouring powers of two.
pub const BINADE: u64 = 0x10_0000_0000_0000;

/// A binary64 number, by its bit pattern.
#[derive(Debug, Clone, Copy, PartialEq, Eq, Structural)]
pub struct Double {
    pub bits: u64,
}

/// The patterns up to that of infinity are ordered as the numbers are.
pub open spec fn pattern_scale(pattern: nat) -> nat {
    if pattern < BINADE {
        0
    } else {
        (pattern / (BINADE as nat) - 1) as nat
    }
}

pub open spec fn pattern_magnitude(pattern: nat) -> nat {
    ((pattern - pattern_scale(pattern) * BINADE) * pow2(pattern_scale(pattern))) as nat
}

impl Double {
    /// Whether the sign bit is set.
    pub open spec fn negative(self) -> bool {
        self.bits >= SIGN
    }

    /// The bit pattern without its sign.
    pub open spec fn pattern(self) -> nat {
        (self.bits % SIGN) as nat
    }

    pub open spec fn is_nan(self) -> bool {
        self.pattern() > rounding::INFINITE
    }

    pub open spec fn is_infinite(self) -> bool {
        self.pattern() == rounding::INFINITE
    }

    /// The absolute value in units of `2^-1074`; infinity counts as `2^2098` units.
    pub open spec fn magnitude(self) -> nat {
        pattern_magnitude(self.pattern())
    }

    /// The value in units of `2^-1074`.
    pub open spec fn units(self) -> int {
        if self.negative() {
            -(self.magnitude() as int)
        } else {
            self.magnitude() as int
        }
    }

    /// Neither number is NaN and the first is below the second.
    pub open spec fn below(self, other: Double) -> bool {
        !self.is_nan() && !other.is_nan() && self.units() < other.units()
    }

    /// Neither number is NaN and the first is at most the second.
    pub open spec fn at_most(self, other: Double) -> bool {
        !self.is_nan() && !other.is_nan() && self.units() <= other.units()
    }

    /// Neither number is NaN and both have one value (the two zeros do).
    pub open spec fn equals(self, other: Double) -> bool {
        !self.is_nan() && !other.is_nan() && self.units() == other.units()
    }

    pub open spec fn nan() -> Double {
        Double { bits: QUIET_NAN }
    }

    pub open spec fn zero() -> Double {
        Double { bits: 0 }
    }

    /// The sum of no numbers: zero with a minus sign, which leaves every number as it is.
    pub open spec fn empty_sum() -> Double {
        Double { bits: SIGN }
    }

    /// The number with this sign whose magnitude is nearest to `num / den` units.
    #[verifier::opaque]
    pub open spec fn nearest(negative: bool, num: nat, den: nat) -> Double {
        let pattern = rounding::nearest_pattern(num, den);
        Double { bits: (if negative { SIGN + pattern } else { pattern as int }) as u64 }
    }

    /// The number nearest to `num / den`.
    pub open spec fn ratio_of(num: int, den: nat) -> Double {
        if num < 0 {
            Double::nearest(true, (-num) as nat * pow2(1074), den)
        } else {
            Double::nearest(false, num as nat * pow2(1074), den)
        }
    }

    /// The number nearest to the integer `n`.
    pub open spec fn of(n: int) -> Double {
        Double::ratio_of(n, 1)
    }

    /// The number with this sign nearest to `d * 10^e`.
    pub open spec fn decimal(negative: bool, d: nat, e: int) -> Double {
        if e >= 0 {
            Double::nearest(negative, (d * pow(10, e as nat) as nat) * pow2(1074), 1)
        } else {
            Double::nearest(negative, d * pow2(1074), pow(10, (-e) as nat) as nat)
        }
    }

    /// The number with its sign turned.
    pub open spec fn negated(self) -> Double {
        Double { bits: (if self.negative() { self.bits - SIGN } else { self.bits + SIGN }) as u64 }
    }

    /// The number without its sign.
    pub open spec fn absolute(self) -> Double {
        Double { bits: self.pattern() as u64 }
    }

    /// `self + other`, rounded once.
    #[verifier::opaque]
    pub open spec fn plus(self, other: Double) -> Double {
        if self.is_nan() || other.is_nan() {
            Double::nan()
        } else if self.is_infinite() {
            if other.is_infinite() && self.negative() != other.negative() {
                Double::nan()
            } else {
                self
            }
        } else if other.is_infinite() {
            other
        } else {
            let exact = self.units() + other.units();
            if exact == 0 {
                Double { bits: if self.negative() && other.negative() { SIGN } else { 0 } }
            } else if exact < 0 {
                Double::nearest(true, (-exact) as nat, 1)
            } else {
                Double::nearest(false, exact as nat, 1)
            }
        }
    }

    /// `self - other`, rounded once.
    pub open spec fn minus(self, other: Double) -> Double {
        self.plus(other.negated())
    }

    /// `self * other`, rounded once.
    #[verifier::opaque]
    pub open spec fn times(self, other: Double) -> Double {
        let negative = self.negative() != other.negative();
        if self.is_nan() || other.is_nan() {
            Double::nan()
        } else if self.is_infinite() || other.is_infinite() {
            if self.magnitude() == 0 || other.magnitude() == 0 {
                Double::nan()
            } else {
                Double::infinity(negative)
            }
        } else {
            Double::nearest(negative, self.magnitude() * other.magnitude(), pow2(1074))
        }
    }

    /// `self / other`, rounded once.
    #[verifier::opaque]
    pub open spec fn over(self, other: Double) -> Double {
        let negative = self.negative() != other.negative();
        if self.is_nan() || other.is_nan() || (self.is_infinite() && other.is_infinite()) || (
        self.magnitude() == 0 && other.magnitude() == 0) {
            Double::nan()
        } else if self.is_infinite() || other.magnitude() == 0 {
            Double::infinity(negative)
        } else if other.is_infinite() {
            Double::nearest(negative, 0, 1)
        } else {
            Double::nearest(negative, self.magnitude() * pow2(1074), other.magnitude())
        }
    }

    /// The square root, rounded once.
    #[verifier::opaque]
    pub open spec fn root(self) -> Double {
        if self.is_nan() {
            Double::nan()
        } else if self.magnitude() == 0 {
            self
        } else if self.negative() {
            Double::nan()
        } else if self.is_infinite() {
            self
        } else {
            Double { bits: rounding::root_pattern(self.magnitude() * pow2(1074)) as u64 }
        }
    }

    /// The larger number; one that is NaN gives way to the other.
    pub open spec fn larger(self, other: Double) -> Double {
        if self.is_nan() || self.below(other) {
            other
        } else {
            self
        }
    }

    /// The smaller number; one that is NaN gives way to the other.
    pub open spec fn smaller(self, other: Double) -> Double {
        if self.is_nan() || other.below(self) {
            other
        } else {
            self
        }
    }

    /// The value with its fraction cut off; NaN counts as zero.
    pub open spec fn truncated(self) -> int {
        if self.is_nan() {
            0
        } else if self.negative() {
            -((self.magnitude() / pow2(1074)) as int)
        } else {
            (self.magnitude() / pow2(1074)) as int
        }
    }

    pub open spec fn infinity(negative: bool) -> Double {
        Double { bits: (if negative { SIGN + rounding::INFINITE } else { rounding::INFINITE as int }) as u64 }
    }
}

/// `2^n`.
pub(crate) fn power(n: u32) -> (r: u128)
    requires
        n < 128,
    ensures
        r == pow2(n as nat),
{
    let mut r: u128 = 1;
    let mut left: u32 = n;
    proof {
        lemma2_to64();
        lemma2_to64_rest();
    }
    if left >= 64 {
        r = 0x1_0000_0000_0000_0000;
        left = left - 64;
    }
    let ghost done: nat = (n - left) as nat;
    assert(r == pow2(done));
    proof {
        lemma_pow2_adds(done, 32);
        lemma_pow2_strictly_increases(done, 127);
    }
    while left >= 16
        invariant
            left <= n < 128,
            left < 64 ,
            r == pow2((n - left) as nat),
        decreases left,
    {
        proof {
            lemma2_to64();
            lemma_pow2_adds((n - left) as nat, 16);
            if n - left + 16 < 127 {
                lemma_pow2_strictly_increases((n - left + 16) as nat, 127);
            }
            lemma_pow2_127();
        }
        r = r * 0x1_0000;
        left = left - 16;
    }
    while left > 0
        invariant
            left <= n < 128,
            left < 16,
            r == pow2((n - left) as nat),
        decreases left,
    {
        proof {
            lemma2_to64();
            lemma_pow2_adds((n - left) as nat, 1);
            if n - left + 1 < 127 {
                lemma_pow2_strictly_increases((n - left + 1) as nat, 127);
            }
            lemma_pow2_127();
        }
        r = r * 2;
        left = left - 1;
    }
    r
}

proof fn lemma_pow2_127()
    ensures
        pow2(127) == 0x8000_0000_0000_0000_0000_0000_0000_0000,
        pow2(75) == 0x800_0000_0000_0000_0000,
        pow2(53) == 0x20_0000_0000_0000,
        pow2(52) == 0x10_0000_0000_0000,
        pow2(54) == 0x40_0000_0000_0000,
{
    lemma2_to64();
    lemma2_to64_rest();
    lemma_pow2_adds(64, 63);
    lemma_pow2_adds(64, 11);
}

/// Numerator and denominator of `sig * 2^k`.
pub open spec fn scaled_num(sig: nat, k: int) -> nat {
    if k >= 0 {
        sig * pow2(k as nat)
    } else {
        sig
    }
}

pub open spec fn scaled_den(k: int) -> nat {
    if k >= 0 {
        1
    } else {
        pow2((-k) as nat)
    }
}

/// `sig * 2^k` may be written with a larger integer and a smaller exponent.
proof fn lemma_scaled_shift(sig: nat, k: int, s: nat)
    ensures
        scaled_den(k) > 0,
        rounding::nearest_pattern(scaled_num(sig * pow2(s), k - s), scaled_den(k - s))
            == rounding::nearest_pattern(scaled_num(sig, k), scaled_den(k)),
{
    let n1 = scaled_num(sig * pow2(s), k - s);
    let d1 = scaled_den(k - s);
    let n2 = scaled_num(sig, k);
    let d2 = scaled_den(k);
    if k >= 0 {
        lemma_pow2_pos(k as nat);
        if k - s >= 0 {
            lemma_pow2_adds(s, (k - s) as nat);
            assert((sig * pow2(s)) * pow2((k - s) as nat) == sig * (pow2(s) * pow2((k - s) as nat)))
                by (nonlinear_arith);
        } else {
            lemma_pow2_pos((s - k) as nat);
            lemma_pow2_adds(k as nat, (s - k) as nat);
            assert(sig * (pow2(k as nat) * pow2((s - k) as nat)) == (sig * pow2(k as nat)) * pow2(
                (s - k) as nat,
            )) by (nonlinear_arith);
        }
    } else {
        lemma_pow2_pos((-k) as nat);
        lemma_pow2_pos((s - k) as nat);
        lemma_pow2_adds(s, (-k) as nat);
        assert((sig * pow2(s)) * pow2((-k) as nat) == sig * (pow2(s) * pow2((-k) as nat)))
            by (nonlinear_arith);
    }
    rounding::lemma_nearest_same_value(n1, d1, n2, d2);
}

proof fn lemma_settle_large(sig: nat, k: int)
    requires
        pow2(127) <= sig < pow2(128),
        k >= -75,
    ensures
        rounding::fit(scaled_num(sig, k), scaled_den(k)) == k + 75,
        rounding::round_half_even(
            scaled_num(sig, k),
            scaled_den(k) * pow2((k + 75) as nat),
        ) == rounding::round_half_even(sig, pow2(75)),
{
    let x = (k + 75) as nat;
    let num = scaled_num(sig, k);
    let den = scaled_den(k);
    lemma_pow2_pos(75);
    if k >= 0 {
        let kn = k as nat;
        lemma_pow2_pos(kn);
        lemma_pow2_adds(kn, 128);
        lemma_pow2_adds(kn, 127);
        lemma_pow2_adds(kn, 75);
        assert(kn + 128 == 53 + x);
        assert(kn + 127 == 52 + x);
        assert(sig * pow2(kn) < pow2(kn) * pow2(128)) by (nonlinear_arith)
            requires
                sig < pow2(128),
                pow2(kn) > 0,
        ;
        assert(sig * pow2(kn) >= pow2(kn) * pow2(127)) by (nonlinear_arith)
            requires
                sig >= pow2(127),
        ;
        rounding::lemma_fit_is(num, den, x);
        rounding::lemma_round_scales(sig, pow2(75), pow2(kn));
        assert(pow2(kn) * sig == sig * pow2(kn)) by (nonlinear_arith);
    } else {
        let f = (-k) as nat;
        lemma_pow2_pos(f);
        lemma_pow2_adds(f, 53 + x);
        assert(f + (53 + x) == 128);
        if x > 0 {
            lemma_pow2_adds(f, (52 + x) as nat);
            assert(f + (52 + x) == 127);
        }
        rounding::lemma_fit_is(num, den, x);
        lemma_pow2_adds(f, x);
    }
}

proof fn lemma_settle_small(sig: nat, k: int)
    requires
        pow2(127) <= sig < pow2(128),
        k < -75,
    ensures
        rounding::fit(scaled_num(sig, k), scaled_den(k)) == 0,
        scaled_num(sig, k) == sig,
        scaled_den(k) * pow2(0) == pow2((-k) as nat),
        k < -128 ==> rounding::round_half_even(sig, pow2((-k) as nat)) == 0,
        k == -128 ==> rounding::round_half_even(sig, pow2((-k) as nat)) == (if sig > pow2(127) {
            1nat
        } else {
            0
        }),
{
    let f = (-k) as nat;
    lemma_pow2_pos(f);
    lemma_pow2_pos(f + 53);
    lemma_pow2_adds(f, 53);
    lemma_pow2_strictly_increases(128, f + 53);
    rounding::lemma_fit_is(sig, pow2(f), 0);
    lemma2_to64();
    lemma_pow2_unfold(128);
    if k <= -128 {
        lemma_pow2_unfold(f);
        if f > 128 {
            lemma_pow2_strictly_increases(128, f);
            if f > 129 {
                lemma_pow2_strictly_increases(128, (f - 1) as nat);
            }
        }
        lemma_small_mod(sig, pow2(f));
        lemma_basic_div(sig as int, pow2(f) as int);
    }
}

/// The number with this sign nearest to `sig * 2^k` units.
fn settle(negative: bool, sig: u128, k: i32) -> (r: Double)
    requires
        -0x1_0000 <= k <= 0x1_0000,
    ensures
        r == Double::nearest(negative, scaled_num(sig as nat, k as int), scaled_den(k as int)),
{
    let ghost num = scaled_num(sig as nat, k as int);
    let ghost den = scaled_den(k as int);
    let sign: u64 = if negative {
        SIGN
    } else {
        0
    };
    proof {
        lemma_scaled_shift(sig as nat, k as int, 0);
        reveal(Double::nearest);
        lemma_pow2_127();
        lemma2_to64();
    }
    if sig == 0 {
        proof {
            lemma_pow2_pos(53);
            assert(num == 0) by {
                assert(0 * pow2(k as nat) == 0);
            }
            assert(den * pow2(53) > 0) by (nonlinear_arith)
                requires
                    den > 0,
                    pow2(53) > 0,
            ;
            assert(den * pow2(0) == den);
            lemma_small_mod(0, den);
            lemma_basic_div(0, den as int);
        }
        return Double { bits: sign };
    }
    let mut s: u128 = sig;
    let mut j: i32 = k;
    if s < 0x1_0000_0000_0000_0000 {
        proof {
            lemma_scaled_shift(s as nat, j as int, 64);
        }
        s = s * 0x1_0000_0000_0000_0000;
        j = j - 64;
    }
    while s < 0x100_0000_0000_0000_0000_0000_0000_0000
        invariant
            s > 0,
            k - 128 <= j <= k,
            -0x1_0000 <= k <= 0x1_0000,
            rounding::nearest_pattern(scaled_num(s as nat, j as int), scaled_den(j as int))
                == rounding::nearest_pattern(num, den),
            s >= pow2((k - j) as nat),
        decreases 0x1_0000_0000_0000_0000_0000_0000_0000_0000 - s,
    {
        proof {
            lemma_scaled_shift(s as nat, j as int, 8);
            lemma2_to64();
            lemma_pow2_adds((k - j) as nat, 8);
            if k - j > 120 {
                lemma_pow2_127();
                lemma2_to64_rest();
                lemma_pow2_adds(64, 56);
                lemma_pow2_strictly_increases(120, (k - j) as nat);
            }
        }
        s = s * 0x100;
        j = j - 8;
    }
    while s < 0x8000_0000_0000_0000_0000_0000_0000_0000
        invariant
            s > 0,
            k - 128 <= j <= k,
            -0x1_0000 <= k <= 0x1_0000,
            rounding::nearest_pattern(scaled_num(s as nat, j as int), scaled_den(j as int))
                == rounding::nearest_pattern(num, den),
            s >= pow2((k - j) as nat),
        decreases 0x1_0000_0000_0000_0000_0000_0000_0000_0000 - s,
    {
        proof {
            lemma_scaled_shift(s as nat, j as int, 1);
            lemma2_to64();
            lemma_pow2_adds((k - j) as nat, 1);
            if k - j > 127 {
                lemma_pow2_127();
                lemma_pow2_strictly_increases(127, (k - j) as nat);
            }
        }
        s = s * 2;
        j = j - 1;
    }
    proof {
        lemma_pow2_127();
        lemma_pow2_unfold(128);
    }
    if j >= -75 {
        proof {
            lemma_settle_large(s as nat, j as int);
        }
        let unit: u128 = 0x800_0000_0000_0000_0000;
        let q: u64 = (s / unit) as u64;
        let rest: u128 = s % unit;
        let m: u64 = if 2 * rest < unit {
            q
        } else if 2 * rest > unit {
            q + 1
        } else {
            q + q % 2
        };
        let x: u64 = (j + 75) as u64;
        let pattern: u64 = if x < 2046 {
            x * BINADE + m
        } else {
            rounding::INFINITE
        };
        let clipped: u64 = if pattern < rounding::INFINITE {
            pattern
        } else {
            rounding::INFINITE
        };
        Double { bits: sign + clipped }
    } else {
        proof {
            lemma_settle_small(s as nat, j as int);
        }
        let m: u64 = if j < -128 {
            0
        } else if j == -128 {
            if s > 0x8000_0000_0000_0000_0000_0000_0000_0000 {
                1
            } else {
                0
            }
        } else {
            let unit: u128 = power((-j) as u32);
            proof {
                if -j > 76 {
                    lemma_pow2_strictly_increases(76, (-j) as nat);
                }
                if -j < 127 {
                    lemma_pow2_strictly_increases((-j) as nat, 127);
                }
                lemma_pow2_unfold(76);
                assert(s / unit < 0x40_0000_0000_0000) by (nonlinear_arith)
                    requires
                        s < 0x1_0000_0000_0000_0000_0000_0000_0000_0000,
                        unit >= 0x1000_0000_0000_0000_0000,
                ;
            }
            let q: u64 = (s / unit) as u64;
            let rest: u128 = s % unit;
            let rest_up: u128 = unit - rest;
            if rest < rest_up {
                q
            } else if rest > rest_up {
                q + 1
            } else {
                q + q % 2
            }
        };
        proof {
            assert(pow2(0) == 1) by {
                lemma2_to64();
            }
            assert(scaled_den(j as int) * pow2(0) == pow2((-j) as nat));
        }
        Double { bits: sign + m }
    }
}

pub proof fn lemma_pattern_parts(pattern: nat)
    requires
        pattern <= rounding::INFINITE,
    ensures
        pattern_scale(pattern) <= 2046,
        pattern - pattern_scale(pattern) * BINADE < 2 * BINADE,
        pattern - pattern_scale(pattern) * BINADE >= 0,
        pattern < rounding::INFINITE ==> pattern_scale(pattern) <= 2045,
        pattern_scale(pattern) > 0 ==> pattern - pattern_scale(pattern) * BINADE >= BINADE,
{
}

pub proof fn lemma_pattern_order(p: nat, q: nat)
    requires
        p < q <= rounding::INFINITE,
    ensures
        pattern_magnitude(p) < pattern_magnitude(q),
{
    lemma_pattern_parts(p);
    lemma_pattern_parts(q);
    let xp = pattern_scale(p);
    let xq = pattern_scale(q);
    let mp = (p - xp * BINADE) as nat;
    let mq = (q - xq * BINADE) as nat;
    lemma_pow2_pos(xp);
    if xp == xq {
        assert(mp * pow2(xp) < mq * pow2(xp)) by (nonlinear_arith)
            requires
                mp < mq,
                pow2(xp) > 0,
        ;
    } else {
        assert(xp < xq);
        lemma_pow2_unfold((xp + 1) as nat);
        if xp + 1 < xq {
            lemma_pow2_strictly_increases((xp + 1) as nat, xq);
        }
        assert(mp * pow2(xp) < mq * pow2(xq)) by (nonlinear_arith)
            requires
                mp < 2 * BINADE,
                mq >= BINADE,
                2 * pow2(xp) <= pow2(xq),
                pow2(xp) > 0,
        ;
    }
}

proof fn lemma_pattern_zero()
    ensures
        pattern_magnitude(0) == 0,
{
    assert(0 * pow2(0) == 0);
}

impl Double {
    /// Significand and exponent of the magnitude.
    pub(crate) fn parts(self) -> (r: (u64, u32))
        requires
            !self.is_nan(),
        ensures
            r.0 < 2 * BINADE,
            r.1 <= 2046,
            !self.is_infinite() ==> r.1 <= 2045,
            r.1 > 0 ==> r.0 >= BINADE,
            r.1 == pattern_scale(self.pattern()),
            r.0 == self.pattern() - r.1 * BINADE,
            self.magnitude() == r.0 * pow2(r.1 as nat),
    {
        let p: u64 = self.bits % SIGN;
        proof {
            lemma_pattern_parts(p as nat);
        }
        if p < BINADE {
            (p, 0)
        } else {
            let x: u64 = p / BINADE - 1;
            (p - x * BINADE, x as u32)
        }
    }

    pub fn is_negative(self) -> (r: bool)
        ensures
            r == self.negative(),
    {
        self.bits >= SIGN
    }

    pub fn nan_value(self) -> (r: bool)
        ensures
            r == self.is_nan(),
    {
        self.bits % SIGN > rounding::INFINITE
    }

    /// `self < other`.
    pub fn lt(self, other: Double) -> (r: bool)
        ensures
            r == self.below(other),
    {
        let p: u64 = self.bits % SIGN;
        let q: u64 = other.bits % SIGN;
        if p > rounding::INFINITE || q > rounding::INFINITE {
            return false;
        }
        proof {
            lemma_pattern_zero();
            if 0 < p {
                lemma_pattern_order(0, p as nat);
            }
            if 0 < q {
                lemma_pattern_order(0, q as nat);
            }
            if p < q {
                lemma_pattern_order(p as nat, q as nat);
            }
            if q < p {
                lemma_pattern_order(q as nat, p as nat);
            }
        }
        if self.bits >= SIGN {
            if other.bits >= SIGN {
                q < p
            } else {
                p > 0 || q > 0
            }
        } else if other.bits >= SIGN {
            false
        } else {
            p < q
        }
    }

    /// `self <= other`.
    pub fn le(self, other: Double) -> (r: bool)
        ensures
            r == self.at_most(other),
    {
        if self.nan_value() || other.nan_value() {
            false
        } else {
            !other.lt(self)
        }
    }

    /// `self == other` as numbers.
    pub fn eq_value(self, other: Double) -> (r: bool)
        ensures
            r == self.equals(other),
    {
        self.le(other) && other.le(self)
    }

    /// `-self`.
    pub fn neg(self) -> (r: Double)
        ensures
            r == self.negated(),
    {
        if self.bits >= SIGN {
            Double { bits: self.bits - SIGN }
        } else {
            Double { bits: self.bits + SIGN }
        }
    }

    /// The absolute value.
    pub fn abs(self) -> (r: Double)
        ensures
            r == self.absolute(),
    {
        Double { bits: self.bits % SIGN }
    }

    /// `self * other`.
    pub fn mul(self, other: Double) -> (r: Double)
        ensures
            r == self.times(other),
    {
        reveal(Double::times);
        let negative = self.is_negative() != other.is_negative();
        let p: u64 = self.bits % SIGN;
        let q: u64 = other.bits % SIGN;
        if p > rounding::INFINITE || q > rounding::INFINITE {
            return Double { bits: QUIET_NAN };
        }
        proof {
            lemma_pattern_zero();
            if 0 < p {
                lemma_pattern_order(0, p as nat);
            }
            if 0 < q {
                lemma_pattern_order(0, q as nat);
            }
        }
        if p == rounding::INFINITE || q == rounding::INFINITE {
            if p == 0 || q == 0 {
                return Double { bits: QUIET_NAN };
            }
            return Double {
                bits: if negative {
                    SIGN + rounding::INFINITE
                } else {
                    rounding::INFINITE
                },
            };
        }
        let (ma, xa) = self.parts();
        let (mb, xb) = other.parts();
        assert(ma * mb < 0x1_0000_0000_0000_0000_0000_0000_0000_0000) by (nonlinear_arith)
            requires
                0 <= ma < 0x20_0000_0000_0000,
                0 <= mb < 0x20_0000_0000_0000,
        ;
        let sig: u128 = (ma as u128) * (mb as u128);
        let k: i32 = xa as i32 + xb as i32 - 1074;
        proof {
            let n1 = scaled_num(sig as nat, k as int);
            let d1 = scaled_den(k as int);
            let n2 = self.magnitude() * other.magnitude();
            let d2 = pow2(1074);
            lemma_pow2_pos(1074);
            let x = (xa + xb) as nat;
            lemma_pow2_adds(xa as nat, xb as nat);
            assert(n2 == sig * pow2(x)) by (nonlinear_arith)
                requires
                    n2 == (ma * pow2(xa as nat)) * (mb * pow2(xb as nat)),
                    sig == ma * mb,
                    pow2(x) == pow2(xa as nat) * pow2(xb as nat),
            ;
            if k >= 0 {
                lemma_pow2_adds(k as nat, 1074);
                assert((sig * pow2(k as nat)) * pow2(1074) == sig * (pow2(k as nat) * pow2(1074)))
                    by (nonlinear_arith);
            } else {
                lemma_pow2_pos((-k) as nat);
                lemma_pow2_adds(x, (-k) as nat);
                assert(sig * (pow2(x) * pow2((-k) as nat)) == (sig * pow2(x)) * pow2((-k) as nat))
                    by (nonlinear_arith);
            }
            rounding::lemma_nearest_same_value(n1, d1, n2, d2);
            reveal(Double::nearest);
        }
        settle(negative, sig, k)
    }
}

/// `n` multiplied by a power of two until it has at least 119 binary digits.
fn lift(n: u64) -> (r: (u128, u32))
    requires
        n > 0,
    ensures
        r.0 == n * pow2(r.1 as nat),
        pow2(118) <= r.0 < pow2(126),
        r.1 <= 200,
{
    proof {
        lemma2_to64();
        lemma2_to64_rest();
        lemma_pow2_adds(64, 54);
        lemma_pow2_adds(64, 62);
    }
    let mut m: u128 = (n as u128) * 0x40_0000_0000_0000;
    let mut c: u32 = 54;
    while m < 0x40_0000_0000_0000_0000_0000_0000_0000
        invariant
            0 < m < 0x4000_0000_0000_0000_0000_0000_0000_0000,
            54 <= c <= 54 + m,
            c <= 190,
            m == n * pow2(c as nat),
            n > 0,
        decreases 0x4000_0000_0000_0000_0000_0000_0000_0000 - m,
    {
        proof {
            lemma2_to64();
            lemma2_to64_rest();
            lemma_pow2_adds(c as nat, 8);
            assert(n * (pow2(c as nat) * 0x100) == (n * pow2(c as nat)) * 0x100) by (nonlinear_arith);
            lemma_pow2_adds(64, 54);
            if c > 118 {
                lemma_pow2_strictly_increases(118, c as nat);
                assert(n * pow2(c as nat) >= pow2(c as nat)) by (nonlinear_arith)
                    requires
                        n >= 1,
                        pow2(c as nat) > 0,
                ;
            }
        }
        m = m * 0x100;
        c = c + 8;
    }
    (m, c)
}

/// A long quotient may be replaced by its integer part and a last digit that says whether
/// something is left over.
proof fn lemma_quotient_settles(n: nat, dn: nat, e: int, sn: nat)
    requires
        dn > 0,
        n / dn >= pow2(54),
        sn == 2 * (n / dn) + rounding::inexact(n, dn),
    ensures
        rounding::nearest_pattern(scaled_num(n, e), dn * scaled_den(e))
            == rounding::nearest_pattern(scaled_num(sn, e - 1), scaled_den(e - 1)),
{
    lemma2_to64();
    if e >= 0 {
        let en = e as nat;
        rounding::lemma_nearest_sticky_up(n, dn, en);
        if e >= 1 {
            lemma_pow2_unfold(en);
            let h = pow2((en - 1) as nat);
            assert((sn * h) * 2 == (sn * pow2(en)) * 1) by (nonlinear_arith)
                requires
                    pow2(en) == 2 * h,
            ;
            rounding::lemma_nearest_same_value(sn * h, 1, sn * pow2(en), 2);
        } else {
            assert(pow2(0) == 1);
            assert(pow2(1) == 2);
            assert(sn * pow2(0) == sn);
        }
        assert(scaled_den(e) == 1);
        assert(dn * 1 == dn);
    } else {
        let f = (-e) as nat;
        rounding::lemma_nearest_sticky_down(n, dn, f);
        lemma_pow2_unfold(f + 1);
        assert(scaled_den(e - 1) == 2 * pow2(f));
        assert(scaled_num(sn, e - 1) == sn);
    }
}

/// The number with this sign nearest to a long quotient times `2^e` units, by the integer part
/// of the quotient.
pub(crate) fn settle_long(
    negative: bool,
    q: u64,
    left_over: bool,
    e: i32,
    Ghost(n): Ghost<nat>,
    Ghost(dn): Ghost<nat>,
) -> (r: Double)
    requires
        dn > 0,
        q == n / dn,
        q >= 0x40_0000_0000_0000,
        left_over == (n % dn != 0),
        -0x8000 <= e <= 0x8000,
    ensures
        r == Double::nearest(negative, scaled_num(n, e as int), dn * scaled_den(e as int)),
{
    let s: u128 = 2 * (q as u128) + (if left_over {
        1
    } else {
        0
    });
    proof {
        lemma_pow2_127();
        lemma_quotient_settles(n, dn, e as int, s as nat);
        reveal(Double::nearest);
    }
    settle(negative, s, e - 1)
}

/// The number with this sign nearest to `num / den * 2^e` units.
fn settle_quotient(negative: bool, num: u128, den: u64, e: i32) -> (r: Double)
    requires
        den > 0,
        pow2(118) <= num < pow2(126),
        -0x8000 <= e <= 0x8000,
    ensures
        r == Double::nearest(
            negative,
            scaled_num(num as nat, e as int),
            den as nat * scaled_den(e as int),
        ),
{
    proof {
        lemma2_to64();
        lemma2_to64_rest();
        lemma_pow2_adds(64, 54);
        lemma_pow2_adds(64, 62);
        lemma_pow2_127();
    }
    let d: u128 = den as u128;
    let q: u128 = num / d;
    let rest: u128 = num % d;
    proof {
        assert(q >= 0x40_0000_0000_0000) by (nonlinear_arith)
            requires
                q == num / d,
                num >= 0x40_0000_0000_0000_0000_0000_0000_0000,
                0 < d <= 0xFFFF_FFFF_FFFF_FFFF,
        ;
        assert(q <= num) by (nonlinear_arith)
            requires
                q == num / d,
                d >= 1,
        ;
    }
    let t: u128 = if rest == 0 {
        0
    } else {
        1
    };
    let s: u128 = 2 * q + t;
    proof {
        lemma_quotient_settles(num as nat, den as nat, e as int, s as nat);
        reveal(Double::nearest);
    }
    settle(negative, s, e - 1)
}

impl Double {
    /// `num / den`, correctly rounded.
    pub fn ratio(num: u64, den: u64) -> (r: Double)
        requires
            den > 0,
        ensures
            r == Double::ratio_of(num as int, den as nat),
    {
        if num == 0 {
            proof {
                assert(0 * pow2(1074) == 0);
                rounding::lemma_nearest_same_value(0, 1, 0, den as nat);
                reveal(Double::nearest);
                assert(scaled_num(0, 0) == 0) by {
                    assert(0 * pow2(0) == 0);
                }
            }
            return settle(false, 0, 0);
        }
        let (n, c) = lift(num);
        let e: i32 = 1074 - c as i32;
        proof {
            let d = den as nat;
            let e0 = e as nat;
            assert(e >= 0);
            lemma_pow2_adds(c as nat, e0);
            assert(c as nat + e0 == 1074);
            assert(n * pow2(e0) == num * pow2(1074)) by (nonlinear_arith)
                requires
                    n == num * pow2(c as nat),
                    pow2(1074) == pow2(c as nat) * pow2(e0),
            ;
            assert(d * 1 == d);
        }
        settle_quotient(false, n, den, e)
    }

    /// The number nearest to an unsigned integer.
    pub fn from_u64(n: u64) -> (r: Double)
        ensures
            r == Double::of(n as int),
    {
        Double::ratio(n, 1)
    }

    /// The number nearest to a signed integer.
    pub fn from_i64(n: i64) -> (r: Double)
        ensures
            r == Double::of(n as int),
    {
        if n >= 0 {
            Double::ratio(n as u64, 1)
        } else {
            let m: u64 = (-(n as i128)) as u64;
            let (s, c) = lift(m);
            let e: i32 = 1074 - c as i32;
            proof {
                let e0 = e as nat;
                lemma_pow2_adds(c as nat, e0);
                assert(c as nat + e0 == 1074);
                assert(s * pow2(e0) == m * pow2(1074)) by (nonlinear_arith)
                    requires
                        s == m * pow2(c as nat),
                        pow2(1074) == pow2(c as nat) * pow2(e0),
                ;
            }
            settle_quotient(true, s, 1, e)
        }
    }

    /// `self / other`.
    pub fn div(self, other: Double) -> (r: Double)
        ensures
            r == self.over(other),
    {
        reveal(Double::over);
        let negative = self.is_negative() != other.is_negative();
        let p: u64 = self.bits % SIGN;
        let q: u64 = other.bits % SIGN;
        if p > rounding::INFINITE || q > rounding::INFINITE {
            return Double { bits: QUIET_NAN };
        }
        proof {
            lemma_pattern_zero();
            if 0 < p {
                lemma_pattern_order(0, p as nat);
            }
            if 0 < q {
                lemma_pattern_order(0, q as nat);
            }
        }
        if (p == rounding::INFINITE && q == rounding::INFINITE) || (p == 0 && q == 0) {
            return Double { bits: QUIET_NAN };
        }
        if p == rounding::INFINITE || q == 0 {
            return Double {
                bits: if negative {
                    SIGN + rounding::INFINITE
                } else {
                    rounding::INFINITE
                },
            };
        }
        if q == rounding::INFINITE || p == 0 {
            proof {
                assert(scaled_num(0, 0) == 0) by {
                    assert(0 * pow2(0) == 0);
                }
                assert(0 * pow2(1074) == 0);
                if q != rounding::INFINITE {
                    rounding::lemma_nearest_same_value(0, 1, 0, other.magnitude());
                }
                reveal(Double::nearest);
            }
            return settle(negative, 0, 0);
        }
        let (ma, xa) = self.parts();
        let (mb, xb) = other.parts();
        proof {
            assert(0 * pow2(xa as nat) == 0);
            assert(0 * pow2(xb as nat) == 0);
        }
        let (n, c) = lift(ma);
        let e: i32 = xa as i32 + 1074 - c as i32 - xb as i32;
        proof {
            let n1 = scaled_num(n as nat, e as int);
            let d1 = mb as nat * scaled_den(e as int);
            let n2 = self.magnitude() * pow2(1074);
            let d2 = other.magnitude();
            let pa = pow2(xa as nat);
            let pb = pow2(xb as nat);
            let pc = pow2(c as nat);
            let pu = pow2(1074);
            lemma_pow2_adds(xa as nat, 1074);
            lemma_pow2_adds(c as nat, xb as nat);
            if e >= 0 {
                let pe = pow2(e as nat);
                lemma_pow2_adds((c + xb) as nat, e as nat);
                assert(c + xb + e == xa + 1074);
                assert((n * pe) * (mb * pb) == ((ma * pa) * pu) * mb) by (nonlinear_arith)
                    requires
                        n == ma * pc,
                        (pc * pb) * pe == pa * pu,
                ;
                assert(mb * 1 == mb);
            } else {
                let pf = pow2((-e) as nat);
                lemma_pow2_pos((-e) as nat);
                lemma_pow2_adds((xa + 1074) as nat, (-e) as nat);
                assert(xa + 1074 - e == c + xb);
                assert(n * (mb * pb) == ((ma * pa) * pu) * (mb * pf)) by (nonlinear_arith)
                    requires
                        n == ma * pc,
                        pc * pb == (pa * pu) * pf,
                ;
                assert(mb * pf > 0) by (nonlinear_arith)
                    requires
                        mb > 0,
                        pf > 0,
                ;
            }
            rounding::lemma_nearest_same_value(n1, d1, n2, d2);
            reveal(Double::nearest);
        }
        settle_quotient(negative, n, mb, e)
    }
}

/// The exact sum or difference of two magnitudes.
spec fn combined(ma: nat, xa: nat, mb: nat, xb: nat, subtract: bool) -> int {
    if subtract {
        ma * pow2(xa) - mb * pow2(xb)
    } else {
        (ma * pow2(xa) + mb * pow2(xb)) as int
    }
}

proof fn lemma_combined_near(ma: nat, d: nat, mb: nat, xb: nat, subtract: bool)
    ensures
        combined(ma, d + xb, mb, xb, subtract) == combined(ma, d, mb, 0, subtract) * pow2(xb),
{
    lemma_pow2_adds(d, xb);
    assert(pow2(0) == 1) by {
        lemma2_to64();
    }
    assert(ma * (pow2(d) * pow2(xb)) == (ma * pow2(d)) * pow2(xb)) by (nonlinear_arith);
    assert((ma * pow2(d) - mb) * pow2(xb) == (ma * pow2(d)) * pow2(xb) - mb * pow2(xb))
        by (nonlinear_arith);
    assert((ma * pow2(d) + mb) * pow2(xb) == (ma * pow2(d)) * pow2(xb) + mb * pow2(xb))
        by (nonlinear_arith);
    assert(mb * pow2(0) == mb);
}

/// Quotient and left-over digit of a far smaller summand, after `2^j`.
proof fn lemma_combined_far(high: nat, mb: nat, p: nat, subtract: bool)
    requires
        p > 0,
        high * p >= mb,
    ensures
        !subtract ==> {
            &&& (high * p + mb) / p == high + mb / p
            &&& (high * p + mb) % p == mb % p
        },
        subtract && mb % p == 0 ==> {
            &&& ((high * p - mb) as nat) / p == high - mb / p
            &&& ((high * p - mb) as nat) % p == 0
        },
        subtract && mb % p != 0 ==> {
            &&& ((high * p - mb) as nat) / p == high - mb / p - 1
            &&& ((high * p - mb) as nat) % p == p - mb % p
        },
{
    let q = mb / p;
    let r = mb % p;
    lemma_fundamental_div_mod(mb as int, p as int);
    if !subtract {
        assert(high * p + mb == (high + q) * p + r) by (nonlinear_arith)
            requires
                mb == p * q + r,
        ;
        lemma_fundamental_div_mod_converse((high * p + mb) as int, p as int, (high + q) as int, r as int);
    } else if r == 0 {
        assert(high * p - mb == (high - q) * p + 0) by (nonlinear_arith)
            requires
                mb == p * q + r,
                r == 0,
        ;
        lemma_fundamental_div_mod_converse(high * p - mb, p as int, high - q, 0);
    } else {
        assert(high * p - mb == (high - q - 1) * p + (p - r)) by (nonlinear_arith)
            requires
                mb == p * q + r,
        ;
        lemma_fundamental_div_mod_converse(high * p - mb, p as int, high - q - 1, p - r);
    }
}

/// The number with this sign nearest to `ma * 2^xa` plus or minus `mb * 2^xb` units.
fn combine(negative: bool, ma: u64, xa: u32, mb: u64, xb: u32, subtract: bool) -> (r: Double)
    requires
        ma < 2 * BINADE,
        mb < 2 * BINADE,
        xb <= xa <= 2046,
        xa > 0 ==> ma >= BINADE,
        combined(ma as nat, xa as nat, mb as nat, xb as nat, subtract) >= 0,
    ensures
        r == Double::nearest(
            negative,
            combined(ma as nat, xa as nat, mb as nat, xb as nat, subtract) as nat,
            1,
        ),
{
    let d: u32 = xa - xb;
    let ghost exact = combined(ma as nat, xa as nat, mb as nat, xb as nat, subtract);
    proof {
        lemma_combined_near(ma as nat, d as nat, mb as nat, xb as nat, subtract);
        assert(pow2(0) == 1) by {
            lemma2_to64();
        }
        lemma_pow2_pos(xb as nat);
        lemma_pow2_127();
    }
    if d <= 72 {
        let lift_by: u128 = power(d);
        proof {
            lemma2_to64();
            lemma_pow2_adds(64, 8);
            if d < 72 {
                lemma_pow2_strictly_increases(d as nat, 72);
            }
            assert(ma * lift_by <= 0x20_0000_0000_0000 * 0x100_0000_0000_0000_0000) by (nonlinear_arith)
                requires
                    ma < 0x20_0000_0000_0000,
                    lift_by <= 0x100_0000_0000_0000_0000,
            ;
            let near = combined(ma as nat, d as nat, mb as nat, 0, subtract);
            assert(near >= 0) by (nonlinear_arith)
                requires
                    near * pow2(xb as nat) >= 0,
                    pow2(xb as nat) > 0,
            ;
        }
        let high: u128 = (ma as u128) * lift_by;
        let sig: u128 = if subtract {
            high - mb as u128
        } else {
            high + mb as u128
        };
        settle(negative, sig, xb as i32)
    } else {
        let j: u32 = d - 72;
        let high: u128 = (ma as u128) * 0x100_0000_0000_0000_0000;
        let (q, t): (u64, u64) = if j >= 53 {
            (0, if mb == 0 { 0 } else { 1 })
        } else {
            let p: u128 = power(j);
            let b: u128 = mb as u128;
            proof {
                lemma_pow2_pos(j as nat);
                assert(b / p <= b) by (nonlinear_arith)
                    requires
                        p >= 1,
                ;
            }
            ((b / p) as u64, if b % p == 0 { 0 } else { 1 })
        };
        proof {
            let p = pow2(j as nat);
            lemma_pow2_pos(j as nat);
            if j >= 53 {
                if j > 53 {
                    lemma_pow2_strictly_increases(53, j as nat);
                }
                lemma_small_mod(mb as nat, p);
                lemma_basic_div(mb as int, p as int);
            }
            assert(q == mb as nat / p);
            assert(t == (if mb as nat % p == 0 { 0nat } else { 1 }));
        }
        let whole: u128 = if !subtract {
            high + q as u128
        } else if t == 0 {
            high - q as u128
        } else {
            high - q as u128 - 1
        };
        let s: u128 = 2 * whole + t as u128;
        let e: i32 = (xb + j) as i32;
        proof {
            let p = pow2(j as nat);
            let h = high as nat;
            let m = mb as nat;
            let en = e as nat;
            lemma2_to64();
            lemma_pow2_adds(64, 8);
            lemma_pow2_adds(72, j as nat);
            assert(72 + j == d);
            assert(h * p >= m) by (nonlinear_arith)
                requires
                    h >= 0x20_0000_0000_0000,
                    p >= 1,
                    m < 0x20_0000_0000_0000,
            ;
            lemma_combined_far(h, m, p, subtract);
            let num = (if subtract { h * p - m } else { (h * p + m) as int }) as nat;
            assert(h * p == ma * pow2(d as nat)) by (nonlinear_arith)
                requires
                    h == ma * pow2(72),
                    pow2(d as nat) == pow2(72) * p,
            ;
            assert(m * pow2(0) == m);
            assert(num == combined(ma as nat, d as nat, m, 0, subtract));
            assert(whole == num / p);
            assert(t == rounding::inexact(num, p));
            rounding::lemma_nearest_sticky_up(num, p, en);
            lemma_pow2_adds(xb as nat, j as nat);
            assert(exact * p == (num * pow2(en)) * 1) by (nonlinear_arith)
                requires
                    exact == num * pow2(xb as nat),
                    pow2(en) == pow2(xb as nat) * p,
            ;
            rounding::lemma_nearest_same_value(exact as nat, 1, num * pow2(en), p);
            lemma_pow2_unfold(en);
            let half = pow2((en - 1) as nat);
            let sn = s as nat;
            assert((sn * half) * 2 == (sn * pow2(en)) * 1) by (nonlinear_arith)
                requires
                    pow2(en) == 2 * half,
            ;
            rounding::lemma_nearest_same_value(sn * half, 1, sn * pow2(en), 2);
            reveal(Double::nearest);
        }
        settle(negative, s, e - 1)
    }
}

impl Double {
    /// `self + other`.
    pub fn add(self, other: Double) -> (r: Double)
        ensures
            r == self.plus(other),
    {
        reveal(Double::plus);
        let p: u64 = self.bits % SIGN;
        let q: u64 = other.bits % SIGN;
        if p > rounding::INFINITE || q > rounding::INFINITE {
            return Double { bits: QUIET_NAN };
        }
        let na = self.is_negative();
        let nb = other.is_negative();
        if p == rounding::INFINITE {
            if q == rounding::INFINITE && na != nb {
                return Double { bits: QUIET_NAN };
            }
            return self;
        }
        if q == rounding::INFINITE {
            return other;
        }
        proof {
            lemma_pattern_zero();
            if 0 < p {
                lemma_pattern_order(0, p as nat);
            }
            if 0 < q {
                lemma_pattern_order(0, q as nat);
            }
            if p < q {
                lemma_pattern_order(p as nat, q as nat);
            }
            if q < p {
                lemma_pattern_order(q as nat, p as nat);
            }
        }
        if (p == 0 && q == 0) || (p == q && na != nb) {
            return Double {
                bits: if na && nb {
                    SIGN
                } else {
                    0
                },
            };
        }
        let (ma, xa) = self.parts();
        let (mb, xb) = other.parts();
        proof {
            lemma_pattern_parts(p as nat);
            lemma_pattern_parts(q as nat);
        }
        if p >= q {
            assert(xa >= xb);
            combine(na, ma, xa, mb, xb, na != nb)
        } else {
            assert(xb >= xa);
            combine(nb, mb, xb, ma, xa, na != nb)
        }
    }

    /// `self - other`.
    pub fn sub(self, other: Double) -> (r: Double)
        ensures
            r == self.minus(other),
    {
        self.add(other.neg())
    }
}

/// The integer part of the square root of a number of at most 112 binary digits.
fn integer_root(s: u128) -> (r: u64)
    requires
        s < pow2(112),
    ensures
        rounding::is_root(s as nat, r as nat),
        r < 0x100_0000_0000_0000,
{
    proof {
        lemma2_to64();
        lemma2_to64_rest();
        lemma_pow2_adds(64, 48);
    }
    let mut r: u128 = 0;
    let mut bit: u128 = 0x80_0000_0000_0000;
    let mut step: u32 = 56;
    assert(2 * bit == pow2(56));
    while step > 0
        invariant
            step <= 56,
            bit == if step == 0 { 0nat } else { pow2((step - 1) as nat) },
            r * r <= s < (r + pow2(step as nat)) * (r + pow2(step as nat)),
            r + pow2(step as nat) <= 0x100_0000_0000_0000,
        decreases step,
    {
        proof {
            lemma_pow2_unfold(step as nat);
        }
        let c: u128 = r + bit;
        proof {
            assert(c * c <= 0x100_0000_0000_0000 * 0x100_0000_0000_0000) by (nonlinear_arith)
                requires
                    0 <= c <= 0x100_0000_0000_0000,
            ;
            lemma2_to64();
            if step > 1 {
                lemma_pow2_unfold((step - 1) as nat);
            }
        }
        if c * c <= s {
            r = c;
        }
        bit = bit / 2;
        step = step - 1;
    }
    proof {
        lemma2_to64();
    }
    r as u64
}

proof fn lemma_root_eighth(s: nat, r: nat)
    requires
        rounding::is_root(s, r),
    ensures
        rounding::is_root(s / 64, r / 8),
{
    let q = r / 8;
    assert((q * q) * 64 <= s) by (nonlinear_arith)
        requires
            8 * q <= r,
            r * r <= s,
    ;
    assert(s < ((q + 1) * (q + 1)) * 64) by (nonlinear_arith)
        requires
            r + 1 <= 8 * (q + 1),
            s < (r + 1) * (r + 1),
    ;
}

impl Double {
    /// The square root.
    pub fn sqrt(self) -> (r: Double)
        ensures
            r == self.root(),
    {
        reveal(Double::root);
        let p: u64 = self.bits % SIGN;
        if p > rounding::INFINITE {
            return Double { bits: QUIET_NAN };
        }
        proof {
            lemma_pattern_zero();
            if 0 < p {
                lemma_pattern_order(0, p as nat);
            }
        }
        if p == 0 {
            return self;
        }
        if self.is_negative() {
            return Double { bits: QUIET_NAN };
        }
        if p == rounding::INFINITE {
            return self;
        }
        let (m, x) = self.parts();
        let total: u32 = x + 1074;
        proof {
            assert(0 * pow2(x as nat) == 0);
            lemma2_to64();
            lemma2_to64_rest();
            lemma_pow2_adds(64, 46);
            lemma_pow2_adds(64, 48);
            lemma_pow2_adds(x as nat, 1074);
        }
        let mut s: u128 = m as u128;
        let mut c: u32 = 0;
        if total % 2 == 1 {
            s = s * 2;
            c = 1;
        }
        proof {
            let pc = pow2(c as nat);
            assert(pc == (if c == 0 { 1nat } else { 2 }));
            assert(s == m * pc) by (nonlinear_arith)
                requires
                    pc == 1 && s == m || pc == 2 && s == m * 2,
            ;
            lemma_pow2_adds(c as nat, 56);
            assert(m * (pow2(c as nat) * pow2(56)) == (m * pow2(c as nat)) * pow2(56)) by (nonlinear_arith);
        }
        s = s * 0x100_0000_0000_0000;
        c = c + 56;
        while s < 0x4000_0000_0000_0000_0000_0000_0000
            invariant
                0 < s < 0x1_0000_0000_0000_0000_0000_0000_0000,
                56 <= c <= 300,
                c % 2 == total % 2,
                s == m * pow2(c as nat),
                m > 0,
            decreases 0x1_0000_0000_0000_0000_0000_0000_0000 - s,
        {
            proof {
                lemma2_to64();
                lemma2_to64_rest();
                lemma_pow2_adds(64, 46);
                lemma_pow2_adds(c as nat, 2);
                assert(m * (pow2(c as nat) * 4) == (m * pow2(c as nat)) * 4) by (nonlinear_arith);
                if c > 110 {
                    lemma_pow2_strictly_increases(110, c as nat);
                    assert(m * pow2(c as nat) >= pow2(c as nat)) by (nonlinear_arith)
                        requires
                            m >= 1,
                            pow2(c as nat) > 0,
                    ;
                }
            }
            s = s * 4;
            c = c + 2;
        }
        let j: u32 = (total - c) / 2;
        let r = integer_root(s);
        let q: u64 = r / 8;
        let four: u128 = 4 * s;
        proof {
            assert((2 * q + 1) * (2 * q + 1) <= 0x100_0000_0000_0000 * 0x100_0000_0000_0000)
                by (nonlinear_arith)
                requires
                    0 <= 2 * q + 1 <= 0x100_0000_0000_0000,
            ;
        }
        let odd: u128 = 2 * (q as u128) + 1;
        let middle: u128 = odd * odd * 64;
        let low: u64 = if four < middle {
            q
        } else if four > middle {
            q + 1
        } else {
            q + q % 2
        };
        proof {
            let n = self.magnitude() * pow2(1074);
            let jn = j as nat;
            let e = pow2(2 * jn);
            lemma_pow2_pos(2 * jn);
            lemma_pow2_adds(c as nat, 2 * jn);
            assert(c + 2 * jn == total);
            assert(n == s * e) by (nonlinear_arith)
                requires
                    n == (m * pow2(x as nat)) * pow2(1074),
                    s == m * pow2(c as nat),
                    pow2(x as nat) * pow2(1074) == pow2(c as nat) * e,
            ;
            let y = (jn + 3) as nat;
            lemma_pow2_adds(112, 2 * jn);
            lemma_pow2_adds(110, 2 * jn);
            assert(n < pow2(106 + 2 * y)) by (nonlinear_arith)
                requires
                    n == s * e,
                    s < pow2(112),
                    pow2(106 + 2 * y) == pow2(112) * e,
                    e > 0,
            ;
            assert(n >= pow2((104 + 2 * y) as nat)) by (nonlinear_arith)
                requires
                    n == s * e,
                    s >= pow2(110),
                    pow2((104 + 2 * y) as nat) == pow2(110) * e,
            ;
            rounding::lemma_root_fit_is(n, y);
            lemma_pow2_adds(6, 2 * jn);
            assert(6 + 2 * jn == 2 * y);
            assert(pow2(2 * y) == 64 * e);
            assert(n / pow2(2 * y) == s as nat / 64) by {
                assert(64 * e == e * 64) by (nonlinear_arith);
                lemma_div_denominator(n as int, e as int, 64);
                lemma_div_multiples_vanish(s as int, e as int);
                assert(s * e == e * s) by (nonlinear_arith);
            }
            lemma_root_eighth(s as nat, r as nat);
            let chosen = rounding::integer_root_of(n / pow2(2 * y));
            assert(rounding::is_root(n / pow2(2 * y), q as nat));
            rounding::lemma_root_unique(n / pow2(2 * y), chosen, q as nat);
            let square = ((2 * q + 1) * (2 * q + 1)) as nat;
            assert(middle == square * 64) by (nonlinear_arith)
                requires
                    odd == 2 * q + 1,
                    square == (2 * q + 1) * (2 * q + 1),
                    middle == odd * odd * 64,
            ;
            assert(square * pow2(2 * y) == middle * e) by (nonlinear_arith)
                requires
                    middle == square * 64,
                    pow2(2 * y) == 64 * e,
            ;
            assert(4 * n == four * e) by (nonlinear_arith)
                requires
                    n == s * e,
                    four == 4 * s,
            ;
            assert(four < middle <==> four * e < middle * e) by (nonlinear_arith)
                requires
                    e > 0,
            ;
            assert(four > middle <==> four * e > middle * e) by (nonlinear_arith)
                requires
                    e > 0,
            ;
        }
        Double { bits: (j as u64 + 3) * BINADE + low }
    }

    /// The larger of two numbers.
    pub fn max(self, other: Double) -> (r: Double)
        ensures
            r == self.larger(other),
    {
        if self.nan_value() || self.lt(other) {
            other
        } else {
            self
        }
    }

    /// The smaller of two numbers.
    pub fn min(self, other: Double) -> (r: Double)
        ensures
            r == self.smaller(other),
    {
        if self.nan_value() || other.lt(self) {
            other
        } else {
            self
        }
    }
}

/// `n` held between two bounds.
pub open spec fn clamped(n: int, low: int, high: int) -> int {
    if n < low {
        low
    } else if n > high {
        high
    } else {
        n
    }
}

proof fn lemma_div_nonneg(a: nat, b: nat)
    requires
        b > 0,
    ensures
        a / b >= 0,
{
}

impl Double {
    /// The integer part of the absolute value, at most `2^64`.
    fn whole_part(self) -> (r: u128)
        requires
            !self.is_nan(),
        ensures
            r == clamped((self.magnitude() / pow2(1074)) as int, 0, 0x1_0000_0000_0000_0000),
    {
        let (m, x) = self.parts();
        proof {
            lemma_pow2_pos(1074);
            lemma2_to64();
            lemma2_to64_rest();
        }
        if x < 1074 {
            let k: u32 = 1074 - x;
            proof {
                let unit = pow2(x as nat);
                let p = pow2(k as nat);
                lemma_pow2_pos(x as nat);
                lemma_pow2_pos(k as nat);
                lemma_pow2_adds(x as nat, k as nat);
                lemma_div_denominator((m * unit) as int, unit as int, p as int);
                assert(m * unit == unit * m) by (nonlinear_arith);
                lemma_div_multiples_vanish(m as int, unit as int);
                assert(self.magnitude() / pow2(1074) == m as nat / p);
                if k >= 53 {
                    if k > 53 {
                        lemma_pow2_strictly_increases(53, k as nat);
                    }
                    lemma_basic_div(m as int, p as int);
                } else {
                    assert(m as nat / p <= m) by (nonlinear_arith)
                        requires
                            p >= 1,
                    ;
                }
            }
            if k >= 53 {
                0
            } else {
                (m as u128) / power(k)
            }
        } else {
            let j: u32 = x - 1074;
            proof {
                let u = pow2(1074);
                lemma_pow2_adds(j as nat, 1074);
                assert(m * pow2(x as nat) == u * (m * pow2(j as nat))) by (nonlinear_arith)
                    requires
                        pow2(x as nat) == pow2(j as nat) * u,
                ;
                lemma_div_multiples_vanish((m * pow2(j as nat)) as int, u as int);
                if j >= 12 {
                    if j > 12 {
                        lemma_pow2_strictly_increases(12, j as nat);
                    }
                    assert(m * pow2(j as nat) >= 0x10_0000_0000_0000 * 0x1000) by (nonlinear_arith)
                        requires
                            m >= 0x10_0000_0000_0000,
                            pow2(j as nat) >= 0x1000,
                    ;
                } else {
                    lemma_pow2_strictly_increases(j as nat, 12);
                    assert(m * pow2(j as nat) <= 0x20_0000_0000_0000 * 0x1000) by (nonlinear_arith)
                        requires
                            m < 0x20_0000_0000_0000,
                            pow2(j as nat) < 0x1000,
                    ;
                }
            }
            if j >= 12 {
                0x1_0000_0000_0000_0000
            } else {
                let v: u128 = (m as u128) * power(j);
                if v > 0x1_0000_0000_0000_0000 {
                    0x1_0000_0000_0000_0000
                } else {
                    v
                }
            }
        }
    }

    /// The value as a 64-bit integer: cut off, held within the type, zero for NaN.
    pub fn to_i64(self) -> (r: i64)
        ensures
            r == clamped(self.truncated(), i64::MIN as int, i64::MAX as int),
    {
        proof {
            lemma_pow2_pos(1074);
            lemma_div_nonneg(self.magnitude(), pow2(1074));
        }
        if self.nan_value() {
            return 0;
        }
        let w = self.whole_part();
        if self.is_negative() {
            if w >= 0x8000_0000_0000_0000 {
                i64::MIN
            } else {
                -(w as i64)
            }
        } else if w > 0x7FFF_FFFF_FFFF_FFFF {
            i64::MAX
        } else {
            w as i64
        }
    }

    /// The value as an unsigned 32-bit integer: cut off, held within the type, zero for NaN.
    pub fn to_u32(self) -> (r: u32)
        ensures
            r == clamped(self.truncated(), 0, u32::MAX as int),
    {
        proof {
            lemma_pow2_pos(1074);
            lemma_div_nonneg(self.magnitude(), pow2(1074));
        }
        if self.nan_value() || self.is_negative() {
            return 0;
        }
        let w = self.whole_part();
        if w > 0xFFFF_FFFF {
            u32::MAX
        } else {
            w as u32
        }
    }
}

} // verus!
