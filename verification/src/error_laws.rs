//! How far rounding moves a result, and what it keeps in order.

use crate::double;
use crate::double::{Double, BINADE, SIGN};
use crate::double_laws;
use crate::rounding;
use vstd::arithmetic::div_mod::*;
use vstd::arithmetic::mul::*;
use vstd::arithmetic::power2::*;
use vstd::prelude::*;

verus! {

/// The distance of two integers.
pub open spec fn distance(a: int, b: int) -> int {
    if a < b {
        b - a
    } else {
        a - b
    }
}

proof fn lemma_round_error(num: nat, den: nat)
    requires
        den > 0,
    ensures
        2 * distance((rounding::round_half_even(num, den) * den) as int, num as int) <= den,
{
    let q = num / den;
    let r = num % den;
    lemma_fundamental_div_mod(num as int, den as int);
    let rounded = rounding::round_half_even(num, den);
    assert(q * den == den * q) by (nonlinear_arith);
    assert((q + 1) * den == den * q + den) by (nonlinear_arith);
    assert(rounded == q || rounded == q + 1);
}

/// What a quotient is rounded to, as a significand and a power of two.
proof fn lemma_rounded_magnitude(num: nat, den: nat)
    requires
        den > 0,
        rounding::nearest_pattern(num, den) < rounding::INFINITE,
    ensures
        ({
            let x = rounding::fit(num, den);
            double::pattern_magnitude(rounding::nearest_pattern(num, den))
                == rounding::round_half_even(num, den * pow2(x)) * pow2(x)
        }),
{
    let x = rounding::fit(num, den);
    rounding::lemma_fit_bound(num, den);
    lemma_pow2_pos(x);
    let d = den * pow2(x);
    assert(d > 0) by (nonlinear_arith)
        requires
            den > 0,
            pow2(x) > 0,
            d == den * pow2(x),
    ;
    lemma2_to64();
    lemma2_to64_rest();
    assert(pow2(52) == BINADE);
    lemma_pow2_adds(53, x);
    assert(num < pow2(53) * d) by (nonlinear_arith)
        requires
            num < den * pow2((53 + x) as nat),
            pow2((53 + x) as nat) == pow2(53) * pow2(x),
            d == den * pow2(x),
    ;
    if x > 0 {
        lemma_pow2_adds(52, x);
        assert(num >= pow2(52) * d) by (nonlinear_arith)
            requires
                num >= den * pow2((52 + x) as nat),
                pow2((52 + x) as nat) == pow2(52) * pow2(x),
                d == den * pow2(x),
        ;
        rounding::lemma_round_between(num, d, pow2(52), pow2(53));
    } else {
        assert(0 * d == 0);
        rounding::lemma_round_between(num, d, 0, pow2(53));
    }
    let m = rounding::round_half_even(num, d);
    let pattern = rounding::nearest_pattern(num, den);
    assert(pattern == x * BINADE + m);
    if m == pow2(53) {
        lemma_pow2_unfold(x + 1);
        assert(pattern == (x + 2) * BINADE);
        assert(pattern / (BINADE as nat) == x + 2);
        assert(double::pattern_scale(pattern) == x + 1);
        assert(pattern - (x + 1) * BINADE == BINADE);
        assert(BINADE * pow2(x + 1) == m * pow2(x)) by (nonlinear_arith)
            requires
                pow2(x + 1) == 2 * pow2(x),
                m == 2 * BINADE,
        ;
    } else if m >= BINADE {
        assert(pattern / (BINADE as nat) == x + 1);
        assert(double::pattern_scale(pattern) == x);
        assert(pattern - x * BINADE == m);
    } else {
        assert(x == 0);
        assert(double::pattern_scale(pattern) == 0);
    }
}

/// Rounding moves a quotient by at most half of the last place that it keeps.
pub proof fn lemma_nearest_error(num: nat, den: nat)
    requires
        den > 0,
        rounding::nearest_pattern(num, den) < rounding::INFINITE,
    ensures
        ({
            let m = double::pattern_magnitude(rounding::nearest_pattern(num, den));
            &&& 2 * distance((m * den) as int, num as int) <= den * pow2(rounding::fit(num, den))
            &&& pow2(53) * distance((m * den) as int, num as int) <= num + pow2(52) * den
        }),
{
    lemma_rounded_magnitude(num, den);
    rounding::lemma_fit_bound(num, den);
    let x = rounding::fit(num, den);
    lemma_pow2_pos(x);
    let d = den * pow2(x);
    assert(d > 0) by (nonlinear_arith)
        requires
            den > 0,
            pow2(x) > 0,
            d == den * pow2(x),
    ;
    lemma_round_error(num, d);
    let r = rounding::round_half_even(num, d);
    let m = double::pattern_magnitude(rounding::nearest_pattern(num, den));
    assert(m * den == r * d) by (nonlinear_arith)
        requires
            m == r * pow2(x),
            d == den * pow2(x),
    ;
    lemma2_to64();
    lemma2_to64_rest();
    let e = distance((m * den) as int, num as int);
    assert(pow2(53) * e == pow2(52) * (2 * e)) by (nonlinear_arith)
        requires
            pow2(53) == 2 * pow2(52),
    ;
    assert(pow2(52) * (2 * e) <= pow2(52) * d) by (nonlinear_arith)
        requires
            2 * e <= d,
    ;
    if x > 0 {
        lemma_pow2_adds(52, x);
        assert(pow2(52) * d == den * pow2((52 + x) as nat)) by (nonlinear_arith)
            requires
                pow2((52 + x) as nat) == pow2(52) * pow2(x),
                d == den * pow2(x),
        ;
        assert(pow2(52) * den >= 0) by (nonlinear_arith);
    } else {
        assert(d == den) by (nonlinear_arith)
            requires
                d == den * pow2(x),
                pow2(x) == 1,
        ;
    }
}

/// Two neighbouring numbers lie at least one last place of the larger apart.
pub proof fn lemma_spacing(p: nat, q: nat) -> (j: nat)
    requires
        q < p < rounding::INFINITE,
    ensures
        double::pattern_magnitude(p) <= pow2(53 + j),
        double::pattern_magnitude(p) - double::pattern_magnitude(q) >= pow2(j),
{
    let s = double::pattern_scale(p);
    let m = (p - s * BINADE) as nat;
    double::lemma_pattern_parts(p);
    lemma2_to64();
    lemma2_to64_rest();
    lemma_pow2_pos(s);
    double_laws::lemma_pattern_magnitude_order(q, (p - 1) as nat);
    let before = (p - 1) as nat;
    if s > 0 && m == BINADE {
        let j = (s - 1) as nat;
        lemma_pow2_unfold(s);
        lemma_pow2_adds(53, j);
        lemma_pow2_pos(j);
        if s > 1 {
            assert(before / (BINADE as nat) == s);
        } else {
            assert(p == 2 * BINADE);
            assert(before / (BINADE as nat) == 1);
        }
        assert(double::pattern_scale(before) == j);
        assert(before - j * BINADE == 2 * BINADE - 1);
        assert(m * pow2(s) == pow2(53) * pow2(j)) by (nonlinear_arith)
            requires
                m == BINADE,
                pow2(53) == 2 * BINADE,
                pow2(s) == 2 * pow2(j),
        ;
        assert((2 * BINADE - 1) * pow2(j) == pow2(53) * pow2(j) - pow2(j)) by (nonlinear_arith)
            requires
                pow2(53) == 2 * BINADE,
        ;
        j
    } else {
        lemma_pow2_adds(53, s);
        assert(double::pattern_scale(before) == s) by {
            if s > 0 {
                assert(m > BINADE);
                assert(before / (BINADE as nat) == p / (BINADE as nat));
            }
        }
        assert(before - s * BINADE == m - 1);
        assert((m - 1) * pow2(s) == m * pow2(s) - pow2(s)) by (nonlinear_arith);
        assert(m * pow2(s) <= pow2(53) * pow2(s)) by (nonlinear_arith)
            requires
                m <= pow2(53),
        ;
        s
    }
}

/// Rounding leaves a number as it is.
pub proof fn lemma_representable(p: nat)
    requires
        p <= rounding::INFINITE,
    ensures
        rounding::nearest_pattern(double::pattern_magnitude(p), 1) == p,
{
    let s = double::pattern_scale(p);
    let m = (p - s * BINADE) as nat;
    double::lemma_pattern_parts(p);
    lemma2_to64();
    lemma2_to64_rest();
    assert(pow2(52) == BINADE);
    lemma_pow2_pos(s);
    let num = m * pow2(s);
    assert(num == double::pattern_magnitude(p));
    lemma_pow2_adds(53, s);
    lemma_pow2_adds(52, s);
    assert(num < pow2(53) * pow2(s)) by (nonlinear_arith)
        requires
            num == m * pow2(s),
            m < pow2(53),
            pow2(s) > 0,
    ;
    if s > 0 {
        assert(num >= pow2(52) * pow2(s)) by (nonlinear_arith)
            requires
                num == m * pow2(s),
                m >= pow2(52),
                pow2(s) > 0,
        ;
    }
    rounding::lemma_fit_is(num, 1, s);
    lemma_div_multiples_vanish(m as int, pow2(s) as int);
    lemma_mul_is_commutative(m as int, pow2(s) as int);
    lemma_mod_multiples_basic(m as int, pow2(s) as int);
    assert(1 * pow2(s) == pow2(s));
    assert(num / pow2(s) == m && num % pow2(s) == 0);
    assert(rounding::round_half_even(num, 1 * pow2(s)) == m);
}

/// The next number is one step of the last place away.
pub proof fn lemma_next(p: nat)
    requires
        p < rounding::INFINITE,
    ensures
        double::pattern_magnitude(p + 1) == double::pattern_magnitude(p) + pow2(
            double::pattern_scale(p),
        ),
{
    let s = double::pattern_scale(p);
    let m = (p - s * BINADE) as nat;
    double::lemma_pattern_parts(p);
    if m + 1 == 2 * BINADE {
        assert(p + 1 == (s + 2) * BINADE);
        assert((p + 1) / (BINADE as nat) == s + 2);
        assert(double::pattern_scale(p + 1) == s + 1);
        lemma_pow2_unfold(s + 1);
        assert(BINADE * pow2(s + 1) == m * pow2(s) + pow2(s)) by (nonlinear_arith)
            requires
                pow2(s + 1) == 2 * pow2(s),
                m + 1 == 2 * BINADE,
        ;
    } else {
        assert(double::pattern_scale(p + 1) == s);
        assert((m + 1) * pow2(s) == m * pow2(s) + pow2(s)) by (nonlinear_arith);
    }
}

/// The units of the number nearest to an exact value.
pub open spec fn rounded_units(exact: int) -> int {
    if exact < 0 {
        -(double::pattern_magnitude(rounding::nearest_pattern((-exact) as nat, 1)) as int)
    } else {
        double::pattern_magnitude(rounding::nearest_pattern(exact as nat, 1)) as int
    }
}

/// A larger exact value is not rounded to a smaller number.
pub proof fn lemma_rounded_monotone(a: int, b: int)
    requires
        a <= b,
    ensures
        rounded_units(a) <= rounded_units(b),
{
    if a >= 0 {
        rounding::lemma_nearest_monotone(a as nat, 1, b as nat, 1);
        double_laws::lemma_pattern_magnitude_order(
            rounding::nearest_pattern(a as nat, 1),
            rounding::nearest_pattern(b as nat, 1),
        );
    } else if b < 0 {
        rounding::lemma_nearest_monotone((-b) as nat, 1, (-a) as nat, 1);
        double_laws::lemma_pattern_magnitude_order(
            rounding::nearest_pattern((-b) as nat, 1),
            rounding::nearest_pattern((-a) as nat, 1),
        );
    }
}

pub proof fn lemma_rounded_zero()
    ensures
        rounded_units(0) == 0,
{
    double_laws::lemma_nearest_sign(false, 0, 1);
    double_laws::lemma_nothing_nearest(false, 1);
}

/// The sum of two finite numbers is their exact sum, rounded.
pub proof fn lemma_plus_units(a: Double, b: Double)
    requires
        !a.is_nan(),
        !a.is_infinite(),
        !b.is_nan(),
        !b.is_infinite(),
    ensures
        !a.plus(b).is_nan(),
        a.plus(b).units() == rounded_units(a.units() + b.units()),
{
    reveal(Double::plus);
    let exact = a.units() + b.units();
    lemma_rounded_zero();
    assert(0nat * pow2(0) == 0);
    let negative_zero = Double { bits: SIGN };
    assert(negative_zero.pattern() == 0);
    if exact < 0 {
        double_laws::lemma_nearest_sign(true, (-exact) as nat, 1);
    } else if exact > 0 {
        double_laws::lemma_nearest_sign(false, exact as nat, 1);
    }
}

/// The difference of two finite numbers is their exact difference, rounded.
pub proof fn lemma_minus_units(a: Double, b: Double)
    requires
        !a.is_nan(),
        !a.is_infinite(),
        !b.is_nan(),
        !b.is_infinite(),
    ensures
        !a.minus(b).is_nan(),
        a.minus(b).units() == rounded_units(a.units() - b.units()),
{
    double_laws::lemma_negated(b);
    lemma_plus_units(a, b.negated());
}

/// A product that is a finite number is at most half of its last place away from the exact one.
pub proof fn lemma_times_error(a: Double, b: Double)
    requires
        !a.times(b).is_nan(),
        !a.times(b).is_infinite(),
    ensures
        !a.is_nan(),
        !b.is_nan(),
        pow2(53) * distance(a.times(b).units() * pow2(1074), a.units() * b.units()) <= distance(
            a.units() * b.units(),
            0,
        ) + pow2(52) * pow2(1074),
{
    reveal(Double::times);
    assert(Double::nan().is_nan());
    assert(Double::infinity(true).is_infinite());
    assert(Double::infinity(false).is_infinite());
    let u = pow2(1074);
    let x = a.magnitude() as int;
    let y = b.magnitude() as int;
    let num = a.magnitude() * b.magnitude();
    lemma_pow2_pos(1074);
    double_laws::lemma_nearest_sign(a.negative() != b.negative(), num, u);
    lemma_nearest_error(num, u);
    let m = a.times(b).magnitude() as int;
    assert((-x) * y == -(x * y) && x * (-y) == -(x * y) && (-x) * (-y) == x * y)
        by (nonlinear_arith);
    assert((-m) * u == -(m * u)) by (nonlinear_arith);
    assert(x * y >= 0) by (nonlinear_arith)
        requires
            x >= 0,
            y >= 0,
    ;
}

/// A sum that is a finite number is at most half of its last place away from the exact one.
pub proof fn lemma_plus_error(a: Double, b: Double)
    requires
        !a.is_nan(),
        !a.is_infinite(),
        !b.is_nan(),
        !b.is_infinite(),
        !a.plus(b).is_infinite(),
    ensures
        !a.plus(b).is_nan(),
        pow2(53) * distance(a.plus(b).units(), a.units() + b.units()) <= distance(
            a.units() + b.units(),
            0,
        ) + pow2(52),
{
    lemma_plus_units(a, b);
    lemma_rounded_error(a.plus(b), a.units() + b.units());
}

/// A difference that is a finite number is at most half of its last place away from the exact one.
pub proof fn lemma_minus_error(a: Double, b: Double)
    requires
        !a.is_nan(),
        !a.is_infinite(),
        !b.is_nan(),
        !b.is_infinite(),
        !a.minus(b).is_infinite(),
    ensures
        !a.minus(b).is_nan(),
        pow2(53) * distance(a.minus(b).units(), a.units() - b.units()) <= distance(
            a.units() - b.units(),
            0,
        ) + pow2(52),
{
    lemma_minus_units(a, b);
    lemma_rounded_error(a.minus(b), a.units() - b.units());
}

proof fn lemma_rounded_error(x: Double, exact: int)
    requires
        !x.is_nan(),
        !x.is_infinite(),
        x.units() == rounded_units(exact),
    ensures
        pow2(53) * distance(x.units(), exact) <= distance(exact, 0) + pow2(52),
{
    let n = distance(exact, 0) as nat;
    let p = rounding::nearest_pattern(n, 1);
    let m = double::pattern_magnitude(p);
    assert(m == x.magnitude());
    if p >= rounding::INFINITE {
        double::lemma_pattern_order(x.pattern(), p);
        assert(false);
    }
    lemma_nearest_error(n, 1);
    assert(m * 1 == m);
    assert(pow2(52) * 1 == pow2(52));
    assert(distance(x.units(), exact) == distance(m as int, n as int));
}

/// A quotient that is a finite number is at most half of its last place away from the exact one.
pub proof fn lemma_over_error(a: Double, b: Double)
    requires
        !b.is_infinite(),
        !a.over(b).is_nan(),
        !a.over(b).is_infinite(),
    ensures
        !a.is_nan(),
        !b.is_nan(),
        b.magnitude() > 0,
        pow2(53) * distance(a.over(b).units() * b.units(), a.units() * pow2(1074)) <= distance(
            a.units() * pow2(1074),
            0,
        ) + pow2(52) * b.magnitude(),
{
    reveal(Double::over);
    assert(Double::nan().is_nan());
    assert(Double::infinity(true).is_infinite());
    assert(Double::infinity(false).is_infinite());
    let u = pow2(1074) as int;
    let x = a.magnitude() as int;
    let y = b.magnitude() as int;
    let num = a.magnitude() * pow2(1074);
    lemma_pow2_pos(1074);
    double_laws::lemma_nearest_sign(a.negative() != b.negative(), num, b.magnitude());
    lemma_nearest_error(num, b.magnitude());
    let m = a.over(b).magnitude() as int;
    assert((-m) * y == -(m * y) && m * (-y) == -(m * y) && (-m) * (-y) == m * y)
        by (nonlinear_arith);
    assert((-x) * u == -(x * u)) by (nonlinear_arith);
    assert(x * u >= 0) by (nonlinear_arith)
        requires
            x >= 0,
            u >= 0,
    ;
    assert(m * y >= 0) by (nonlinear_arith)
        requires
            m >= 0,
            y >= 0,
    ;
}

/// A quotient below `2^2000` is not rounded to infinity.
pub proof fn lemma_stays_finite(num: nat, den: nat)
    requires
        den > 0,
        num <= pow2(2000) * den,
    ensures
        rounding::nearest_pattern(num, den) < rounding::INFINITE,
{
    lemma2_to64();
    lemma2_to64_rest();
    lemma_pow2_strictly_increases(2000, 2090);
    lemma_pow2_pos(2000);
    assert(1 * pow2(2000) == pow2(2000));
    double_laws::lemma_exact(1, 2000);
    rounding::lemma_nearest_monotone(num, den, 1 * pow2(2000), 1);
}

/// Two exact values agree to `k` binary places of the second.
pub open spec fn near(x: int, y: int, k: nat) -> bool {
    pow2(k) * distance(x, y) <= distance(y, 0)
}

/// What agrees to some places with a value that agrees to them with a third agrees with the third,
/// but for two places.
pub proof fn lemma_near_chain(x: int, y: int, z: int, k: nat)
    requires
        k >= 2,
        near(x, y, k),
        near(y, z, k),
    ensures
        near(x, z, (k - 2) as nat),
{
    let small = pow2((k - 2) as nat);
    let d = distance(x, y);
    let e = distance(y, z);
    let f = distance(x, z);
    let a = distance(y, 0);
    let b = distance(z, 0);
    lemma_pow2_adds(2, (k - 2) as nat);
    lemma2_to64();
    lemma_pow2_pos((k - 2) as nat);
    assert(f <= d + e);
    assert(a <= b + e);
    assert(4 * (small * d) <= a) by (nonlinear_arith)
        requires
            pow2(k) * d <= a,
            pow2(k) == 4 * small,
    ;
    assert(4 * (small * e) <= b) by (nonlinear_arith)
        requires
            pow2(k) * e <= b,
            pow2(k) == 4 * small,
    ;
    assert(small * e >= e) by (nonlinear_arith)
        requires
            small >= 1,
            e >= 0,
    ;
    assert(small * f <= small * d + small * e) by (nonlinear_arith)
        requires
            f <= d + e,
            small >= 1,
    ;
}

/// Agreement outlives a factor.
pub proof fn lemma_near_scaled(x: int, y: int, c: int, k: nat)
    requires
        near(x, y, k),
    ensures
        near(x * c, y * c, k),
{
    lemma_scaled_distance(x, y, c);
    lemma_scaled_distance(y, 0, c);
    let d = distance(x, y);
    let a = distance(y, 0);
    let m = distance(c, 0);
    assert(0 * c == 0);
    assert(pow2(k) * (d * m) <= a * m) by (nonlinear_arith)
        requires
            pow2(k) * d <= a,
            m >= 0,
    ;
}

/// Fewer places agree where more do.
pub proof fn lemma_near_weaker(x: int, y: int, k: nat, j: nat)
    requires
        near(x, y, k),
        j <= k,
    ensures
        near(x, y, j),
{
    if j < k {
        lemma_pow2_strictly_increases(j, k);
    }
    assert(pow2(j) * distance(x, y) <= pow2(k) * distance(x, y)) by (nonlinear_arith)
        requires
            pow2(j) <= pow2(k),
            distance(x, y) >= 0,
    ;
}

pub proof fn lemma_scaled_distance(x: int, y: int, k: int)
    ensures
        distance(x * k, y * k) == distance(x, y) * distance(k, 0),
{
    lemma_mul_is_distributive_sub(k, x, y);
    lemma_mul_is_commutative(k, x);
    lemma_mul_is_commutative(k, y);
    lemma_mul_is_commutative(k, x - y);
    let d = x - y;
    assert(d * k == x * k - y * k);
    assert((-d) * (-k) == d * k && (-d) * k == -(d * k) && d * (-k) == -(d * k))
        by (nonlinear_arith);
    assert(d >= 0 && k >= 0 ==> d * k >= 0) by (nonlinear_arith);
    assert(d >= 0 && k < 0 ==> d * k <= 0) by (nonlinear_arith);
    assert(d < 0 && k >= 0 ==> d * k <= 0) by (nonlinear_arith);
    assert(d < 0 && k < 0 ==> d * k >= 0) by (nonlinear_arith);
}

/// A product of two numbers that is neither too small nor too large agrees with the exact one to
/// 52 places.
pub proof fn lemma_times_near(a: Double, b: Double)
    requires
        !a.times(b).is_nan(),
        !a.times(b).is_infinite(),
        pow2(52) * pow2(1074) <= distance(a.units() * b.units(), 0),
    ensures
        near(a.times(b).units() * pow2(1074), a.units() * b.units(), 52),
{
    lemma_times_error(a, b);
    lemma_halved(
        distance(a.times(b).units() * pow2(1074), a.units() * b.units()),
        distance(a.units() * b.units(), 0),
        (pow2(52) * pow2(1074)) as int,
    );
}

/// A quotient of two numbers that is neither too small nor too large agrees with the exact one to
/// 52 places.
pub proof fn lemma_over_near(a: Double, b: Double)
    requires
        !b.is_infinite(),
        !a.over(b).is_nan(),
        !a.over(b).is_infinite(),
        pow2(52) * b.magnitude() <= distance(a.units() * pow2(1074), 0),
    ensures
        near(a.over(b).units() * b.units(), a.units() * pow2(1074), 52),
{
    lemma_over_error(a, b);
    lemma_halved(
        distance(a.over(b).units() * b.units(), a.units() * pow2(1074)),
        distance(a.units() * pow2(1074), 0),
        (pow2(52) * b.magnitude()) as int,
    );
}

proof fn lemma_halved(d: int, n: int, slack: int)
    requires
        pow2(53) * d <= n + slack,
        slack <= n,
    ensures
        pow2(52) * d <= n,
{
    lemma2_to64();
    lemma2_to64_rest();
    assert(pow2(53) == 2 * pow2(52));
    assert(pow2(53) * d == 2 * (pow2(52) * d)) by (nonlinear_arith)
        requires
            pow2(53) == 2 * pow2(52),
    ;
}

/// Agreement does not need a common factor.
pub proof fn lemma_near_unscaled(x: int, y: int, c: int, k: nat)
    requires
        c > 0,
        near(x * c, y * c, k),
    ensures
        near(x, y, k),
{
    lemma_scaled_distance(x, y, c);
    lemma_scaled_distance(y, 0, c);
    assert(0 * c == 0);
    let d = distance(x, y);
    let a = distance(y, 0);
    assert(pow2(k) * d <= a) by (nonlinear_arith)
        requires
            pow2(k) * (d * c) <= a * c,
            c > 0,
    ;
}

/// A positive number between `2^-100` and `2^100`, with which no result gets too small or too large
/// to be rounded well.
pub open spec fn moderate(x: Double) -> bool {
    &&& !x.is_nan()
    &&& !x.negative()
    &&& pow2(974) <= x.magnitude() <= pow2(1174)
}

/// A quotient of naturals as a number.
pub proof fn lemma_ratio_near(num: nat, den: nat)
    requires
        0 < num < pow2(53),
        0 < den < pow2(53),
    ensures
        !Double::ratio_of(num as int, den).is_nan(),
        !Double::ratio_of(num as int, den).is_infinite(),
        !Double::ratio_of(num as int, den).negative(),
        near(Double::ratio_of(num as int, den).units() * den, (num * pow2(1074)) as int, 52),
{
    let u = pow2(1074);
    let n = num * u;
    let r = Double::ratio_of(num as int, den);
    lemma_pow2_pos(1074);
    lemma_pow2_adds(53, 1074);
    lemma_pow2_strictly_increases(1127, 2000);
    assert(n <= pow2(2000) * den) by (nonlinear_arith)
        requires
            n == num * u,
            num < pow2(53),
            pow2(53) * u == pow2(1127),
            pow2(1127) < pow2(2000),
            den >= 1,
    ;
    lemma_stays_finite(n, den);
    double_laws::lemma_nearest_sign(false, n, den);
    lemma_nearest_error(n, den);
    lemma_pow2_adds(52, 53);
    lemma_pow2_strictly_increases(105, 1074);
    assert(pow2(52) * den <= n) by (nonlinear_arith)
        requires
            den < pow2(53),
            pow2(52) * pow2(53) == pow2(105),
            pow2(105) < u,
            n == num * u,
            num >= 1,
    ;
    let m = r.magnitude() as int;
    lemma_halved(distance(m * den, n as int), n as int, (pow2(52) * den) as int);
}

/// A product of numbers of moderate size, of which the first may be smaller.
pub proof fn lemma_times_loose(a: Double, b: Double)
    requires
        !a.is_nan(),
        !b.is_nan(),
        !a.negative(),
        !b.negative(),
        pow2(800) <= a.magnitude() <= pow2(1400),
        pow2(900) <= b.magnitude() <= pow2(1400),
    ensures
        !a.times(b).is_nan(),
        !a.times(b).is_infinite(),
        !a.times(b).negative(),
        near(a.times(b).units() * pow2(1074), a.units() * b.units(), 52),
{
    let u = pow2(1074);
    let x = a.magnitude();
    let y = b.magnitude();
    lemma_pow2_pos(1074);
    lemma_finite_below(a, 1400);
    lemma_finite_below(b, 1400);
    lemma_pow2_adds(1400, 1400);
    lemma_pow2_adds(2000, 1074);
    lemma_pow2_strictly_increases(2800, 3074);
    assert(x * y <= pow2(2000) * u) by (nonlinear_arith)
        requires
            x <= pow2(1400),
            y <= pow2(1400),
            pow2(1400) * pow2(1400) == pow2(2800),
            pow2(2000) * u == pow2(3074),
            pow2(2800) < pow2(3074),
    ;
    lemma_stays_finite(x * y, u);
    double_laws::lemma_nearest_sign(false, x * y, u);
    assert(!a.times(b).is_nan() && !a.times(b).is_infinite() && !a.times(b).negative()) by {
        reveal(Double::times);
    }
    lemma_pow2_adds(800, 900);
    lemma_pow2_adds(52, 1074);
    lemma_pow2_strictly_increases(1126, 1700);
    assert(x * y >= pow2(52) * u) by (nonlinear_arith)
        requires
            x >= pow2(800),
            y >= pow2(900),
            pow2(800) * pow2(900) == pow2(1700),
            pow2(52) * u == pow2(1126),
            pow2(1126) < pow2(1700),
    ;
    lemma_times_near(a, b);
}

/// A product of moderate numbers.
pub proof fn lemma_times_moderate(a: Double, b: Double)
    requires
        !a.is_nan(),
        !b.is_nan(),
        !a.negative(),
        !b.negative(),
        pow2(900) <= a.magnitude() <= pow2(1400),
        pow2(900) <= b.magnitude() <= pow2(1400),
    ensures
        !a.times(b).is_nan(),
        !a.times(b).is_infinite(),
        !a.times(b).negative(),
        near(a.times(b).units() * pow2(1074), a.units() * b.units(), 52),
{
    lemma_pow2_strictly_increases(800, 900);
    lemma_times_loose(a, b);
}

/// A quotient of numbers of moderate size.
pub proof fn lemma_over_moderate(a: Double, b: Double)
    requires
        !a.is_nan(),
        !b.is_nan(),
        !a.negative(),
        !b.negative(),
        pow2(800) <= a.magnitude() <= pow2(1400),
        pow2(900) <= b.magnitude() <= pow2(1400),
    ensures
        !a.over(b).is_nan(),
        !a.over(b).is_infinite(),
        !a.over(b).negative(),
        near(a.over(b).units() * b.units(), a.units() * pow2(1074), 52),
{
    let u = pow2(1074);
    let x = a.magnitude();
    let y = b.magnitude();
    lemma_pow2_pos(1074);
    lemma_pow2_pos(900);
    lemma_finite_below(a, 1400);
    lemma_finite_below(b, 1400);
    lemma_pow2_adds(1400, 1074);
    lemma_pow2_adds(2000, 900);
    lemma_pow2_strictly_increases(2474, 2900);
    assert(x * u <= pow2(2000) * y) by (nonlinear_arith)
        requires
            x <= pow2(1400),
            y >= pow2(900),
            pow2(1400) * u == pow2(2474),
            pow2(2000) * pow2(900) == pow2(2900),
            pow2(2474) < pow2(2900),
            u > 0,
    ;
    lemma_stays_finite(x * u, y);
    double_laws::lemma_nearest_sign(false, x * u, y);
    assert(!a.over(b).is_nan() && !a.over(b).is_infinite() && !a.over(b).negative()) by {
        reveal(Double::over);
    }
    lemma_pow2_adds(800, 1074);
    lemma_pow2_adds(52, 1400);
    lemma_pow2_strictly_increases(1452, 1874);
    assert(x * u >= pow2(52) * y) by (nonlinear_arith)
        requires
            x >= pow2(800),
            y <= pow2(1400),
            pow2(800) * u == pow2(1874),
            pow2(52) * pow2(1400) == pow2(1452),
            pow2(1452) < pow2(1874),
            u > 0,
    ;
    lemma_over_near(a, b);
}

/// A number of bounded size is finite.
pub proof fn lemma_finite_below(a: Double, k: nat)
    requires
        !a.is_nan(),
        a.magnitude() <= pow2(k),
        k < 2090,
    ensures
        !a.is_infinite(),
{
    if a.is_infinite() {
        lemma2_to64();
        lemma2_to64_rest();
        lemma_pow2_adds(52, 2046);
        lemma_pow2_strictly_increases(k, 2098);
        let pattern = rounding::INFINITE as nat;
        assert(pattern / (BINADE as nat) == 2047);
        assert(double::pattern_scale(pattern) == 2046);
        assert(pattern - 2046 * BINADE == BINADE);
    }
}

/// A number of at most `2^k` units, whatever its sign.
pub open spec fn within(x: Double, k: nat) -> bool {
    !x.is_nan() && x.magnitude() <= pow2(k)
}

proof fn lemma_power_is_kept(k: nat)
    requires
        k < 2090,
    ensures
        rounded_units(pow2(k) as int) == pow2(k),
        rounded_units(-(pow2(k) as int)) == -(pow2(k) as int),
{
    lemma2_to64();
    lemma2_to64_rest();
    lemma_pow2_pos(k);
    lemma_pow2_strictly_increases(k, 2090);
    assert(1 * pow2(k) == pow2(k));
    double_laws::lemma_exact(1, k);
}

/// A sum of numbers of bounded size.
pub proof fn lemma_plus_within(a: Double, b: Double, k: nat)
    requires
        k < 2080,
        within(a, k),
        within(b, k),
    ensures
        within(a.plus(b), k + 1),
        !a.plus(b).is_infinite(),
        pow2(53) * distance(a.plus(b).units(), a.units() + b.units()) <= distance(a.units(), 0)
            + distance(b.units(), 0) + pow2(52),
{
    lemma_finite_below(a, k);
    lemma_finite_below(b, k);
    lemma_plus_units(a, b);
    lemma_pow2_unfold(k + 1);
    lemma_power_is_kept(k + 1);
    lemma_rounded_monotone(a.units() + b.units(), pow2(k + 1) as int);
    lemma_rounded_monotone(-(pow2(k + 1) as int), a.units() + b.units());
    lemma_finite_below(a.plus(b), k + 1);
    lemma_plus_error(a, b);
}

/// A difference of numbers of bounded size.
pub proof fn lemma_minus_within(a: Double, b: Double, k: nat)
    requires
        k < 2080,
        within(a, k),
        within(b, k),
    ensures
        within(a.minus(b), k + 1),
        !a.minus(b).is_infinite(),
        pow2(53) * distance(a.minus(b).units(), a.units() - b.units()) <= distance(a.units(), 0)
            + distance(b.units(), 0) + pow2(52),
{
    double_laws::lemma_negated(b);
    lemma_plus_within(a, b.negated(), k);
}

/// The way by a third point is no shorter.
pub proof fn lemma_triangle(x: int, y: int, z: int)
    ensures
        distance(x, z) <= distance(x, y) + distance(y, z),
        distance(x, y) == distance(y, x),
        distance(x, y) >= 0,
{
}

/// A common term does not change a distance.
pub proof fn lemma_distance_shift(x: int, y: int, c: int)
    ensures
        distance(x + c, y + c) == distance(x, y),
        distance(x - c, y - c) == distance(x, y),
        distance(c - x, c - y) == distance(x, y),
{
}

/// A sum is no larger than its terms together.
pub proof fn lemma_size_of_sum(x: int, y: int)
    ensures
        distance(x + y, 0) <= distance(x, 0) + distance(y, 0),
        distance(x - y, 0) <= distance(x, 0) + distance(y, 0),
{
}

/// A larger number does not give a smaller quotient by a positive one.
pub proof fn lemma_over_monotone(a: Double, b: Double, c: Double)
    requires
        a.at_most(b),
        !a.is_infinite(),
        !b.is_infinite(),
        !c.is_nan(),
        !c.is_infinite(),
        c.units() > 0,
    ensures
        a.over(c).at_most(b.over(c)),
{
    reveal(Double::over);
    let u = pow2(1074);
    lemma_pow2_pos(1074);
    let den = c.magnitude();
    let x = a.magnitude() * u;
    let y = b.magnitude() * u;
    double_laws::lemma_nearest_sign(a.negative(), x, den);
    double_laws::lemma_nearest_sign(b.negative(), y, den);
    double_laws::lemma_nothing_nearest(false, den);
    double_laws::lemma_nothing_nearest(true, den);
    assert(0nat * pow2(0) == 0);
    assert(0nat * u == 0);
    if a.magnitude() <= b.magnitude() {
        assert(x * den <= y * den) by (nonlinear_arith)
            requires
                a.magnitude() <= b.magnitude(),
                x == a.magnitude() * u,
                y == b.magnitude() * u,
        ;
        rounding::lemma_nearest_monotone(x, den, y, den);
        double_laws::lemma_pattern_magnitude_order(
            rounding::nearest_pattern(x, den),
            rounding::nearest_pattern(y, den),
        );
    }
    if b.magnitude() <= a.magnitude() {
        assert(y * den <= x * den) by (nonlinear_arith)
            requires
                b.magnitude() <= a.magnitude(),
                x == a.magnitude() * u,
                y == b.magnitude() * u,
        ;
        rounding::lemma_nearest_monotone(y, den, x, den);
        double_laws::lemma_pattern_magnitude_order(
            rounding::nearest_pattern(y, den),
            rounding::nearest_pattern(x, den),
        );
    }
}

/// A positive number over itself is one.
pub proof fn lemma_over_itself(c: Double)
    requires
        !c.is_nan(),
        !c.is_infinite(),
        c.units() > 0,
    ensures
        c.over(c).units() == pow2(1074),
        !c.over(c).is_nan(),
        !c.over(c).is_infinite(),
        !c.over(c).negative(),
{
    reveal(Double::over);
    lemma2_to64();
    lemma2_to64_rest();
    lemma_pow2_pos(1074);
    let u = pow2(1074);
    let m = c.magnitude();
    double_laws::lemma_nearest_sign(false, m * u, m);
    assert((m * u) * 1 == u * m) by (nonlinear_arith);
    rounding::lemma_nearest_same_value(m * u, m, u, 1);
    double_laws::small_naturals_are_exact(1);
    lemma_representable(Double::of(1).pattern());
}

/// One does not change a product.
pub proof fn lemma_times_one(a: Double, one: Double)
    requires
        !a.is_nan(),
        !a.is_infinite(),
        !one.is_nan(),
        !one.is_infinite(),
        one.units() == pow2(1074),
    ensures
        a.times(one).units() == a.units(),
        !a.times(one).is_nan(),
{
    reveal(Double::times);
    lemma_pow2_pos(1074);
    let u = pow2(1074);
    let m = a.magnitude();
    double_laws::lemma_nearest_sign(a.negative(), m * u, u);
    assert((m * u) * 1 == m * u);
    rounding::lemma_nearest_same_value(m * u, u, m, 1);
    lemma_representable(a.pattern());
}

/// The exact sum of the first `n` numbers.
pub open spec fn exact_total(s: Seq<Double>, n: nat) -> int
    decreases n,
{
    if n == 0 {
        0
    } else {
        exact_total(s, (n - 1) as nat) + s[n - 1].units()
    }
}

/// The sizes of the first `n` numbers together.
pub open spec fn total_size(s: Seq<Double>, n: nat) -> int
    decreases n,
{
    if n == 0 {
        0
    } else {
        total_size(s, (n - 1) as nat) + distance(s[n - 1].units(), 0)
    }
}

/// The first `n` numbers, added up one by one from zero.
pub open spec fn running(s: Seq<Double>, n: nat) -> Double
    decreases n,
{
    if n == 0 {
        Double::zero()
    } else {
        running(s, (n - 1) as nat).plus(s[n - 1])
    }
}

/// A sum of up to a hundred numbers is as far from the exact one as its roundings are together.
pub proof fn lemma_running_error(s: Seq<Double>, n: nat, k: nat)
    requires
        n <= s.len(),
        n <= 100,
        k <= 1400,
        forall|i: int| 0 <= i < n ==> within(#[trigger] s[i], k),
    ensures
        within(running(s, n), k + n),
        total_size(s, n) >= 0,
        distance(exact_total(s, n), 0) <= total_size(s, n),
        pow2(50) * distance(running(s, n).units(), exact_total(s, n)) <= n * (total_size(s, n)
            + pow2(52)),
    decreases n,
{
    lemma2_to64();
    lemma2_to64_rest();
    assert(pow2(50) == 0x4_0000_0000_0000);
    assert(pow2(52) == 0x10_0000_0000_0000);
    assert(pow2(53) == 0x20_0000_0000_0000);
    if n == 0 {
        assert(0nat * pow2(0) == 0);
        assert(0 * (total_size(s, 0) + pow2(52)) == 0) by (nonlinear_arith);
    } else {
        let m = (n - 1) as nat;
        lemma_running_error(s, m, k);
        let before = running(s, m);
        let x = s[n - 1];
        if k < k + m {
            lemma_pow2_strictly_increases(k, k + m);
        }
        assert(within(x, k + m));
        lemma_plus_within(before, x, k + m);
        let size = distance(x.units(), 0);
        let t = total_size(s, m);
        let e = distance(before.units(), exact_total(s, m));
        let d = distance(before.plus(x).units(), before.units() + x.units());
        let f = distance(running(s, n).units(), exact_total(s, n));
        lemma_triangle(before.plus(x).units(), before.units() + x.units(), exact_total(s, n));
        lemma_distance_shift(before.units(), exact_total(s, m), x.units());
        lemma_triangle(before.units(), exact_total(s, m), 0);
        lemma_size_of_sum(exact_total(s, m), x.units());
        lemma_triangle(x.units(), 0, 0);
        lemma_running_step(m as int, t, size, e, d, f, distance(before.units(), 0));
    }
}

proof fn lemma_running_step(m: int, t: int, size: int, e: int, d: int, f: int, b: int)
    requires
        0 <= m < 100,
        t >= 0,
        size >= 0,
        e >= 0,
        f <= d + e,
        b <= t + e,
        0x4_0000_0000_0000 * e <= m * (t + 0x10_0000_0000_0000),
        0x20_0000_0000_0000 * d <= b + size + 0x10_0000_0000_0000,
    ensures
        0x4_0000_0000_0000 * f <= (m + 1) * (t + size + 0x10_0000_0000_0000),
{
    let w = t + 0x10_0000_0000_0000;
    let all = t + size + 0x10_0000_0000_0000;
    assert(m * w <= 100 * w) by (nonlinear_arith)
        requires
            0 <= m < 100,
            w >= 0,
    ;
    assert(m * w <= m * all) by (nonlinear_arith)
        requires
            0 <= m,
            w <= all,
    ;
    assert((m + 1) * all == m * all + all) by (nonlinear_arith);
    assert(e <= w);
}

} // verus!
