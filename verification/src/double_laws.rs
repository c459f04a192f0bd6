//! Laws of the arithmetic.

use crate::double;
use crate::double::{Double, BINADE, SIGN};
use crate::rounding;
use vstd::arithmetic::div_mod::*;
use vstd::arithmetic::mul::*;
use vstd::arithmetic::power2::*;
use vstd::prelude::*;

verus! {

proof fn lemma_same_bits(a: Double, b: Double)
    requires
        a.negative() == b.negative(),
        a.pattern() == b.pattern(),
    ensures
        a == b,
{
}

/// Addition is commutative.
pub proof fn addition_commutes(a: Double, b: Double)
    ensures
        a.plus(b) == b.plus(a),
{
    reveal(Double::plus);
    if a.is_infinite() && b.is_infinite() && a.negative() == b.negative() {
        lemma_same_bits(a, b);
    }
}

/// Multiplication is commutative.
pub proof fn multiplication_commutes(a: Double, b: Double)
    ensures
        a.times(b) == b.times(a),
{
    reveal(Double::times);
    lemma_mul_is_commutative(a.magnitude() as int, b.magnitude() as int);
}

pub proof fn lemma_negated(a: Double)
    ensures
        a.negated().pattern() == a.pattern(),
        a.negated().negative() == !a.negative(),
        a.negated().units() == -a.units(),
        a.negated().is_nan() == a.is_nan(),
        a.negated().is_infinite() == a.is_infinite(),
{
}

/// A number less itself is zero, or NaN where it is not finite.
pub proof fn nothing_is_left_of_itself(a: Double)
    ensures
        a.minus(a) == (if a.is_nan() || a.is_infinite() {
            Double::nan()
        } else {
            Double::zero()
        }),
{
    reveal(Double::plus);
    lemma_negated(a);
}

pub proof fn lemma_nearest_sign(negative: bool, num: nat, den: nat)
    ensures
        Double::nearest(negative, num, den).negative() == negative,
        Double::nearest(negative, num, den).pattern() == rounding::nearest_pattern(num, den),
        !Double::nearest(negative, num, den).is_nan(),
{
    reveal(Double::nearest);
    let pattern = rounding::nearest_pattern(num, den);
    assert(0 <= pattern <= rounding::INFINITE);
}

/// What is taken from something at least as large never leaves less than zero.
pub proof fn taking_no_more_leaves_no_less_than_zero(a: Double, b: Double)
    requires
        a.at_most(b),
    ensures
        !b.minus(a).below(Double::zero()),
{
    reveal(Double::plus);
    lemma_negated(a);
    let exact = b.units() - a.units();
    lemma_nearest_sign(false, exact as nat, 1);
    assert(Double::zero().units() == 0) by {
        assert(0nat * pow2(0) == 0);
    }
    if b.is_infinite() && b.negative() && !a.is_infinite() {
        double::lemma_pattern_order(a.pattern(), b.pattern());
    }
    if a.is_infinite() && !a.negative() && !b.is_infinite() {
        double::lemma_pattern_order(b.pattern(), a.pattern());
    }
    let negative_zero = Double { bits: SIGN };
    assert(negative_zero.pattern() == 0);
    assert(negative_zero.units() == 0) by {
        assert(0nat * pow2(0) == 0);
    }
}

/// A row of up to 53 binary digits, moved up by any number of places, is a number of its own:
/// rounding leaves it as it is.
pub proof fn lemma_exact(m: nat, k: nat)
    requires
        0 < m < pow2(53),
        m * pow2(k) < pow2(2090),
    ensures
        rounding::nearest_pattern(m * pow2(k), 1) < rounding::INFINITE,
        double::pattern_magnitude(rounding::nearest_pattern(m * pow2(k), 1)) == m * pow2(k),
    decreases pow2(53) - m,
{
    lemma_pow2_pos(k);
    lemma2_to64();
    lemma2_to64_rest();
    assert(pow2(52) == BINADE);
    if m < pow2(52) && k > 0 {
        lemma_pow2_unfold(k);
        assert(m * pow2(k) == (2 * m) * pow2((k - 1) as nat)) by (nonlinear_arith)
            requires
                pow2(k) == 2 * pow2((k - 1) as nat),
        ;
        lemma_exact(2 * m, (k - 1) as nat);
    } else {
        let num = m * pow2(k);
        lemma_pow2_adds(53, k);
        lemma_pow2_adds(52, k);
        assert(num < pow2(53) * pow2(k)) by (nonlinear_arith)
            requires
                num == m * pow2(k),
                m < pow2(53),
                pow2(k) > 0,
        ;
        if k > 0 {
            assert(num >= pow2(52) * pow2(k)) by (nonlinear_arith)
                requires
                    num == m * pow2(k),
                    m >= pow2(52),
                    pow2(k) > 0,
            ;
        }
        rounding::lemma_fit_is(num, 1, k);
        assert(rounding::fit(num, 1) == k);
        lemma_div_multiples_vanish(m as int, pow2(k) as int);
        lemma_mul_is_commutative(m as int, pow2(k) as int);
        lemma_mod_multiples_basic(m as int, pow2(k) as int);
        assert(1 * pow2(k) == pow2(k));
        assert(num / pow2(k) == m && num % pow2(k) == 0);
        assert(rounding::round_half_even(num, 1 * pow2(k)) == m);
        assert(k < 2039) by {
            if k >= 2039 {
                if k > 2039 {
                    lemma_pow2_strictly_increases(2039, k);
                }
                lemma_pow2_adds(52, 2039);
                lemma_pow2_strictly_increases(2090, 2091);
                assert(num >= pow2(52) * pow2(2039)) by (nonlinear_arith)
                    requires
                        num >= pow2(52) * pow2(k),
                        pow2(k) >= pow2(2039),
                ;
            }
        }
        let pattern = (k * BINADE + m) as nat;
        assert(rounding::nearest_pattern(num, 1) == pattern);
        if k > 0 {
            lemma_div_of(k, m);
            assert(double::pattern_scale(pattern) == k);
        } else {
            assert(m < 2 * BINADE);
            assert(double::pattern_scale(pattern) == 0);
        }
        assert(pattern - k * BINADE == m);
    }
}

proof fn lemma_div_of(k: nat, m: nat)
    requires
        BINADE <= m < 2 * BINADE,
    ensures
        ((k * BINADE + m) as nat) / (BINADE as nat) == k + 1,
        (k * BINADE + m) as nat >= BINADE,
{
}

/// An integer of up to 53 binary digits, moved up by any number of places, has a number of its own
/// and is read back from it.
pub proof fn integers_are_kept(m: int, k: nat)
    requires
        -pow2(53) < m < pow2(53),
        -pow2(64) < m * pow2(k) < pow2(64),
    ensures
        Double::of(m * pow2(k)).truncated() == m * pow2(k),
{
    let n = m * pow2(k);
    let size = (if m < 0 {
        -m
    } else {
        m
    }) as nat;
    lemma_pow2_pos(k);
    lemma_pow2_pos(1074);
    let count = (if n < 0 {
        -n
    } else {
        n
    }) as nat;
    assert(count == size * pow2(k)) by (nonlinear_arith)
        requires
            n == m * pow2(k),
            pow2(k) > 0,
            size == (if m < 0 { -m } else { m }),
            count == (if n < 0 { -n } else { n }),
    ;
    let num = count * pow2(1074);
    let number = Double::of(n);
    lemma_nearest_sign(n < 0, num, 1);
    if size == 0 {
        assert(count == 0);
        assert(num == 0) by (nonlinear_arith)
            requires
                num == count * pow2(1074),
                count == 0,
        ;
        assert(rounding::fit(0, 1) == 0) by {
            lemma_pow2_pos(53);
            assert(0 < 1 * pow2(53));
        }
        lemma2_to64();
        assert(rounding::nearest_pattern(0, 1) == 0) by {
            assert(1 * pow2(0) == 1);
        }
        assert(number.magnitude() == 0) by {
            assert(0nat * pow2(0) == 0);
        }
        assert(0nat / pow2(1074) == 0) by {
            lemma_div_basics(pow2(1074) as int);
        }
    } else {
        lemma_pow2_adds(k, 1074);
        assert(num == size * pow2((k + 1074) as nat)) by (nonlinear_arith)
            requires
                num == count * pow2(1074),
                count == size * pow2(k),
                pow2((k + 1074) as nat) == pow2(k) * pow2(1074),
        ;
        assert(num < pow2(2090)) by {
            lemma_pow2_adds(64, 1074);
            lemma_pow2_strictly_increases(1138, 2090);
            assert(count * pow2(1074) < pow2(64) * pow2(1074)) by (nonlinear_arith)
                requires
                    count < pow2(64),
                    pow2(1074) > 0,
            ;
        }
        lemma_exact(size, (k + 1074) as nat);
        assert(number.magnitude() == num);
        lemma_div_multiples_vanish(count as int, pow2(1074) as int);
        lemma_mul_is_commutative(count as int, pow2(1074) as int);
        assert(num / pow2(1074) == count);
    }
}

/// A quotient of natural numbers is neither NaN nor less than zero.
pub proof fn ratios_of_positives_are_not_negative(num: nat, den: nat)
    ensures
        !Double::ratio_of(num as int, den).is_nan(),
        Double::ratio_of(num as int, den).units() >= 0,
{
    lemma_nearest_sign(false, num * pow2(1074), den);
}

/// Not less than zero: NaN, a zero of either sign, or above zero.
pub open spec fn not_negative(x: Double) -> bool {
    !x.below(Double::zero())
}

proof fn lemma_zero_units()
    ensures
        Double::zero().units() == 0,
        double::pattern_magnitude(0) == 0,
        !Double::zero().is_nan(),
{
    assert(0nat * pow2(0) == 0);
}

proof fn lemma_units_zero(x: Double)
    requires
        !x.is_nan(),
    ensures
        (x.magnitude() == 0) == (x.pattern() == 0),
{
    lemma_zero_units();
    if x.pattern() > 0 {
        double::lemma_pattern_order(0, x.pattern());
    }
}

proof fn lemma_not_negative(x: Double)
    ensures
        not_negative(x) == (x.is_nan() || !x.negative() || x.magnitude() == 0),
{
    lemma_zero_units();
}

/// The sum of numbers that are not less than zero is not less than zero.
pub proof fn sums_stay_up(a: Double, b: Double)
    requires
        not_negative(a),
        not_negative(b),
    ensures
        not_negative(a.plus(b)),
{
    reveal(Double::plus);
    lemma_not_negative(a);
    lemma_not_negative(b);
    lemma_zero_units();
    let exact = a.units() + b.units();
    if !a.is_nan() && !b.is_nan() {
        lemma_nearest_sign(false, exact as nat, 1);
        let negative_zero = Double { bits: SIGN };
        assert(negative_zero.pattern() == 0);
        if a.is_infinite() {
            lemma_units_zero(a);
        }
        if b.is_infinite() {
            lemma_units_zero(b);
        }
    }
}

pub proof fn lemma_nothing_nearest(negative: bool, den: nat)
    requires
        den > 0,
    ensures
        Double::nearest(negative, 0, den).magnitude() == 0,
{
    lemma_nearest_sign(negative, 0, den);
    lemma_pow2_pos(53);
    assert(0 < den * pow2(53)) by (nonlinear_arith)
        requires
            den > 0,
            pow2(53) > 0,
    ;
    assert(rounding::fit(0, den) == 0);
    lemma2_to64();
    assert(den * pow2(0) == den) by (nonlinear_arith)
        requires
            pow2(0) == 1,
    ;
    lemma_div_basics(den as int);
    assert(0nat / den == 0 && 0nat % den == 0);
    lemma_zero_units();
}

/// The product of numbers that are not less than zero is not less than zero.
pub proof fn products_stay_up(a: Double, b: Double)
    requires
        not_negative(a),
        not_negative(b),
    ensures
        not_negative(a.times(b)),
{
    reveal(Double::times);
    lemma_not_negative(a);
    lemma_not_negative(b);
    lemma_not_negative(a.times(b));
    lemma_pow2_pos(1074);
    if !a.is_nan() && !b.is_nan() && !a.is_infinite() && !b.is_infinite() {
        let negative = a.negative() != b.negative();
        lemma_nearest_sign(negative, a.magnitude() * b.magnitude(), pow2(1074));
        if negative {
            assert(a.magnitude() * b.magnitude() == 0) by (nonlinear_arith)
                requires
                    a.magnitude() == 0 || b.magnitude() == 0,
            ;
            lemma_nothing_nearest(negative, pow2(1074));
        }
    }
}

/// The quotient of numbers that are not less than zero, the second not zero, is not less than zero.
pub proof fn quotients_stay_up(a: Double, b: Double)
    requires
        not_negative(a),
        not_negative(b),
        !b.equals(Double::zero()),
    ensures
        not_negative(a.over(b)),
{
    reveal(Double::over);
    lemma_not_negative(a);
    lemma_not_negative(b);
    lemma_not_negative(a.over(b));
    lemma_zero_units();
    if !a.is_nan() && !b.is_nan() {
        let negative = a.negative() != b.negative();
        lemma_nearest_sign(negative, 0, 1);
        lemma_nothing_nearest(negative, 1);
        if b.magnitude() > 0 {
            lemma_nearest_sign(negative, a.magnitude() * pow2(1074), b.magnitude());
            if negative {
                assert(a.magnitude() * pow2(1074) == 0) by (nonlinear_arith)
                    requires
                        a.magnitude() == 0,
                ;
                lemma_nothing_nearest(negative, b.magnitude());
            }
        }
    }
}

/// A natural number of up to 53 binary digits keeps its value.
pub proof fn small_naturals_are_exact(n: nat)
    requires
        n < pow2(53),
    ensures
        !Double::of(n as int).is_nan(),
        !Double::of(n as int).is_infinite(),
        !Double::of(n as int).negative(),
        Double::of(n as int).magnitude() == n * pow2(1074),
{
    let num = n * pow2(1074);
    lemma_nearest_sign(false, num, 1);
    if n == 0 {
        assert(num == 0) by (nonlinear_arith)
            requires
                num == n * pow2(1074),
                n == 0,
        ;
        lemma_nothing_nearest(false, 1);
        lemma_units_zero(Double::of(0));
    } else {
        assert(num < pow2(2090)) by {
            lemma_pow2_pos(1074);
            lemma_pow2_adds(53, 1074);
            lemma_pow2_strictly_increases(1127, 2090);
            assert(n * pow2(1074) < pow2(53) * pow2(1074)) by (nonlinear_arith)
                requires
                    n < pow2(53),
                    pow2(1074) > 0,
            ;
        }
        lemma_exact(n, 1074);
    }
}

pub proof fn lemma_pattern_magnitude_order(p: nat, q: nat)
    requires
        p <= q <= rounding::INFINITE,
    ensures
        double::pattern_magnitude(p) <= double::pattern_magnitude(q),
{
    if p < q {
        double::lemma_pattern_order(p, q);
    }
}

/// A quotient by a number of at least one is at most the number that is divided.
pub proof fn dividing_by_one_or_more(n: nat, b: Double)
    requires
        n < pow2(53),
        b.is_nan() || Double::of(1).at_most(b),
    ensures
        !Double::of(n as int).below(Double::of(n as int).over(b)),
{
    reveal(Double::over);
    let a = Double::of(n as int);
    small_naturals_are_exact(n);
    lemma2_to64();
    lemma2_to64_rest();
    small_naturals_are_exact(1);
    lemma_pow2_pos(1074);
    if !b.is_nan() {
        assert(!b.negative()) by {
            lemma_units_zero(b);
        }
        lemma_nothing_nearest(false, 1);
        lemma_nearest_sign(false, 0, 1);
        if !b.is_infinite() {
            let num = a.magnitude() * pow2(1074);
            lemma_nearest_sign(false, num, b.magnitude());
            lemma_nearest_sign(false, n * pow2(1074), 1);
            assert(b.magnitude() >= pow2(1074));
            assert((a.magnitude() * pow2(1074)) * 1 <= (n * pow2(1074)) * b.magnitude())
                by (nonlinear_arith)
                requires
                    a.magnitude() == n * pow2(1074),
                    b.magnitude() >= pow2(1074),
            ;
            rounding::lemma_nearest_monotone(num, b.magnitude(), n * pow2(1074), 1);
            lemma_pattern_magnitude_order(
                rounding::nearest_pattern(num, b.magnitude()),
                rounding::nearest_pattern(n * pow2(1074), 1),
            );
        }
    }
}

/// One and something that is not less than zero are at least one.
pub proof fn one_and_more(b: Double)
    requires
        not_negative(b),
    ensures
        Double::of(1).plus(b).is_nan() || Double::of(1).at_most(Double::of(1).plus(b)),
{
    reveal(Double::plus);
    lemma_not_negative(b);
    lemma2_to64();
    lemma2_to64_rest();
    small_naturals_are_exact(1);
    let one = Double::of(1);
    if !b.is_nan() {
        if b.is_infinite() {
            double::lemma_pattern_order(one.pattern(), b.pattern());
            lemma_units_zero(b);
        } else {
            let exact = (one.units() + b.units()) as nat;
            lemma_pow2_pos(1074);
            lemma_nearest_sign(false, exact, 1);
            lemma_nearest_sign(false, 1 * pow2(1074), 1);
            rounding::lemma_nearest_monotone(1 * pow2(1074), 1, exact, 1);
            lemma_pattern_magnitude_order(
                rounding::nearest_pattern(1 * pow2(1074), 1),
                rounding::nearest_pattern(exact, 1),
            );
        }
    }
}

/// Taking what is not less than zero from a natural number leaves no more than the number.
pub proof fn taking_leaves_no_more(n: nat, b: Double)
    requires
        n < pow2(53),
        not_negative(b),
    ensures
        !Double::of(n as int).below(Double::of(n as int).minus(b)),
{
    reveal(Double::plus);
    lemma_not_negative(b);
    lemma_negated(b);
    small_naturals_are_exact(n);
    let a = Double::of(n as int);
    lemma_zero_units();
    if !b.is_nan() {
        if b.is_infinite() {
            lemma_units_zero(b);
            assert(b.negated().units() <= 0);
        } else {
            let exact = a.units() - b.units();
            let negative_zero = Double { bits: SIGN };
            assert(negative_zero.pattern() == 0);
            if exact < 0 {
                lemma_nearest_sign(true, (-exact) as nat, 1);
            } else if exact > 0 {
                lemma_nearest_sign(false, exact as nat, 1);
                lemma_nearest_sign(false, n * pow2(1074), 1);
                rounding::lemma_nearest_monotone(exact as nat, 1, n * pow2(1074), 1);
                lemma_pattern_magnitude_order(
                    rounding::nearest_pattern(exact as nat, 1),
                    rounding::nearest_pattern(n * pow2(1074), 1),
                );
            }
        }
    }
}

/// What NaN is taken from becomes NaN.
pub proof fn nan_spreads(a: Double, b: Double)
    requires
        b.is_nan(),
    ensures
        a.minus(b) == Double::nan(),
        a.minus(b).is_nan(),
{
    reveal(Double::plus);
    lemma_negated(b);
}

} // verus!
