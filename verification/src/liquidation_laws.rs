//! The distance to a liquidation shrinks with the leverage.

use crate::backtest;
use crate::backtest::{BoxOutcome, Rules};
use crate::box_laws;
use crate::double;
use crate::double::Double;
use crate::double_laws;
use crate::error_laws;
use crate::ledger::Book;
use crate::rounding;
use crate::types::{BoxType, PositionType};
use vstd::arithmetic::power2::*;
use vstd::prelude::*;

verus! {

/// The part that is held back, in hundredths.
spec fn tier(leverage: Double) -> nat {
    if leverage.at_most(Double::of(5)) {
        5
    } else if leverage.at_most(Double::of(10)) {
        8
    } else if leverage.at_most(Double::of(15)) {
        10
    } else if leverage.at_most(Double::of(20)) {
        12
    } else if leverage.at_most(Double::of(30)) {
        15
    } else if leverage.at_most(Double::of(35)) {
        18
    } else if leverage.at_most(Double::of(45)) {
        20
    } else if leverage.at_most(Double::of(50)) {
        25
    } else if leverage.at_most(Double::of(100)) {
        30
    } else {
        35
    }
}

proof fn lemma_tier_grows(a: Double, b: Double)
    requires
        a.below(b),
    ensures
        backtest::held_back(a) == Double::ratio_of(tier(a) as int, 100),
        backtest::held_back(b) == Double::ratio_of(tier(b) as int, 100),
        5 <= tier(a) <= tier(b) <= 35,
{
}

/// A share of up to three eighths.
spec fn is_share(f: Double) -> bool {
    &&& !f.is_nan()
    &&& !f.is_infinite()
    &&& !f.negative()
    &&& 8 * f.magnitude() <= 3 * pow2(1074)
}

proof fn lemma_share_of(k: nat, l: nat)
    requires
        k <= l <= 37,
    ensures
        is_share(Double::ratio_of(k as int, 100)),
        is_share(Double::ratio_of(l as int, 100)),
        Double::ratio_of(k as int, 100).magnitude() <= Double::ratio_of(l as int, 100).magnitude(),
{
    lemma2_to64();
    lemma2_to64_rest();
    lemma_pow2_pos(1074);
    lemma_pow2_pos(1071);
    lemma_pow2_adds(3, 1071);
    lemma_pow2_strictly_increases(1074, 2090);
    double_laws::lemma_nearest_sign(false, k * pow2(1074), 100);
    double_laws::lemma_nearest_sign(false, l * pow2(1074), 100);
    assert((k * pow2(1074)) * 100 <= (l * pow2(1074)) * 100) by (nonlinear_arith)
        requires
            k <= l,
    ;
    assert((l * pow2(1074)) * 1 <= (3 * pow2(1071)) * 100) by (nonlinear_arith)
        requires
            l <= 37,
            pow2(1074) == 8 * pow2(1071),
    ;
    rounding::lemma_nearest_monotone(k * pow2(1074), 100, l * pow2(1074), 100);
    rounding::lemma_nearest_monotone(l * pow2(1074), 100, 3 * pow2(1071), 1);
    double_laws::lemma_exact(3, 1071);
    double_laws::lemma_pattern_magnitude_order(
        rounding::nearest_pattern(k * pow2(1074), 100),
        rounding::nearest_pattern(l * pow2(1074), 100),
    );
    double_laws::lemma_pattern_magnitude_order(
        rounding::nearest_pattern(l * pow2(1074), 100),
        rounding::nearest_pattern(3 * pow2(1071), 1),
    );
}

/// A number of up to a hundred.
spec fn is_percent(w: Double) -> bool {
    &&& !w.is_nan()
    &&& !w.is_infinite()
    &&& !w.negative()
    &&& w.magnitude() <= 100 * pow2(1074)
}

/// The product of a percentage and a share.
proof fn lemma_product(w: Double, f: Double)
    requires
        is_percent(w),
        is_share(f),
    ensures
        ({
            let p = w.times(f);
            &&& !p.is_nan()
            &&& !p.is_infinite()
            &&& !p.negative()
            &&& p.magnitude() <= w.magnitude()
            &&& p.pattern() == rounding::nearest_pattern(w.magnitude() * f.magnitude(), pow2(1074))
            &&& p.pattern() < rounding::INFINITE
        }),
{
    reveal(Double::times);
    lemma_pow2_pos(1074);
    let num = w.magnitude() * f.magnitude();
    double_laws::lemma_nearest_sign(false, num, pow2(1074));
    assert(num * 1 <= w.magnitude() * pow2(1074)) by (nonlinear_arith)
        requires
            num == w.magnitude() * f.magnitude(),
            8 * f.magnitude() <= 3 * pow2(1074),
    ;
    rounding::lemma_nearest_monotone(num, pow2(1074), w.magnitude(), 1);
    error_laws::lemma_representable(w.pattern());
    double_laws::lemma_pattern_magnitude_order(
        rounding::nearest_pattern(num, pow2(1074)),
        w.pattern(),
    );
}

/// What is left of a percentage after a share of it grows with the percentage, before it is
/// rounded.
proof fn lemma_rest_grows(w1: Double, w2: Double, f: Double)
    requires
        is_percent(w1),
        is_percent(w2),
        is_share(f),
        w2.magnitude() < w1.magnitude(),
    ensures
        w1.magnitude() - w1.times(f).magnitude() >= w2.magnitude() - w2.times(f).magnitude(),
{
    let u = pow2(1074);
    lemma_pow2_pos(1074);
    lemma_product(w1, f);
    lemma_product(w2, f);
    let a = w1.magnitude();
    let b = w2.magnitude();
    let h = f.magnitude();
    let p = w1.times(f).magnitude();
    let q = w2.times(f).magnitude();
    assert(w2.pattern() < w1.pattern()) by {
        if w1.pattern() <= w2.pattern() {
            double_laws::lemma_pattern_magnitude_order(w1.pattern(), w2.pattern());
        }
    }
    let j = error_laws::lemma_spacing(w1.pattern(), w2.pattern());
    error_laws::lemma_nearest_error(a * h, u);
    error_laws::lemma_nearest_error(b * h, u);
    let d = (a - b) as nat;
    lemma_pow2_pos(j);
    lemma_fit_small(a, h, u, j);
    assert(b <= pow2(53 + j));
    lemma_fit_small(b, h, u, j);
    let x = rounding::fit(a * h, u);
    let y = rounding::fit(b * h, u);
    assert(p * u - a * h <= error_laws::distance((p * u) as int, (a * h) as int));
    assert(b * h - q * u <= error_laws::distance((q * u) as int, (b * h) as int));
    assert(a * h - b * h == d * h) by (nonlinear_arith)
        requires
            d == a - b,
    ;
    assert(8 * (d * h) <= 3 * (d * u)) by (nonlinear_arith)
        requires
            8 * h <= 3 * u,
    ;
    if j == 0 {
        lemma2_to64();
        assert(u * pow2(x) == u && u * pow2(y) == u) by (nonlinear_arith)
            requires
                pow2(x) == 1,
                pow2(y) == 1,
        ;
        assert(2 * (p * u - q * u) <= 2 * (d * h) + 2 * u);
        assert(p - q <= d) by (nonlinear_arith)
            requires
                2 * (p * u - q * u) <= 2 * (d * h) + 2 * u,
                8 * (d * h) <= 3 * (d * u),
                d >= 1,
                u > 0,
        ;
    } else {
        let half = pow2((j - 1) as nat);
        lemma_pow2_unfold(j);
        assert(u * pow2(x) <= u * half && u * pow2(y) <= u * half) by (nonlinear_arith)
            requires
                pow2(x) <= half,
                pow2(y) <= half,
        ;
        assert(u * half + u * half <= d * u) by (nonlinear_arith)
            requires
                d >= 2 * half,
        ;
        assert(2 * (p * u - q * u) <= 2 * (d * h) + d * u);
        assert(p - q <= d) by (nonlinear_arith)
            requires
                2 * (p * u - q * u) <= 2 * (d * h) + d * u,
                8 * (d * h) <= 3 * (d * u),
                u > 0,
                d >= 1,
        ;
    }
}

/// A product with less than a half keeps one place less.
proof fn lemma_fit_small(a: nat, h: nat, u: nat, j: nat)
    requires
        u > 0,
        8 * h <= 3 * u,
        a <= pow2(53 + j),
    ensures
        j == 0 ==> rounding::fit(a * h, u) == 0,
        j > 0 ==> pow2(rounding::fit(a * h, u)) <= pow2((j - 1) as nat),
{
    rounding::lemma_fit_bound(a * h, u);
    let x = rounding::fit(a * h, u);
    lemma_pow2_pos(53 + j);
    assert(8 * (a * h) <= 3 * (pow2(53 + j) * u)) by (nonlinear_arith)
        requires
            8 * h <= 3 * u,
            a <= pow2(53 + j),
    ;
    lemma_pow2_unfold(53 + j);
    let half = pow2((52 + j) as nat);
    lemma_pow2_pos((52 + j) as nat);
    assert(8 * (a * h) <= 6 * (u * half)) by (nonlinear_arith)
        requires
            8 * (a * h) <= 3 * (pow2(53 + j) * u),
            pow2(53 + j) == 2 * half,
    ;
    assert(u * half > 0) by (nonlinear_arith)
        requires
            u > 0,
            half > 0,
    ;
    assert(a * h < u * half);
    if x > 0 {
        if x >= j {
            if x > j {
                lemma_pow2_strictly_increases((52 + j) as nat, (52 + x) as nat);
            }
            assert(u * half <= u * pow2((52 + x) as nat)) by (nonlinear_arith)
                requires
                    half <= pow2((52 + x) as nat),
            ;
            assert(false);
        }
        if x < j - 1 {
            lemma_pow2_strictly_increases(x, (j - 1) as nat);
        }
    } else if j > 0 {
        lemma2_to64();
        if j > 1 {
            lemma_pow2_strictly_increases(0, (j - 1) as nat);
        }
    }
}

/// What is left of a percentage after a share of it.
spec fn rest(w: Double, f: Double) -> Double {
    w.minus(w.times(f))
}

proof fn lemma_rest(w: Double, f: Double)
    requires
        is_percent(w),
        is_share(f),
    ensures
        !rest(w, f).is_nan(),
        !rest(w, f).is_infinite(),
        rest(w, f).units() == error_laws::rounded_units(
            w.magnitude() - w.times(f).magnitude(),
        ),
        0 <= rest(w, f).units() <= w.magnitude(),
{
    lemma_product(w, f);
    error_laws::lemma_representable(w.pattern());
    let p = w.times(f);
    error_laws::lemma_minus_units(w, p);
    error_laws::lemma_rounded_monotone(w.magnitude() - p.magnitude(), w.magnitude() as int);
    error_laws::lemma_rounded_monotone(0, w.magnitude() - p.magnitude());
    double_laws::lemma_nothing_nearest(false, 1);
    double_laws::lemma_nearest_sign(false, 0, 1);
    let r = rest(w, f);
    if r.is_infinite() {
        assert(r.magnitude() <= w.magnitude());
        double::lemma_pattern_order(w.pattern(), r.pattern());
    }
}

/// What a total loss takes is a percentage, and no more of one for a higher leverage.
proof fn lemma_whole(a: Double)
    requires
        Double::of(1).at_most(a),
    ensures
        is_percent(Double::of(100).over(a)),
        a.magnitude() > 0,
        !a.negative(),
        a.is_infinite() ==> Double::of(100).over(a).magnitude() == 0,
        !a.is_infinite() ==> Double::of(100).over(a).pattern() == rounding::nearest_pattern(
            (100 * pow2(1074)) * pow2(1074),
            a.magnitude(),
        ),
{
    reveal(Double::over);
    lemma2_to64();
    lemma2_to64_rest();
    lemma_pow2_pos(1074);
    double_laws::small_naturals_are_exact(1);
    double_laws::small_naturals_are_exact(100);
    let u = pow2(1074);
    assert(a.units() >= u);
    double_laws::lemma_nothing_nearest(false, 1);
    double_laws::lemma_nearest_sign(false, 0, 1);
    if !a.is_infinite() {
        let num = (100 * u) * u;
        double_laws::lemma_nearest_sign(false, num, a.magnitude());
        double_laws::lemma_nearest_sign(false, 100 * u, 1);
        assert(num * 1 <= (100 * u) * a.magnitude()) by (nonlinear_arith)
            requires
                num == (100 * u) * u,
                a.magnitude() >= u,
        ;
        rounding::lemma_nearest_monotone(num, a.magnitude(), 100 * u, 1);
        double_laws::lemma_pattern_magnitude_order(
            rounding::nearest_pattern(num, a.magnitude()),
            rounding::nearest_pattern(100 * u, 1),
        );
    }
}

/// The constant part of the distance is between a thirty-second and one.
proof fn lemma_constant()
    ensures
        ({
            let c = Double::ratio_of(45, 1000);
            &&& !c.is_nan()
            &&& !c.is_infinite()
            &&& !c.negative()
            &&& 32 * c.magnitude() >= pow2(1074)
            &&& c.magnitude() <= pow2(1074)
        }),
{
    lemma2_to64();
    lemma2_to64_rest();
    lemma_pow2_pos(1074);
    lemma_pow2_pos(1069);
    lemma_pow2_adds(5, 1069);
    lemma_pow2_strictly_increases(1069, 2090);
    lemma_pow2_strictly_increases(1074, 2090);
    double_laws::lemma_nearest_sign(false, 45 * pow2(1074), 1000);
    assert((1 * pow2(1069)) * 1000 <= (45 * pow2(1074)) * 1);
    assert((45 * pow2(1074)) * 1 <= (1 * pow2(1074)) * 1000);
    rounding::lemma_nearest_monotone(1 * pow2(1069), 1, 45 * pow2(1074), 1000);
    rounding::lemma_nearest_monotone(45 * pow2(1074), 1000, 1 * pow2(1074), 1);
    double_laws::lemma_exact(1, 1069);
    double_laws::lemma_exact(1, 1074);
    double_laws::lemma_pattern_magnitude_order(
        rounding::nearest_pattern(1 * pow2(1069), 1),
        rounding::nearest_pattern(45 * pow2(1074), 1000),
    );
    double_laws::lemma_pattern_magnitude_order(
        rounding::nearest_pattern(45 * pow2(1074), 1000),
        rounding::nearest_pattern(1 * pow2(1074), 1),
    );
}

proof fn lemma_constant_kept()
    ensures
        error_laws::rounded_units(-Double::ratio_of(45, 1000).units()) < 0,
{
    lemma_constant();
    lemma_pow2_pos(1074);
    error_laws::lemma_representable(Double::ratio_of(45, 1000).pattern());
}

/// More leverage never needs a larger adverse move until liquidation.
pub proof fn more_leverage_is_nearer_to_liquidation(a: Double, b: Double)
    requires
        Double::of(1).at_most(a),
        a.below(b),
    ensures
        backtest::liquidation_percentage(b).at_most(backtest::liquidation_percentage(a)),
{
    let wa = Double::of(100).over(a);
    let wb = Double::of(100).over(b);
    let fa = backtest::held_back(a);
    let fb = backtest::held_back(b);
    let c = Double::ratio_of(45, 1000);
    lemma_tier_grows(a, b);
    lemma_share_of(tier(a), tier(b));
    lemma_whole(a);
    lemma_whole(b);
    lemma_constant();
    assert(!a.is_infinite()) by {
        if a.is_infinite() {
            double_laws::lemma_pattern_magnitude_order(b.pattern(), a.pattern());
            assert(false);
        }
    }
    assert(wb.magnitude() <= wa.magnitude()) by {
        if !b.is_infinite() {
            let num = (100 * pow2(1074)) * pow2(1074);
            assert(num * a.magnitude() <= num * b.magnitude()) by (nonlinear_arith)
                requires
                    a.magnitude() <= b.magnitude(),
            ;
            rounding::lemma_nearest_monotone(num, b.magnitude(), num, a.magnitude());
            double_laws::lemma_pattern_magnitude_order(wb.pattern(), wa.pattern());
        }
    }
    assert(wb.magnitude() == wa.magnitude() ==> wb.pattern() == wa.pattern()) by {
        if wb.pattern() < wa.pattern() {
            double::lemma_pattern_order(wb.pattern(), wa.pattern());
        } else if wa.pattern() < wb.pattern() {
            double::lemma_pattern_order(wa.pattern(), wb.pattern());
        }
    }
    lemma_product(wa, fa);
    lemma_product(wa, fb);
    lemma_product(wb, fb);
    lemma_pow2_pos(1074);
    assert((wa.magnitude() * fa.magnitude()) * pow2(1074) <= (wa.magnitude() * fb.magnitude())
        * pow2(1074)) by (nonlinear_arith)
        requires
            fa.magnitude() <= fb.magnitude(),
    ;
    rounding::lemma_nearest_monotone(
        wa.magnitude() * fa.magnitude(),
        pow2(1074),
        wa.magnitude() * fb.magnitude(),
        pow2(1074),
    );
    double_laws::lemma_pattern_magnitude_order(wa.times(fa).pattern(), wa.times(fb).pattern());
    if wb.magnitude() < wa.magnitude() {
        lemma_rest_grows(wa, wb, fb);
    }
    lemma_rest(wa, fa);
    lemma_rest(wb, fb);
    error_laws::lemma_rounded_monotone(
        wb.magnitude() - wb.times(fb).magnitude(),
        wa.magnitude() - wa.times(fa).magnitude(),
    );
    let ra = rest(wa, fa);
    let rb = rest(wb, fb);
    error_laws::lemma_minus_units(ra, c);
    error_laws::lemma_minus_units(rb, c);
    error_laws::lemma_rounded_monotone(rb.units() - c.units(), ra.units() - c.units());
}

/// The distance to a liquidation stays below what a total loss of the margin would take.
pub proof fn liquidation_comes_before_the_total_loss(a: Double)
    requires
        Double::of(1).at_most(a),
    ensures
        backtest::liquidation_percentage(a).below(Double::of(100).over(a)),
{
    let w = Double::of(100).over(a);
    let f = backtest::held_back(a);
    let c = Double::ratio_of(45, 1000);
    lemma_whole(a);
    assert(f == Double::ratio_of(tier(a) as int, 100));
    lemma_share_of(tier(a), tier(a));
    lemma_constant();
    lemma_rest(w, f);
    let r = rest(w, f);
    error_laws::lemma_minus_units(r, c);
    let exact = r.units() - c.units();
    let u = pow2(1074);
    lemma_pow2_pos(1074);
    if w.magnitude() == 0 {
        lemma_constant_kept();
    } else if exact <= 0 {
        error_laws::lemma_rounded_monotone(exact, 0);
        double_laws::lemma_nothing_nearest(false, 1);
        double_laws::lemma_nearest_sign(false, 0, 1);
    } else {
        let m = double::pattern_magnitude(rounding::nearest_pattern(exact as nat, 1));
            error_laws::lemma_representable(w.pattern());
        rounding::lemma_nearest_monotone(exact as nat, 1, w.magnitude(), 1);
        error_laws::lemma_nearest_error(exact as nat, 1);
        lemma2_to64();
        lemma2_to64_rest();
        lemma_pow2_strictly_increases(64, 1074);
        assert(pow2(53) == 0x20_0000_0000_0000);
        assert(pow2(52) == 0x10_0000_0000_0000);
        assert(m * 1 - exact <= error_laws::distance((m * 1) as int, exact));
        assert(0x20_0000_0000_0000 * (m - exact) <= exact + 0x10_0000_0000_0000);
        assert(m < r.units());
    }
}

/// The distance to a liquidation is a percentage.
proof fn lemma_percentage_bounds(leverage: Double)
    requires
        Double::of(1).at_most(leverage),
    ensures
        ({
            let p = backtest::liquidation_percentage(leverage);
            &&& !p.is_nan()
            &&& !p.is_infinite()
            &&& -pow2(1074) <= p.units() <= 100 * pow2(1074)
        }),
{
    let w = Double::of(100).over(leverage);
    let f = backtest::held_back(leverage);
    let c = Double::ratio_of(45, 1000);
    let u = pow2(1074);
    lemma_whole(leverage);
    assert(f == Double::ratio_of(tier(leverage) as int, 100));
    lemma_share_of(tier(leverage), tier(leverage));
    lemma_constant();
    lemma_rest(w, f);
    lemma_pow2_pos(1074);
    lemma2_to64();
    lemma2_to64_rest();
    double_laws::small_naturals_are_exact(1);
    double_laws::small_naturals_are_exact(100);
    let r = rest(w, f);
    let exact = r.units() - c.units();
    error_laws::lemma_minus_units(r, c);
    error_laws::lemma_representable(Double::of(1).pattern());
    error_laws::lemma_representable(Double::of(100).pattern());
    error_laws::lemma_rounded_monotone(-(u as int), exact);
    error_laws::lemma_rounded_monotone(exact, 100 * u as int);
    let p = r.minus(c);
    assert(p == backtest::liquidation_percentage(leverage));
    lemma_pow2_adds(7, 1074);
    if p.magnitude() > pow2(1081) {
        assert(false);
    }
    error_laws::lemma_finite_below(p, 1081);
}

/// The share of a percentage.
proof fn lemma_share_of_percentage(p: Double)
    requires
        !p.is_nan(),
        !p.is_infinite(),
        -pow2(1074) <= p.units() <= 100 * pow2(1074),
    ensures
        ({
            let q = p.over(Double::of(100));
            &&& !q.is_nan()
            &&& !q.is_infinite()
            &&& -2 * pow2(1074) <= q.units() <= 2 * pow2(1074)
            &&& pow2(52) * error_laws::distance(q.units() * 100, p.units()) <= 100 * pow2(1074)
        }),
{
    let u = pow2(1074);
    let hundred = Double::of(100);
    let q = p.over(hundred);
    lemma2_to64();
    lemma2_to64_rest();
    lemma_pow2_pos(1074);
    double_laws::small_naturals_are_exact(100);
    lemma_pow2_strictly_increases(1074, 2000);
    let num = p.magnitude() * u;
    assert(num <= pow2(2000) * (100 * u)) by (nonlinear_arith)
        requires
            num == p.magnitude() * u,
            p.magnitude() <= 100 * u,
            u < pow2(2000),
    ;
    error_laws::lemma_stays_finite(num, 100 * u);
    double_laws::lemma_nearest_sign(p.negative(), num, 100 * u);
    assert(!q.is_nan() && !q.is_infinite()) by {
        reveal(Double::over);
    }
    error_laws::lemma_over_error(p, hundred);
    let x = q.units();
    let y = p.units();
    let d = error_laws::distance(x * 100, y);
    assert(x * (100 * u) == (x * 100) * u) by (nonlinear_arith);
    error_laws::lemma_scaled_distance(x * 100, y, u as int);
    error_laws::lemma_scaled_distance(y, 0, u as int);
    assert(0 * u == 0);
    let a = error_laws::distance(y, 0);
    assert(pow2(53) * d <= a + 100 * pow2(52)) by (nonlinear_arith)
        requires
            pow2(53) * (d * u) <= a * u + pow2(52) * (100 * u),
            u > 0,
    ;
    lemma_pow2_strictly_increases(64, 1074);
    assert(pow2(52) == 0x10_0000_0000_0000);
    assert(pow2(53) == 0x20_0000_0000_0000);
    assert(pow2(64) == 0x1_0000_0000_0000_0000);
}

/// A price moved by a share of itself.
proof fn lemma_moved_price(price: Double, q: Double)
    requires
        error_laws::moderate(price),
        !q.is_nan(),
        !q.is_infinite(),
        -2 * pow2(1074) <= q.units() <= 2 * pow2(1074),
    ensures
        ({
            let moved = price.times(Double::of(1).plus(q));
            &&& !moved.is_nan()
            &&& !moved.is_infinite()
            &&& pow2(49) * error_laws::distance(
                moved.units() * pow2(1074),
                price.units() * (pow2(1074) + q.units()),
            ) <= price.units() * pow2(1074)
        }),
{
    let one = Double::of(1);
    let u = pow2(1074) as int;
    let s = one.plus(q);
    let e = price.units();
    lemma2_to64();
    lemma2_to64_rest();
    lemma_pow2_pos(1074);
    lemma_pow2_strictly_increases(64, 974);
    lemma_pow2_strictly_increases(64, 1074);
    double_laws::small_naturals_are_exact(1);
    double_laws::small_naturals_are_exact(3);
    error_laws::lemma_plus_units(one, q);
    error_laws::lemma_representable(Double::of(3).pattern());
    error_laws::lemma_rounded_monotone(u + q.units(), 3 * u);
    error_laws::lemma_rounded_monotone(-3 * u, u + q.units());
    assert(-3 * u <= s.units() <= 3 * u);
    lemma_pow2_adds(2, 1074);
    error_laws::lemma_finite_below(s, 1076);
    error_laws::lemma_finite_below(price, 1174);
    error_laws::lemma_plus_error(one, q);
    let num = price.magnitude() * s.magnitude();
    lemma_pow2_strictly_increases(1174, 1900);
    lemma_pow2_adds(3, 1900);
    lemma_pow2_strictly_increases(1903, 2000);
    assert(num <= pow2(2000) * (u as nat)) by (nonlinear_arith)
        requires
            num == price.magnitude() * s.magnitude(),
            price.magnitude() <= pow2(1174),
            pow2(1174) < pow2(1900),
            8 * pow2(1900) == pow2(1903),
            pow2(1903) < pow2(2000),
            s.magnitude() <= 3 * u,
            u > 0,
    ;
    error_laws::lemma_stays_finite(num, u as nat);
    double_laws::lemma_nearest_sign(price.negative() != s.negative(), num, u as nat);
    let moved = price.times(s);
    assert(!moved.is_nan() && !moved.is_infinite()) by {
        reveal(Double::times);
    }
    error_laws::lemma_times_error(price, s);
    let x = moved.units();
    let z = s.units();
    let t = u + q.units();
    let first = error_laws::distance(x * u, e * z);
    let second = error_laws::distance(z, t);
    error_laws::lemma_scaled_distance(z, t, e);
    assert(z * e == e * z && t * e == e * t) by (nonlinear_arith);
    let whole = error_laws::distance(x * u, e * t);
    assert(whole <= first + second * e);
    assert(error_laws::distance(e * z, 0) <= 3 * (e * u)) by (nonlinear_arith)
        requires
            -3 * u <= z <= 3 * u,
            e >= 0,
            u > 0,
    ;
    assert(pow2(52) == 0x10_0000_0000_0000);
    assert(pow2(53) == 0x20_0000_0000_0000);
    assert(pow2(49) == 0x2_0000_0000_0000);
    assert(pow2(64) == 0x1_0000_0000_0000_0000);
    assert(pow2(52) * u <= e * u) by (nonlinear_arith)
        requires
            pow2(52) <= e,
            u > 0,
    ;
    assert(0x20_0000_0000_0000 * first <= 4 * (e * u));
    assert(0x20_0000_0000_0000 * second <= 4 * u);
    assert(0x20_0000_0000_0000 * (second * e) <= 4 * (e * u)) by (nonlinear_arith)
        requires
            0x20_0000_0000_0000 * second <= 4 * u,
            e >= 0,
    ;
}

/// The price at which a position is liquidated lies the percentage away from the price at which it
/// was opened, up to rounding.
proof fn lemma_liquidation_price(t: PositionType, price: Double, p: Double)
    requires
        error_laws::moderate(price),
        !p.is_nan(),
        !p.is_infinite(),
        -pow2(1074) <= p.units() <= 100 * pow2(1074),
        t != PositionType::NoPosition,
    ensures
        liquidated_at(t, price, p, backtest::liquidation_price(t, price, p)),
{
    lemma_share_of_percentage(p);
    let q = p.over(Double::of(100));
    let signed = if t == PositionType::Long {
        q.negated()
    } else {
        q
    };
    double_laws::lemma_negated(q);
    lemma_moved_price(price, signed);
    let u = pow2(1074) as int;
    let e = price.units();
    let liq = backtest::liquidation_price(t, price, p);
    assert(liq == price.times(Double::of(1).plus(signed)));
    let x = liq.units();
    let y = p.units();
    let z = q.units();
    let towards: int = if t == PositionType::Long {
        -1
    } else {
        1
    };
    assert((-1) * z == -z && 1 * z == z);
    assert(signed.units() == towards * z);
    let a = x * u;
    let b = e * (u + towards * z);
    let c = e * (100 * u + towards * y);
    assert(100 * b == e * (100 * u + towards * (z * 100))) by (nonlinear_arith)
        requires
            b == e * (u + towards * z),
    ;
    let d = error_laws::distance(z * 100, y);
    assert(100 * b - c == e * (towards * (z * 100 - y))) by (nonlinear_arith)
        requires
            100 * b == e * (100 * u + towards * (z * 100)),
            c == e * (100 * u + towards * y),
    ;
    assert(error_laws::distance(100 * b, c) <= e * d) by (nonlinear_arith)
        requires
            100 * b - c == e * (towards * (z * 100 - y)),
            towards == 1 || towards == -1,
            d == error_laws::distance(z * 100, y),
            e >= 0,
    ;
    lemma2_to64();
    lemma2_to64_rest();
    lemma_pow2_pos(1074);
    assert(pow2(52) == 0x10_0000_0000_0000);
    assert(pow2(49) == 0x2_0000_0000_0000);
    assert(pow2(40) == 0x100_0000_0000);
    assert(0x10_0000_0000_0000 * (e * d) <= 100 * (e * u)) by (nonlinear_arith)
        requires
            0x10_0000_0000_0000 * d <= 100 * u,
            e >= 0,
    ;
    assert(error_laws::distance(100 * a, 100 * b) == 100 * error_laws::distance(a, b));
    assert(error_laws::distance(100 * a, c) <= 100 * error_laws::distance(a, b)
        + error_laws::distance(100 * b, c));
    assert((-1) * y == -y && 1 * y == y);
    let left = if t == PositionType::Long {
        100 * u - y
    } else {
        100 * u + y
    };
    assert(c == e * left);
    assert(0x100_0000_0000 * error_laws::distance(100 * a, c) <= e * u);
}

/// A liquidation price lies a percentage below the price of a long position or above that of a
/// short one, up to a part in `2^40` of the price.
pub open spec fn liquidated_at(t: PositionType, price: Double, percent: Double, at: Double) -> bool {
    let hundred = 100 * pow2(1074);
    let left = if t == PositionType::Long {
        hundred - percent.units()
    } else {
        hundred + percent.units()
    };
    &&& !at.is_nan()
    &&& !at.is_infinite()
    &&& pow2(40) * error_laws::distance(100 * (at.units() * pow2(1074)), price.units() * left)
        <= price.units() * pow2(1074)
}

/// What an opening adds to the book is liquidated at the distance that belongs to the leverage with
/// which it was opened, on the losing side of its entry price; and the leverage is the value of the
/// position over its margin.
pub proof fn openings_are_liquidated_by_their_leverage(
    book: Book,
    t: PositionType,
    box_type: BoxType,
    only: Option<PositionType>,
    chosen: Option<Double>,
    stop_loss: Option<Double>,
    rules: Rules,
    equity: Double,
    price: Double,
)
    requires
        error_laws::moderate(price),
        error_laws::moderate(backtest::leverage_used(rules, chosen)),
        Double::of(1).at_most(backtest::leverage_used(rules, chosen)),
    ensures
        book.opening(t, box_type, only, chosen, stop_loss, rules, equity, price).1 matches
            BoxOutcome::Opened { position } ==> {
            let leverage = backtest::leverage_used(rules, chosen);
            &&& position.entry_price == price
            &&& liquidated_at(
                position.position_type,
                position.entry_price,
                backtest::liquidation_percentage(leverage),
                position.liquidation_price,
            )
            &&& error_laws::moderate(position.margin) ==> error_laws::near(
                position.size_btc.units() * position.entry_price.units(),
                position.margin.units() * leverage.units(),
                50,
            )
        },
{
    let leverage = backtest::leverage_used(rules, chosen);
    let p = backtest::liquidation_percentage(leverage);
    lemma_percentage_bounds(leverage);
    if let BoxOutcome::Opened { position } = book.opening(
        t,
        box_type,
        only,
        chosen,
        stop_loss,
        rules,
        equity,
        price,
    ).1 {
        lemma_liquidation_price(t, price, p);
        if error_laws::moderate(position.margin) {
            lemma_size(position.margin, leverage, price);
        }
    }
}

/// The size of a position at its price is its margin times its leverage, up to rounding.
pub proof fn lemma_size(margin: Double, leverage: Double, price: Double)
    requires
        error_laws::moderate(margin),
        error_laws::moderate(leverage),
        error_laws::moderate(price),
    ensures
        error_laws::near(
            margin.times(leverage).over(price).units() * price.units(),
            margin.units() * leverage.units(),
            50,
        ),
{
    let u = pow2(1074) as int;
    let value = margin.times(leverage);
    let size = value.over(price);
    let m = margin.units();
    let l = leverage.units();
    let v = value.units();
    lemma2_to64();
    lemma2_to64_rest();
    lemma_pow2_pos(1074);
    lemma_pow2_strictly_increases(900, 974);
    lemma_pow2_strictly_increases(1174, 1400);
    error_laws::lemma_times_moderate(margin, leverage);
    assert(pow2(52) == 0x10_0000_0000_0000);
    lemma_product_range(m, l, v, u, error_laws::distance(v * u, m * l));
    error_laws::lemma_over_moderate(value, price);
    error_laws::lemma_near_chain(size.units() * price.units(), v * u, m * l, 52);
}

pub proof fn lemma_product_range(m: int, l: int, v: int, u: int, d: int)
    requires
        u == pow2(1074),
        pow2(974) <= m <= pow2(1174),
        pow2(974) <= l <= pow2(1174),
        d == error_laws::distance(v * u, m * l),
        0x10_0000_0000_0000 * d <= error_laws::distance(m * l, 0),
    ensures
        pow2(800) <= v <= pow2(1400),
{
    lemma_pow2_pos(974);
    lemma_pow2_pos(1074);
    lemma_pow2_adds(974, 974);
    lemma_pow2_adds(1174, 1174);
    lemma_pow2_adds(800, 1074);
    lemma_pow2_adds(1400, 1074);
    lemma_pow2_adds(1, 1874);
    lemma_pow2_adds(1, 2348);
    lemma2_to64();
    lemma_pow2_strictly_increases(1875, 1948);
    lemma_pow2_strictly_increases(2349, 2474);
    let x = m * l;
    assert(pow2(974) * pow2(974) <= x <= pow2(1174) * pow2(1174)) by (nonlinear_arith)
        requires
            pow2(974) <= m <= pow2(1174),
            pow2(974) <= l <= pow2(1174),
            x == m * l,
            pow2(974) > 0,
    ;
    assert(x <= 2 * (v * u) && v * u <= 2 * x);
    let low = pow2(800) as int;
    let high = pow2(1400) as int;
    assert(v >= low) by (nonlinear_arith)
        requires
            2 * (low * u) <= 2 * (v * u),
            u > 0,
    ;
    assert(v <= high) by (nonlinear_arith)
        requires
            v * u <= high * u,
            u > 0,
    ;
}

proof fn lemma_ten_and_twenty()
    ensures
        backtest::liquidation_percentage(Double::of(10)).units() >= 9 * pow2(1074),
        backtest::liquidation_percentage(Double::of(20)).units() <= 5 * pow2(1074),
        Double::of(1).at_most(Double::of(10)),
        Double::of(1).at_most(Double::of(20)),
        Double::of(10).below(Double::of(20)),
{
    let u = pow2(1074);
    lemma2_to64();
    lemma2_to64_rest();
    lemma_pow2_pos(1074);
    lemma_pow2_adds(4, 1070);
    lemma_pow2_adds(5, 1069);
    lemma_pow2_pos(1070);
    lemma_pow2_pos(1069);
    lemma_pow2_strictly_increases(1074, 2000);
    lemma_pow2_adds(10, 1074);
    lemma_pow2_strictly_increases(1084, 2090);
    double_laws::small_naturals_are_exact(1);
    double_laws::small_naturals_are_exact(5);
    double_laws::small_naturals_are_exact(9);
    double_laws::small_naturals_are_exact(10);
    double_laws::small_naturals_are_exact(20);
    let ten = Double::of(10);
    let twenty = Double::of(20);
    lemma_whole(ten);
    lemma_whole(twenty);
    let num = (100 * u) * u;
    assert(num * 1 == (5 * u) * (20 * u)) by (nonlinear_arith)
        requires
            num == (100 * u) * u,
    ;
    assert(num * 1 == (10 * u) * (10 * u)) by (nonlinear_arith)
        requires
            num == (100 * u) * u,
    ;
    rounding::lemma_nearest_same_value(num, 20 * u, 5 * u, 1);
    rounding::lemma_nearest_same_value(num, 10 * u, 10 * u, 1);
    error_laws::lemma_representable(Double::of(5).pattern());
    error_laws::lemma_representable(ten.pattern());
    liquidation_comes_before_the_total_loss(twenty);
    let w = Double::of(100).over(ten);
    assert(w.magnitude() == 10 * u);
    let f = backtest::held_back(ten);
    assert(f == Double::ratio_of(8, 100));
    lemma_share_of(8, 8);
    let k = f.magnitude();
    assert(k <= 3 * pow2(1069)) by {
        double_laws::lemma_nearest_sign(false, 8 * u, 100);
        rounding::lemma_nearest_monotone(8 * u, 100, 3 * pow2(1069), 1);
        double_laws::lemma_exact(3, 1069);
        double_laws::lemma_pattern_magnitude_order(
            rounding::nearest_pattern(8 * u, 100),
            rounding::nearest_pattern(3 * pow2(1069), 1),
        );
    }
    lemma_product(w, f);
    let p = w.times(f);
    assert(p.magnitude() <= 15 * pow2(1070)) by {
        let top = (10 * u) * k;
        assert(top * 1 <= (15 * pow2(1070)) * u) by (nonlinear_arith)
            requires
                top == (10 * u) * k,
                k <= 3 * pow2(1069),
                pow2(1070) == 2 * pow2(1069),
        ;
        rounding::lemma_nearest_monotone(top, u, 15 * pow2(1070), 1);
        double_laws::lemma_exact(15, 1070);
        double_laws::lemma_pattern_magnitude_order(
            rounding::nearest_pattern(top, u),
            rounding::nearest_pattern(15 * pow2(1070), 1),
        );
    }
    lemma_rest(w, f);
    let r = rest(w, f);
    error_laws::lemma_rounded_monotone(145 * pow2(1070) as int, w.magnitude() - p.magnitude());
    double_laws::lemma_exact(145, 1070);
    let c = Double::ratio_of(45, 1000);
    lemma_constant();
    assert(c.magnitude() <= pow2(1070)) by {
        double_laws::lemma_nearest_sign(false, 45 * u, 1000);
        rounding::lemma_nearest_monotone(45 * u, 1000, 1 * pow2(1070), 1);
        double_laws::lemma_exact(1, 1070);
        double_laws::lemma_pattern_magnitude_order(
            rounding::nearest_pattern(45 * u, 1000),
            rounding::nearest_pattern(1 * pow2(1070), 1),
        );
    }
    error_laws::lemma_minus_units(r, c);
    error_laws::lemma_rounded_monotone(9 * u as int, r.units() - c.units());
    error_laws::lemma_representable(Double::of(9).pattern());
}

/// Of two openings that differ in their leverage, the one with more leverage is liquidated no
/// farther from the price, and nearer where the distances differ by more than rounding can hide: so
/// at 20 times the margin nearer than at 10 times.
pub proof fn more_leverage_is_liquidated_nearer(t: PositionType, price: Double, a: Double, b: Double)
    requires
        error_laws::moderate(price),
        t != PositionType::NoPosition,
        Double::of(1).at_most(a),
        a.below(b),
    ensures
        ({
            let near = backtest::new_position(t, BoxType::ST, price, b, price, None).liquidation_price;
            let far = backtest::new_position(t, BoxType::ST, price, a, price, None).liquidation_price;
            let apart = backtest::liquidation_percentage(a).units()
                - backtest::liquidation_percentage(b).units();
            match t {
                PositionType::Long => {
                    &&& far.at_most(near)
                    &&& pow2(38) * apart > pow2(1074) ==> far.below(near)
                    &&& a == Double::of(10) && b == Double::of(20) ==> far.below(near)
                },
                _ => {
                    &&& near.at_most(far)
                    &&& pow2(38) * apart > pow2(1074) ==> near.below(far)
                    &&& a == Double::of(10) && b == Double::of(20) ==> near.below(far)
                },
            }
        }),
{
    let pa = backtest::liquidation_percentage(a);
    let pb = backtest::liquidation_percentage(b);
    lemma_percentage_bounds(a);
    lemma_percentage_bounds(b);
    more_leverage_is_nearer_to_liquidation(a, b);
    lemma_nearer(t, price, pa, pb);
    lemma_ten_and_twenty();
    lemma2_to64();
    lemma2_to64_rest();
    lemma_pow2_pos(1074);
    assert(pow2(38) == 0x40_0000_0000);
}

proof fn lemma_nearer(t: PositionType, price: Double, pa: Double, pb: Double)
    requires
        error_laws::moderate(price),
        t != PositionType::NoPosition,
        pb.at_most(pa),
        !pa.is_infinite(),
        !pb.is_infinite(),
        -pow2(1074) <= pa.units() <= 100 * pow2(1074),
        -pow2(1074) <= pb.units() <= 100 * pow2(1074),
    ensures
        ({
            let far = backtest::liquidation_price(t, price, pa);
            let near = backtest::liquidation_price(t, price, pb);
            let clear = pow2(38) * (pa.units() - pb.units()) > pow2(1074);
            if t == PositionType::Long {
                far.at_most(near) && (clear ==> far.below(near))
            } else {
                near.at_most(far) && (clear ==> near.below(far))
            }
        }),
{
    lemma_farther(t, price, pa, pb);
    lemma_liquidation_price(t, price, pa);
    lemma_liquidation_price(t, price, pb);
    lemma2_to64();
    lemma2_to64_rest();
    lemma_pow2_pos(1074);
    lemma_pow2_pos(974);
    assert(pow2(38) == 0x40_0000_0000);
    assert(pow2(40) == 0x100_0000_0000);
    if pow2(38) * (pa.units() - pb.units()) > pow2(1074) {
        lemma_apart(
            t,
            price.units(),
            pow2(1074) as int,
            pa.units(),
            pb.units(),
            backtest::liquidation_price(t, price, pa).units(),
            backtest::liquidation_price(t, price, pb).units(),
        );
    }
}

proof fn lemma_apart(t: PositionType, e: int, u: int, pa: int, pb: int, x: int, y: int)
    requires
        t != PositionType::NoPosition,
        e > 0,
        u > 0,
        0x40_0000_0000 * (pa - pb) > u,
        ({
            let left = if t == PositionType::Long {
                100 * u - pa
            } else {
                100 * u + pa
            };
            0x100_0000_0000 * error_laws::distance(100 * (x * u), e * left) <= e * u
        }),
        ({
            let left = if t == PositionType::Long {
                100 * u - pb
            } else {
                100 * u + pb
            };
            0x100_0000_0000 * error_laws::distance(100 * (y * u), e * left) <= e * u
        }),
    ensures
        t == PositionType::Long ==> x < y,
        t != PositionType::Long ==> y < x,
{
    let la = if t == PositionType::Long {
        100 * u - pa
    } else {
        100 * u + pa
    };
    let lb = if t == PositionType::Long {
        100 * u - pb
    } else {
        100 * u + pb
    };
    let gap = pa - pb;
    assert(0x40_0000_0000 * (e * gap) > e * u) by (nonlinear_arith)
        requires
            0x40_0000_0000 * gap > u,
            e > 0,
    ;
    assert(t == PositionType::Long ==> e * lb - e * la == e * gap) by (nonlinear_arith)
        requires
            t == PositionType::Long ==> lb - la == gap,
    ;
    assert(t != PositionType::Long ==> e * la - e * lb == e * gap) by (nonlinear_arith)
        requires
            t != PositionType::Long ==> la - lb == gap,
    ;
    if t == PositionType::Long {
        assert(x * u < y * u);
        assert(x < y) by (nonlinear_arith)
            requires
                x * u < y * u,
                u > 0,
        ;
    } else {
        assert(y * u < x * u);
        assert(y < x) by (nonlinear_arith)
            requires
                y * u < x * u,
                u > 0,
        ;
    }
}

/// A larger percentage does not put a liquidation nearer.
proof fn lemma_farther(t: PositionType, price: Double, pa: Double, pb: Double)
    requires
        error_laws::moderate(price),
        t != PositionType::NoPosition,
        pb.at_most(pa),
        !pa.is_infinite(),
        !pb.is_infinite(),
        -pow2(1074) <= pa.units() <= 100 * pow2(1074),
        -pow2(1074) <= pb.units() <= 100 * pow2(1074),
    ensures
        ({
            let far = backtest::liquidation_price(t, price, pa);
            let near = backtest::liquidation_price(t, price, pb);
            if t == PositionType::Long {
                far.at_most(near)
            } else {
                near.at_most(far)
            }
        }),
{
    let hundred = Double::of(100);
    let one = Double::of(1);
    let qa = pa.over(hundred);
    let qb = pb.over(hundred);
    lemma2_to64();
    lemma2_to64_rest();
    lemma_pow2_pos(1074);
    lemma_pow2_pos(974);
    double_laws::small_naturals_are_exact(1);
    double_laws::small_naturals_are_exact(100);
    lemma_share_of_percentage(pa);
    lemma_share_of_percentage(pb);
    error_laws::lemma_over_monotone(pb, pa, hundred);
    double_laws::lemma_negated(qa);
    double_laws::lemma_negated(qb);
    lemma_moved_price(price, qa);
    lemma_moved_price(price, qb);
    lemma_moved_price(price, qa.negated());
    lemma_moved_price(price, qb.negated());
    assert(0nat * pow2(0) == 0);
    assert(Double::zero().at_most(price));
    error_laws::lemma_plus_units(one, qa);
    error_laws::lemma_plus_units(one, qb);
    error_laws::lemma_plus_units(one, qa.negated());
    error_laws::lemma_plus_units(one, qb.negated());
    let (low, high) = if t == PositionType::Long {
        (one.plus(qa.negated()), one.plus(qb.negated()))
    } else {
        (one.plus(qb), one.plus(qa))
    };
    error_laws::lemma_rounded_monotone(one.units() - qa.units(), one.units() - qb.units());
    error_laws::lemma_rounded_monotone(one.units() + qb.units(), one.units() + qa.units());
    double_laws::multiplication_commutes(price, low);
    double_laws::multiplication_commutes(price, high);
    box_laws::lemma_times_monotone(low, high, price);
}

} // verus!
