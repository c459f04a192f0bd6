//! What the indicators measure, up to rounding.

use crate::box_laws;
use crate::double::Double;
use crate::double_laws;
use crate::error_laws;
use crate::error_laws::{distance, moderate, near};
use crate::indicators;
use crate::types::Candle;
use vstd::arithmetic::power2::*;
use vstd::prelude::*;

verus! {

/// A price or a volume as markets have them: positive, neither tiny nor huge.
pub open spec fn ordinary(x: Double) -> bool {
    moderate(x)
}

/// A number that is not negative and not huge.
pub open spec fn amount(x: Double) -> bool {
    !x.is_nan() && !x.negative() && x.magnitude() <= pow2(1174)
}

/// A rounded sum of so many amounts agrees with the exact one.
spec fn agrees(sum: int, exact: int, n: nat) -> bool {
    pow2(52) * distance(sum, exact) <= n * (exact + pow2(52))
}

proof fn lemma_step_of_sum(sum: int, exact: int, x: int, next: int, n: nat)
    requires
        agrees(sum, exact, n),
        exact >= 0,
        x >= 0,
        n <= pow2(52),
        pow2(53) * distance(next, sum + x) <= distance(sum + x, 0) + pow2(52),
    ensures
        agrees(next, exact + x, n + 1),
        distance(sum, exact) <= exact + pow2(52),
{
    let p = pow2(52) as int;
    let d = distance(sum, exact);
    let e = distance(next, sum + x);
    let f = distance(next, exact + x);
    lemma_pow2_pos(52);
    lemma_pow2_adds(1, 52);
    lemma2_to64();
    assert(f <= d + e) by {
        error_laws::lemma_triangle(next, sum + x, exact + x);
        error_laws::lemma_distance_shift(sum, exact, x);
    }
    assert(distance(sum + x, 0) <= exact + x + d);
    lemma_step_bound(p, d, e, f, exact, x, n as int);
}

proof fn lemma_step_bound(p: int, d: int, e: int, f: int, exact: int, x: int, n: int)
    requires
        p > 0,
        d >= 0,
        e >= 0,
        0 <= f <= d + e,
        exact >= 0,
        x >= 0,
        0 <= n <= p,
        p * d <= n * (exact + p),
        2 * p * e <= exact + x + d + p,
    ensures
        p * f <= (n + 1) * (exact + x + p),
        d <= exact + p,
{
    assert(n * (exact + p) <= p * (exact + p)) by (nonlinear_arith)
        requires
            0 <= n <= p,
            exact >= 0,
            p > 0,
    ;
    assert(d <= exact + p) by (nonlinear_arith)
        requires
            p * d <= p * (exact + p),
            p > 0,
    ;
    assert(p * f <= p * d + p * e) by (nonlinear_arith)
        requires
            f <= d + e,
            p > 0,
    ;
    assert(2 * (p * e) == 2 * p * e) by (nonlinear_arith);
    assert((n + 1) * (exact + x + p) == n * (exact + p) + n * x + exact + x + p)
        by (nonlinear_arith);
    assert(n * x >= 0) by (nonlinear_arith)
        requires
            n >= 0,
            x >= 0,
    ;
}

/// One more amount on a rounded sum of amounts.
proof fn lemma_sum_grows(sum: Double, exact: int, x: Double, n: nat)
    requires
        !sum.is_nan(),
        !sum.is_infinite(),
        amount(x),
        n < pow2(20),
        0 <= exact <= n * pow2(1174),
        agrees(sum.units(), exact, n),
    ensures
        !sum.plus(x).is_nan(),
        !sum.plus(x).is_infinite(),
        0 <= exact + x.units() <= (n + 1) * pow2(1174),
        agrees(sum.plus(x).units(), exact + x.units(), n + 1),
{
    lemma2_to64();
    lemma2_to64_rest();
    lemma_pow2_pos(1174);
    lemma_pow2_strictly_increases(52, 1174);
    lemma_pow2_adds(20, 1174);
    lemma_pow2_adds(3, 1194);
    lemma_pow2_strictly_increases(1174, 1194);
    error_laws::lemma_finite_below(x, 1174);
    let big = pow2(1174) as int;
    assert(n * big <= pow2(20) * big) by (nonlinear_arith)
        requires
            n < pow2(20),
            big > 0,
    ;
    assert((n + 1) * big == n * big + big) by (nonlinear_arith);
    let p = pow2(52) as int;
    assert(distance(sum.units(), exact) <= exact + p) by {
        let d = distance(sum.units(), exact);
        assert(n * (exact + p) <= p * (exact + p)) by (nonlinear_arith)
            requires
                0 <= n <= p,
                exact >= 0,
                p > 0,
        ;
        assert(d <= exact + p) by (nonlinear_arith)
            requires
                p * d <= p * (exact + p),
                p > 0,
        ;
    }
    assert(sum.magnitude() <= pow2(1197));
    lemma_pow2_strictly_increases(1174, 1197);
    error_laws::lemma_plus_within(sum, x, 1197);
    error_laws::lemma_plus_error(sum, x);
    lemma_step_of_sum(sum.units(), exact, x.units(), sum.plus(x).units(), n);
}

/// A sum shared among so many.
proof fn lemma_shared(sum: Double, exact: int, n: nat)
    requires
        !sum.is_nan(),
        !sum.is_infinite(),
        0 < n < pow2(20),
        0 <= exact <= n * pow2(1174),
        agrees(sum.units(), exact, n),
    ensures
        !sum.over(Double::of(n as int)).is_nan(),
        !sum.over(Double::of(n as int)).is_infinite(),
        pow2(50) * distance(sum.over(Double::of(n as int)).units() * n, exact) <= n * (exact
            + pow2(52)),
{
    let u = pow2(1074) as int;
    let p = pow2(52) as int;
    let s = sum.units();
    let c = Double::of(n as int);
    lemma2_to64();
    lemma2_to64_rest();
    lemma_pow2_pos(1074);
    lemma_pow2_strictly_increases(20, 53);
    lemma_pow2_adds(1, 52);
    lemma_pow2_adds(2, 50);
    double_laws::small_naturals_are_exact(n);
    assert(n * u >= u) by (nonlinear_arith)
        requires
            n >= 1,
            u > 0,
    ;
    let d = distance(s, exact);
    assert(n * (exact + p) <= p * (exact + p)) by (nonlinear_arith)
        requires
            0 <= n <= p,
            exact >= 0,
            p > 0,
    ;
    assert(d <= exact + p) by (nonlinear_arith)
        requires
            p * d <= p * (exact + p),
            p > 0,
    ;
    lemma_quotient_finite(sum, n, exact);
    let q = sum.over(c);
    error_laws::lemma_over_error(sum, c);
    let e = distance(q.units() * n, s);
    assert(q.units() * c.units() == (q.units() * n) * u) by (nonlinear_arith)
        requires
            c.units() == n * u,
    ;
    error_laws::lemma_scaled_distance(q.units() * n, s, u);
    error_laws::lemma_scaled_distance(s, 0, u);
    assert(0 * u == 0);
    let a = distance(s, 0);
    assert(2 * p * e <= a + p * n) by (nonlinear_arith)
        requires
            2 * p * (e * u) <= a * u + p * (n * u),
            u > 0,
    ;
    let f = distance(q.units() * n, exact);
    error_laws::lemma_triangle(q.units() * n, s, exact);
    assert(a <= exact + d);
    lemma_shared_bound(p, d, e, f, exact, n as int);
    assert(4 * (pow2(50) * f) == p * f) by (nonlinear_arith)
        requires
            p == 4 * pow2(50),
    ;
}

proof fn lemma_shared_bound(p: int, d: int, e: int, f: int, exact: int, n: int)
    requires
        p > 0,
        d >= 0,
        e >= 0,
        0 <= f <= d + e,
        exact >= 0,
        1 <= n <= p,
        d <= exact + p,
        p * d <= n * (exact + p),
        2 * p * e <= exact + d + p * n,
    ensures
        p * f <= 4 * (n * (exact + p)),
{
    assert(p * f <= p * d + p * e) by (nonlinear_arith)
        requires
            f <= d + e,
            p > 0,
    ;
    assert(2 * (p * e) == 2 * p * e) by (nonlinear_arith);
    assert(n * (exact + p) >= exact + p) by (nonlinear_arith)
        requires
            n >= 1,
            exact >= 0,
            p > 0,
    ;
    assert(n * (exact + p) >= p * n) by (nonlinear_arith)
        requires
            n >= 1,
            exact >= 0,
    ;
}

proof fn lemma_quotient_finite(sum: Double, n: nat, exact: int)
    requires
        !sum.is_nan(),
        !sum.is_infinite(),
        0 < n < pow2(20),
        0 <= exact <= n * pow2(1174),
        distance(sum.units(), exact) <= exact + pow2(52),
    ensures
        !sum.over(Double::of(n as int)).is_nan(),
        !sum.over(Double::of(n as int)).is_infinite(),
{
    let u = pow2(1074);
    let c = Double::of(n as int);
    lemma2_to64();
    lemma2_to64_rest();
    lemma_pow2_pos(1074);
    lemma_pow2_strictly_increases(20, 53);
    lemma_pow2_pos(1174);
    lemma_pow2_strictly_increases(52, 1174);
    lemma_pow2_adds(2, 1174);
    lemma_pow2_adds(20, 1176);
    lemma_pow2_strictly_increases(1196, 2000);
    double_laws::small_naturals_are_exact(n);
    let big = pow2(1174) as int;
    let top = pow2(2000) as int;
    assert(n * big <= pow2(20) * big) by (nonlinear_arith)
        requires
            n < pow2(20),
            big > 0,
    ;
    assert(sum.magnitude() <= top);
    assert(n * u >= u) by (nonlinear_arith)
        requires
            n >= 1,
    ;
    assert(sum.magnitude() * u <= top * (n * u)) by (nonlinear_arith)
        requires
            sum.magnitude() <= top,
            n * u >= u,
            u > 0,
            top > 0,
    ;
    error_laws::lemma_stays_finite(sum.magnitude() * u, c.magnitude());
    reveal(Double::over);
    double_laws::lemma_nearest_sign(
        sum.negative() != c.negative(),
        sum.magnitude() * u,
        c.magnitude(),
    );
}

/// The closes of the candles in `start..end`, added up exactly.
pub open spec fn closes_total(candles: Seq<Candle>, start: int, end: int) -> int
    decreases end - start,
{
    if end <= start {
        0
    } else {
        closes_total(candles, start, end - 1) + candles[end - 1].close.units()
    }
}

proof fn lemma_close_sum(candles: Seq<Candle>, start: int, end: int)
    requires
        0 <= start <= end <= candles.len(),
        end - start < pow2(20),
        forall|k: int| start <= k < end ==> amount((#[trigger] candles[k]).close),
    ensures
        ({
            let sum = indicators::close_sum(candles, start, end);
            let exact = closes_total(candles, start, end);
            &&& !sum.is_nan()
            &&& !sum.is_infinite()
            &&& 0 <= exact <= (end - start) * pow2(1174)
            &&& agrees(sum.units(), exact, (end - start) as nat)
        }),
    decreases end - start,
{
    assert(0nat * pow2(0) == 0);
    assert(0 * pow2(1174) == 0);
    if start < end {
        lemma_close_sum(candles, start, end - 1);
        lemma_sum_grows(
            indicators::close_sum(candles, start, end - 1),
            closes_total(candles, start, end - 1),
            candles[end - 1].close,
            (end - 1 - start) as nat,
        );
    } else {
        assert(pow2(52) * 0 == 0);
        assert(0 * (0 + pow2(52)) == 0);
    }
}

/// A plain average, times how many candles it is over, is the total of their closes: of the last
/// `period` candles, or of all where there are fewer.
pub proof fn plain_averages_share_the_total(candles: Seq<Candle>, i: int, period: nat)
    requires
        0 <= i < candles.len(),
        0 < period < pow2(20),
        forall|k: int| 0 <= k <= i ==> amount((#[trigger] candles[k]).close),
    ensures
        ({
            let n = if i + 1 < period {
                i + 1
            } else {
                period as int
            };
            let exact = closes_total(candles, i + 1 - n, i + 1);
            pow2(50) * distance(indicators::sma(candles, i, period).units() * n, exact) <= n * (
            exact + pow2(52))
        }),
{
    let start = indicators::window_start(i, period as int);
    let n = (i + 1 - start) as nat;
    lemma_close_sum(candles, start, i + 1);
    lemma_shared(
        indicators::close_sum(candles, start, i + 1),
        closes_total(candles, start, i + 1),
        n,
    );
}

/// The true range of a candle reaches at least over its own span and from the last close to its
/// high and its low, and no farther than one of these.
pub proof fn true_ranges_reach_over_gaps(candles: Seq<Candle>, i: int)
    requires
        0 < i < candles.len(),
        !candles[i].high.minus(candles[i].low).is_nan(),
        !candles[i].high.minus(candles[i - 1].close).is_nan(),
        !candles[i].low.minus(candles[i - 1].close).is_nan(),
    ensures
        ({
            let reach = indicators::true_range(candles, i);
            let span = candles[i].high.minus(candles[i].low);
            let up = candles[i].high.minus(candles[i - 1].close).absolute();
            let down = candles[i].low.minus(candles[i - 1].close).absolute();
            &&& span.at_most(reach)
            &&& up.at_most(reach)
            &&& down.at_most(reach)
            &&& reach == span || reach == up || reach == down
        }),
{
}

/// The volume of a candle counts for the buyers where the close rose, for the sellers where it fell,
/// and for neither where it stayed.
pub proof fn volumes_count_for_the_side_that_won(candles: Seq<Candle>, i: int)
    requires
        0 < i < candles.len(),
        error_laws::within(indicators::obv(candles, i - 1), 1200),
        amount(candles[i].volume),
        !candles[i].close.is_nan(),
        !candles[i - 1].close.is_nan(),
    ensures
        ({
            let before = indicators::obv(candles, i - 1).units();
            let after = indicators::obv(candles, i).units();
            let volume = candles[i].volume.units();
            let moved = if candles[i].close.units() > candles[i - 1].close.units() {
                before + volume
            } else if candles[i].close.units() < candles[i - 1].close.units() {
                before - volume
            } else {
                before
            };
            pow2(53) * distance(after, moved) <= distance(before, 0) + volume + pow2(52)
        }),
        indicators::obv(candles, 0) == Double::zero(),
{
    lemma_pow2_strictly_increases(1174, 1200);
    error_laws::lemma_plus_within(indicators::obv(candles, i - 1), candles[i].volume, 1200);
    error_laws::lemma_minus_within(indicators::obv(candles, i - 1), candles[i].volume, 1200);
    assert(pow2(53) * 0 == 0);
}

proof fn lemma_lowest(candles: Seq<Candle>, start: int, end: int, period: nat, k: int)
    requires
        start <= k < end,
        forall|j: int| start <= j < end ==> !(#[trigger] indicators::rsi(candles, j, period)).is_nan(),
    ensures
        !indicators::lowest_rsi(candles, start, end, period).is_nan(),
        !indicators::highest_rsi(candles, start, end, period).is_nan(),
        indicators::lowest_rsi(candles, start, end, period).at_most(
            indicators::rsi(candles, k, period),
        ),
        indicators::rsi(candles, k, period).at_most(
            indicators::highest_rsi(candles, start, end, period),
        ),
    decreases end - start,
{
    let last = indicators::rsi(candles, end - 1, period);
    assert(!last.is_nan());
    if end - 1 > start {
        lemma_lowest(candles, start, end - 1, period, if k < end - 1 {
            k
        } else {
            start
        });
    } else {
        reveal_with_fuel(indicators::lowest_rsi, 2);
        reveal_with_fuel(indicators::highest_rsi, 2);
        box_laws::lemma_only_infinite(last);
        double_laws::lemma_pattern_magnitude_order(last.pattern(), crate::rounding::INFINITE as nat);
    }
}

proof fn lemma_extremes_attained(candles: Seq<Candle>, start: int, end: int, period: nat, x: Double)
    requires
        start < end,
        forall|j: int| start <= j < end ==> !(#[trigger] indicators::rsi(candles, j, period)).is_nan(),
    ensures
        (forall|j: int|
            start <= j < end ==> x.at_most(#[trigger] indicators::rsi(candles, j, period)))
            ==> x.at_most(indicators::lowest_rsi(candles, start, end, period)),
        (forall|j: int|
            start <= j < end ==> (#[trigger] indicators::rsi(candles, j, period)).at_most(x))
            ==> indicators::highest_rsi(candles, start, end, period).at_most(x),
    decreases end - start,
{
    let last = indicators::rsi(candles, end - 1, period);
    assert(!last.is_nan());
    if end - 1 > start {
        lemma_extremes_attained(candles, start, end - 1, period, x);
        lemma_lowest(candles, start, end - 1, period, start);
    } else {
        reveal_with_fuel(indicators::lowest_rsi, 2);
        reveal_with_fuel(indicators::highest_rsi, 2);
        box_laws::lemma_only_infinite(last);
        double_laws::lemma_pattern_magnitude_order(last.pattern(), crate::rounding::INFINITE as nat);
    }
}

/// The stochastic index is nothing where the strength is the lowest of its period.
pub proof fn the_weakest_of_a_period_is_nothing(candles: Seq<Candle>, i: int, period: nat, k: int)
    requires
        period * 2 <= i < candles.len(),
        i - period < k <= i,
        forall|j: int|
            i - period < j <= i ==> {
                let other = #[trigger] indicators::rsi(candles, j, period);
                !other.is_nan() && !other.is_infinite() && indicators::rsi(
                    candles,
                    i,
                    period,
                ).at_most(other)
            },
        indicators::rsi(candles, i, period).below(indicators::rsi(candles, k, period)),
    ensures
        indicators::stoch_rsi(candles, i, period).units() == 0,
{
    let start = i - period + 1;
    let now = indicators::rsi(candles, i, period);
    let low = indicators::lowest_rsi(candles, start, i + 1, period);
    let high = indicators::highest_rsi(candles, start, i + 1, period);
    assert(!indicators::rsi(candles, k, period).is_nan());
    lemma_lowest(candles, start, i + 1, period, i);
    lemma_lowest(candles, start, i + 1, period, k);
    lemma_extremes_attained(candles, start, i + 1, period, now);
    lemma_extreme_is_one(candles, start, i + 1, period);
    error_laws::lemma_minus_units(now, low);
    error_laws::lemma_minus_units(high, low);
    error_laws::lemma_rounded_zero();
    lemma_gap(high, low);
    lemma_nothing_shared(now.minus(low), high.minus(low));
    assert(pow2(1074) > 0) by {
        lemma_pow2_pos(1074);
    }
    lemma2_to64();
    lemma2_to64_rest();
    double_laws::small_naturals_are_exact(100);
    lemma_nothing_times(now.minus(low).over(high.minus(low)), Double::of(100));
}

/// The stochastic index is a hundred where the strength is the highest of its period.
pub proof fn the_strongest_of_a_period_is_a_hundred(
    candles: Seq<Candle>,
    i: int,
    period: nat,
    k: int,
)
    requires
        period * 2 <= i < candles.len(),
        i - period < k <= i,
        forall|j: int|
            i - period < j <= i ==> {
                let other = #[trigger] indicators::rsi(candles, j, period);
                ordinary(other) && other.at_most(indicators::rsi(candles, i, period))
            },
        indicators::rsi(candles, k, period).units() + pow2(974) <= indicators::rsi(
            candles,
            i,
            period,
        ).units(),
    ensures
        near(indicators::stoch_rsi(candles, i, period).units(), 100 * (pow2(1074) as int), 45),
{
    let start = i - period + 1;
    let now = indicators::rsi(candles, i, period);
    let low = indicators::lowest_rsi(candles, start, i + 1, period);
    let high = indicators::highest_rsi(candles, start, i + 1, period);
    assert forall|j: int| start <= j < i + 1 implies !(#[trigger] indicators::rsi(
        candles,
        j,
        period,
    )).is_nan() && !indicators::rsi(candles, j, period).is_infinite() by {
        error_laws::lemma_finite_below(indicators::rsi(candles, j, period), 1174);
    }
    assert(ordinary(now));
    assert(ordinary(indicators::rsi(candles, k, period)));
    lemma_lowest(candles, start, i + 1, period, i);
    lemma_lowest(candles, start, i + 1, period, k);
    lemma_extremes_attained(candles, start, i + 1, period, now);
    lemma_extreme_is_one(candles, start, i + 1, period);
    lemma_extremes_attained(candles, start, i + 1, period, Double::zero());
    assert(0nat * pow2(0) == 0);
    assert(now.units() == high.units());
    assert(low.units() >= 0);
    lemma_pow2_pos(974);
    assert(low.below(high));
    lemma_whole_spread(now, low, high);
}

/// What is as high as the highest has the whole spread below it.
proof fn lemma_whole_spread(now: Double, low: Double, high: Double)
    requires
        ordinary(now),
        !low.is_nan(),
        !low.is_infinite(),
        !high.is_nan(),
        !high.is_infinite(),
        now.units() == high.units(),
        low.units() >= 0,
        low.units() + pow2(974) <= now.units(),
    ensures
        near(
            now.minus(low).over(high.minus(low)).times(Double::of(100)).units(),
            100 * (pow2(1074) as int),
            45,
        ),
{
    error_laws::lemma_finite_below(now, 1174);
    let a = now.minus(low);
    let b = high.minus(low);
    error_laws::lemma_minus_units(now, low);
    error_laws::lemma_minus_units(high, low);
    assert(a.units() == b.units());
    lemma2_to64();
    lemma2_to64_rest();
    lemma_pow2_pos(974);
    let floor = pow2(974) as int;
    assert(error_laws::rounded_units(floor) == floor) by {
        assert(1 * pow2(974) == pow2(974));
        lemma_pow2_strictly_increases(974, 2090);
        double_laws::lemma_exact(1, 974);
    }
    assert(error_laws::rounded_units(pow2(1174) as int) == pow2(1174)) by {
        assert(1 * pow2(1174) == pow2(1174));
        lemma_pow2_strictly_increases(1174, 2090);
        lemma_pow2_pos(1174);
        double_laws::lemma_exact(1, 1174);
    }
    error_laws::lemma_rounded_monotone(floor, now.units() - low.units());
    error_laws::lemma_rounded_monotone(now.units() - low.units(), pow2(1174) as int);
    assert(moderate(a));
    assert(moderate(b));
    lemma_whole(a, b);
}

/// Equal numbers give one, and a hundred times that a hundred.
proof fn lemma_whole(a: Double, b: Double)
    requires
        moderate(a),
        moderate(b),
        a.units() == b.units(),
    ensures
        near(a.over(b).times(Double::of(100)).units(), 100 * (pow2(1074) as int), 45),
{
    let u = pow2(1074) as int;
    let q = a.over(b);
    let c = Double::of(100);
    let x = a.units();
    lemma2_to64();
    lemma2_to64_rest();
    lemma_pow2_pos(1074);
    lemma_pow2_pos(974);
    lemma_pow2_strictly_increases(800, 974);
    lemma_pow2_strictly_increases(900, 974);
    lemma_pow2_strictly_increases(1174, 1400);
    error_laws::lemma_over_moderate(a, b);
    assert(x * u == u * x) by (nonlinear_arith);
    error_laws::lemma_near_unscaled(q.units(), u, x, 52);
    lemma_near_range(q.units(), u, 52);
    double_laws::small_naturals_are_exact(100);
    lemma_pow2_adds(1, 1074);
    lemma_pow2_adds(1, 1073);
    lemma_pow2_adds(7, 1074);
    lemma_pow2_strictly_increases(800, 1073);
    lemma_pow2_strictly_increases(900, 1073);
    lemma_pow2_strictly_increases(1075, 1400);
    lemma_pow2_strictly_increases(1081, 1400);
    error_laws::lemma_times_moderate(q, c);
    let r = q.times(c).units();
    assert(q.units() * c.units() == (q.units() * 100) * u) by (nonlinear_arith)
        requires
            c.units() == 100 * u,
    ;
    error_laws::lemma_near_unscaled(r, q.units() * 100, u, 52);
    error_laws::lemma_near_scaled(q.units(), u, 100, 52);
    error_laws::lemma_near_chain(r, q.units() * 100, u * 100, 52);
    error_laws::lemma_near_weaker(r, u * 100, 50, 45);
}

proof fn lemma_near_range(x: int, y: int, k: nat)
    requires
        near(x, y, k),
        k >= 1,
        y >= 0,
    ensures
        y <= 2 * x,
        x <= 2 * y,
{
    let d = distance(x, y);
    lemma_pow2_adds(1, (k - 1) as nat);
    lemma_pow2_pos((k - 1) as nat);
    lemma2_to64();
    assert(2 * d <= pow2(k) * d) by (nonlinear_arith)
        requires
            pow2(k) >= 2,
            d >= 0,
    ;
}

/// The extremes are numbers that occur.
proof fn lemma_extreme_is_one(candles: Seq<Candle>, start: int, end: int, period: nat)
    requires
        start < end,
        forall|j: int|
            start <= j < end ==> {
                let other = #[trigger] indicators::rsi(candles, j, period);
                !other.is_nan() && !other.is_infinite()
            },
    ensures
        !indicators::lowest_rsi(candles, start, end, period).is_nan(),
        !indicators::lowest_rsi(candles, start, end, period).is_infinite(),
        !indicators::highest_rsi(candles, start, end, period).is_nan(),
        !indicators::highest_rsi(candles, start, end, period).is_infinite(),
    decreases end - start,
{
    let last = indicators::rsi(candles, end - 1, period);
    assert(!last.is_nan() && !last.is_infinite());
    if end - 1 > start {
        lemma_extreme_is_one(candles, start, end - 1, period);
    } else {
        reveal_with_fuel(indicators::lowest_rsi, 2);
        reveal_with_fuel(indicators::highest_rsi, 2);
        box_laws::lemma_only_infinite(last);
        double_laws::lemma_pattern_magnitude_order(last.pattern(), crate::rounding::INFINITE as nat);
        box_laws::lemma_only_infinite(Double::infinity(false));
        box_laws::lemma_only_infinite(Double::infinity(true));
    }
}

proof fn lemma_gap(high: Double, low: Double)
    requires
        !high.is_nan(),
        !high.is_infinite(),
        !low.is_nan(),
        !low.is_infinite(),
        low.units() < high.units(),
    ensures
        !high.minus(low).is_nan(),
        high.minus(low).units() > 0,
{
    lemma2_to64();
    lemma2_to64_rest();
    lemma_pow2_strictly_increases(0, 2090);
    assert(1 * pow2(0) == 1);
    double_laws::lemma_exact(1, 0);
    error_laws::lemma_minus_units(high, low);
    error_laws::lemma_rounded_monotone(1, high.units() - low.units());
}

pub proof fn lemma_nothing_shared(a: Double, b: Double)
    requires
        !a.is_nan(),
        a.units() == 0,
        !b.is_nan(),
        b.units() > 0,
    ensures
        !a.over(b).is_nan(),
        a.over(b).units() == 0,
        !a.over(b).is_infinite(),
{
    reveal(Double::over);
    lemma_pow2_pos(1074);
    assert(0 * pow2(1074) == 0);
    box_laws::lemma_only_infinite(a);
    lemma_infinite_is_something();
    let negative = a.negative() != b.negative();
    double_laws::lemma_nearest_sign(negative, 0, 1);
    double_laws::lemma_nothing_nearest(negative, 1);
    double_laws::lemma_nearest_sign(negative, 0, b.magnitude());
    double_laws::lemma_nothing_nearest(negative, b.magnitude());
    box_laws::lemma_only_infinite(a.over(b));
}

pub proof fn lemma_nothing_times(a: Double, b: Double)
    requires
        !a.is_nan(),
        !a.is_infinite(),
        a.units() == 0,
        !b.is_nan(),
        !b.is_infinite(),
    ensures
        !a.times(b).is_nan(),
        a.times(b).units() == 0,
        !a.times(b).is_infinite(),
{
    reveal(Double::times);
    lemma_pow2_pos(1074);
    assert(0 * b.magnitude() == 0);
    lemma_infinite_is_something();
    let negative = a.negative() != b.negative();
    double_laws::lemma_nearest_sign(negative, 0, pow2(1074));
    double_laws::lemma_nothing_nearest(negative, pow2(1074));
    box_laws::lemma_only_infinite(a.times(b));
}

proof fn lemma_infinite_is_something()
    ensures
        crate::double::pattern_magnitude(crate::rounding::INFINITE as nat) > 0,
{
    lemma2_to64();
    lemma2_to64_rest();
    double_laws::small_naturals_are_exact(1);
    box_laws::lemma_only_infinite(Double::of(1));
    lemma_pow2_pos(1074);
    double_laws::lemma_pattern_magnitude_order(
        Double::of(1).pattern(),
        crate::rounding::INFINITE as nat,
    );
}

proof fn lemma_only_rises(candles: Seq<Candle>, n: int, period: nat)
    requires
        0 <= n,
        0 < period < pow2(20),
    ensures
        (forall|k: int| 0 < k <= n ==> Double::zero().below(#[trigger] indicators::change(candles, k)))
            ==> indicators::falls(candles, n) == Double::zero(),
        (forall|k: int| 0 < k <= n ==> (#[trigger] indicators::change(candles, k)).below(Double::zero()))
            ==> indicators::rises(candles, n) == Double::zero(),
    decreases n,
{
    if n > 0 {
        lemma_only_rises(candles, n - 1, period);
        let last = indicators::change(candles, n);
        assert(last.below(Double::zero()) ==> !Double::zero().below(last));
    }
}

proof fn lemma_nothing_smoothed(average: Double, value: Double, period: nat)
    requires
        0 < period < pow2(20),
        !average.is_nan(),
        !average.is_infinite(),
        average.units() == 0,
        !value.is_nan(),
        !value.is_infinite(),
        value.units() == 0,
    ensures
        !indicators::smoothed(average, value, period).is_nan(),
        !indicators::smoothed(average, value, period).is_infinite(),
        indicators::smoothed(average, value, period).units() == 0,
{
    lemma2_to64();
    lemma2_to64_rest();
    lemma_pow2_pos(1074);
    double_laws::small_naturals_are_exact((period - 1) as nat);
    double_laws::small_naturals_are_exact(period);
    let m = average.times(Double::of(period - 1));
    lemma_nothing_times(average, Double::of(period - 1));
    error_laws::lemma_plus_units(m, value);
    error_laws::lemma_rounded_zero();
    assert(period * pow2(1074) > 0) by (nonlinear_arith)
        requires
            period > 0,
            pow2(1074) > 0,
    ;
    lemma_nothing_shared(m.plus(value), Double::of(period as int));
}

proof fn lemma_nothing_averaged(candles: Seq<Candle>, i: int, period: nat)
    requires
        period <= i,
        0 < period < pow2(20),
    ensures
        (forall|k: int| 0 < k <= i ==> Double::zero().below(#[trigger] indicators::change(candles, k)))
            ==> {
            let fall = indicators::average_fall(candles, i, period);
            !fall.is_nan() && !fall.is_infinite() && fall.units() == 0
        },
        (forall|k: int| 0 < k <= i ==> (#[trigger] indicators::change(candles, k)).below(Double::zero()))
            ==> {
            let rise = indicators::average_rise(candles, i, period);
            !rise.is_nan() && !rise.is_infinite() && rise.units() == 0
        },
    decreases i,
{
    let zero = Double::zero();
    assert(0nat * pow2(0) == 0);
    lemma2_to64();
    lemma2_to64_rest();
    lemma_pow2_pos(1074);
    double_laws::small_naturals_are_exact(period);
    assert(period * pow2(1074) > 0) by (nonlinear_arith)
        requires
            period > 0,
            pow2(1074) > 0,
    ;
    lemma_only_rises(candles, period as int, period);
    lemma_nothing_shared(zero, Double::of(period as int));
    if i > period {
        lemma_nothing_averaged(candles, i - 1, period);
        let last = indicators::change(candles, i);
        let rise = indicators::average_rise(candles, i - 1, period);
        let fall = indicators::average_fall(candles, i - 1, period);
        if !rise.is_nan() && !rise.is_infinite() && rise.units() == 0 {
            lemma_nothing_smoothed(rise, zero, period);
        }
        if !fall.is_nan() && !fall.is_infinite() && fall.units() == 0 {
            lemma_nothing_smoothed(fall, zero, period);
        }
        assert(last.below(zero) ==> !zero.below(last));
        assert(zero.below(last) ==> !last.below(zero));
    }
}

/// The strength of a market that only rises is a hundred.
pub proof fn rising_markets_are_strong(candles: Seq<Candle>, i: int, period: nat)
    requires
        period <= i < candles.len(),
        0 < period < pow2(20),
        forall|k: int| 0 < k <= i ==> Double::zero().below(#[trigger] indicators::change(candles, k)),
    ensures
        indicators::rsi(candles, i, period) == Double::of(100),
{
    assert(0nat * pow2(0) == 0);
    lemma_nothing_averaged(candles, i, period);
}

/// The strength of a market that only falls is nothing.
pub proof fn falling_markets_are_weak(candles: Seq<Candle>, i: int, period: nat)
    requires
        period <= i < candles.len(),
        0 < period < pow2(20),
        forall|k: int| 0 < k <= i ==> (#[trigger] indicators::change(candles, k)).below(Double::zero()),
        !indicators::average_fall(candles, i, period).is_nan(),
        indicators::average_fall(candles, i, period).units() > 0,
    ensures
        indicators::rsi(candles, i, period).units() == 0,
{
    let fall = indicators::average_fall(candles, i, period);
    let rise = indicators::average_rise(candles, i, period);
    let one = Double::of(1);
    let hundred = Double::of(100);
    let u = pow2(1074) as int;
    assert(0nat * pow2(0) == 0);
    lemma2_to64();
    lemma2_to64_rest();
    lemma_pow2_pos(1074);
    lemma_nothing_averaged(candles, i, period);
    lemma_nothing_shared(rise, fall);
    double_laws::small_naturals_are_exact(1);
    double_laws::small_naturals_are_exact(100);
    let sum = one.plus(rise.over(fall));
    error_laws::lemma_plus_units(one, rise.over(fall));
    assert(1 * pow2(1074) == pow2(1074));
    lemma_pow2_strictly_increases(1074, 2090);
    double_laws::lemma_exact(1, 1074);
    assert(sum.units() == u);
    error_laws::lemma_finite_below(sum, 1074);
    lemma_over_one(hundred, sum);
    error_laws::lemma_minus_units(hundred, hundred.over(sum));
    error_laws::lemma_rounded_zero();
}

proof fn lemma_over_one(a: Double, one: Double)
    requires
        !a.is_nan(),
        !a.is_infinite(),
        !one.is_nan(),
        !one.is_infinite(),
        one.units() == pow2(1074),
    ensures
        !a.over(one).is_nan(),
        !a.over(one).is_infinite(),
        a.over(one).units() == a.units(),
{
    let u = pow2(1074);
    reveal(Double::over);
    lemma_pow2_pos(1074);
    let m = a.magnitude();
    double_laws::lemma_nearest_sign(a.negative(), m * u, u);
    assert((m * u) * 1 == m * u);
    crate::rounding::lemma_nearest_same_value(m * u, u, m, 1);
    box_laws::lemma_only_infinite(a.over(one));
    box_laws::lemma_only_infinite(a);
    error_laws::lemma_representable(a.pattern());
}

proof fn lemma_three_errors(p: int, y: int, n: int, d: int, e: int, f: int)
    requires
        p >= 1,
        y >= 0,
        n >= 1,
        d >= 0,
        e >= 0,
        f >= 0,
        2 * p * d <= y + p,
        2 * p * e <= y + d + p,
        2 * p * f <= y + d + e + p * n,
    ensures
        p * (d + e + f) <= 4 * (y + n * p),
        d <= y + p,
        e <= y + p,
{
    assert(2 * d <= 2 * p * d) by (nonlinear_arith)
        requires
            p >= 1,
            d >= 0,
    ;
    assert(2 * e <= 2 * p * e) by (nonlinear_arith)
        requires
            p >= 1,
            e >= 0,
    ;
    assert(2 * (p * (d + e + f)) == 2 * p * d + 2 * p * e + 2 * p * f) by (nonlinear_arith);
    assert(p * n == n * p) by (nonlinear_arith);
    assert(n * p >= p) by (nonlinear_arith)
        requires
            n >= 1,
            p >= 1,
    ;
}

proof fn lemma_weighed_finite(a: Double, n: nat)
    requires
        amount(a),
        n < pow2(20),
    ensures
        !a.times(Double::of(n as int)).is_nan(),
        !a.times(Double::of(n as int)).is_infinite(),
{
    let u = pow2(1074);
    let c = Double::of(n as int);
    lemma2_to64();
    lemma2_to64_rest();
    lemma_pow2_pos(1074);
    lemma_pow2_pos(1174);
    lemma_pow2_adds(20, 1174);
    lemma_pow2_strictly_increases(1194, 2000);
    double_laws::small_naturals_are_exact(n);
    error_laws::lemma_finite_below(a, 1174);
    let m = a.magnitude();
    assert(m * n <= pow2(1174) * pow2(20)) by (nonlinear_arith)
        requires
            m <= pow2(1174),
            n <= pow2(20),
    ;
    assert(pow2(1174) * pow2(20) == pow2(20) * pow2(1174)) by (nonlinear_arith);
    assert(m * (n * u) <= pow2(2000) * u) by (nonlinear_arith)
        requires
            m * n <= pow2(2000),
    ;
    error_laws::lemma_stays_finite(m * (n * u), u);
    reveal(Double::times);
    double_laws::lemma_nearest_sign(a.negative() != c.negative(), m * (n * u), u);
}

/// A smoothed average, times its period, is the value and the last average for the rest of the
/// period.
pub proof fn smoothing_weighs_the_past(average: Double, value: Double, period: nat)
    requires
        amount(average),
        amount(value),
        0 < period < pow2(20),
    ensures
        ({
            let exact = average.units() * (period - 1) + value.units();
            pow2(50) * distance(
                indicators::smoothed(average, value, period).units() * period,
                exact,
            ) <= exact + period * pow2(52)
        }),
{
    let u = pow2(1074) as int;
    let p = pow2(52) as int;
    let n = (period - 1) as nat;
    let a = average.units();
    let v = value.units();
    let c = Double::of(n as int);
    let k = Double::of(period as int);
    lemma2_to64();
    lemma2_to64_rest();
    lemma_pow2_pos(1074);
    lemma_pow2_adds(1, 52);
    lemma_pow2_adds(2, 50);
    double_laws::small_naturals_are_exact(n);
    double_laws::small_naturals_are_exact(period);
    error_laws::lemma_finite_below(average, 1174);
    error_laws::lemma_finite_below(value, 1174);
    let y = a * n + v;
    assert(a * n >= 0) by (nonlinear_arith)
        requires
            a >= 0,
            n >= 0,
    ;
    // the weighed average
    lemma_weighed_finite(average, n);
    let m = average.times(c);
    error_laws::lemma_times_error(average, c);
    let d = distance(m.units(), a * n);
    assert(a * c.units() == (a * n) * u) by (nonlinear_arith)
        requires
            c.units() == n * u,
    ;
    error_laws::lemma_scaled_distance(m.units(), a * n, u);
    error_laws::lemma_scaled_distance(a * n, 0, u);
    assert(0 * u == 0);
    assert(2 * p * d <= a * n + p) by (nonlinear_arith)
        requires
            2 * p * (d * u) <= (a * n) * u + p * u,
            u > 0,
    ;
    // the sum
    lemma_pow2_pos(1174);
    lemma_pow2_adds(20, 1174);
    lemma_pow2_adds(3, 1194);
    lemma_pow2_strictly_increases(1174, 1197);
    lemma_pow2_strictly_increases(52, 1174);
    assert(a * n <= pow2(1174) * pow2(20)) by (nonlinear_arith)
        requires
            0 <= a <= pow2(1174),
            0 <= n <= pow2(20),
    ;
    assert(pow2(1174) * pow2(20) == pow2(20) * pow2(1174)) by (nonlinear_arith);
    assert(2 * d <= 2 * p * d) by (nonlinear_arith)
        requires
            p >= 1,
            d >= 0,
    ;
    assert(m.magnitude() <= pow2(1197));
    error_laws::lemma_plus_within(m, value, 1197);
    error_laws::lemma_plus_error(m, value);
    let s = m.plus(value);
    let e = distance(s.units(), m.units() + v);
    assert(distance(m.units() + v, 0) <= y + d);
    // the share
    lemma_quotient_within(s, period);
    error_laws::lemma_over_error(s, k);
    let q = s.over(k);
    let f = distance(q.units() * period, s.units());
    assert(q.units() * k.units() == (q.units() * period) * u) by (nonlinear_arith)
        requires
            k.units() == period * u,
    ;
    error_laws::lemma_scaled_distance(q.units() * period, s.units(), u);
    error_laws::lemma_scaled_distance(s.units(), 0, u);
    let size = distance(s.units(), 0);
    assert(2 * p * f <= size + p * period) by (nonlinear_arith)
        requires
            2 * p * (f * u) <= size * u + p * (period * u),
            u > 0,
    ;
    assert(size <= y + d + e);
    lemma_three_errors(p, y, period as int, d, e, f);
    let all = distance(q.units() * period, y);
    assert(all <= d + e + f);
    assert(4 * (pow2(50) * all) <= p * (d + e + f)) by (nonlinear_arith)
        requires
            p == 4 * pow2(50),
            all <= d + e + f,
    ;
}

proof fn lemma_quotient_within(s: Double, n: nat)
    requires
        error_laws::within(s, 1198),
        0 < n < pow2(20),
    ensures
        !s.over(Double::of(n as int)).is_nan(),
        !s.over(Double::of(n as int)).is_infinite(),
{
    let u = pow2(1074);
    let c = Double::of(n as int);
    lemma2_to64();
    lemma2_to64_rest();
    lemma_pow2_pos(1074);
    lemma_pow2_strictly_increases(1198, 2000);
    double_laws::small_naturals_are_exact(n);
    error_laws::lemma_finite_below(s, 1198);
    assert(n * u >= u) by (nonlinear_arith)
        requires
            n >= 1,
    ;
    assert(s.magnitude() * u <= pow2(2000) * (n * u)) by (nonlinear_arith)
        requires
            s.magnitude() <= pow2(2000),
            n * u >= u,
            u > 0,
    ;
    error_laws::lemma_stays_finite(s.magnitude() * u, c.magnitude());
    reveal(Double::over);
    double_laws::lemma_nearest_sign(s.negative() != c.negative(), s.magnitude() * u, c.magnitude());
}

/// The average true range, times its period, is the newest range and the last average for the rest
/// of the period.
pub proof fn true_ranges_are_smoothed(candles: Seq<Candle>, i: int, period: nat)
    requires
        0 < period < pow2(20),
        period <= i < candles.len(),
        amount(indicators::atr(candles, i - 1, period)),
        amount(indicators::true_range(candles, i)),
    ensures
        ({
            let last = indicators::atr(candles, i - 1, period).units();
            let exact = last * (period - 1) + indicators::true_range(candles, i).units();
            pow2(50) * distance(indicators::atr(candles, i, period).units() * period, exact)
                <= exact + period * pow2(52)
        }),
{
    assert(indicators::smoothed_range(candles, i - 1, period) == indicators::atr(
        candles,
        i - 1,
        period,
    ));
    smoothing_weighs_the_past(
        indicators::atr(candles, i - 1, period),
        indicators::true_range(candles, i),
        period,
    );
}

/// The average rise and the average fall follow the change of the close: the one by what it rose,
/// the other by what it fell, and each by nothing where the close went the other way.
pub proof fn changes_move_the_averages(candles: Seq<Candle>, i: int, period: nat)
    requires
        0 < period < pow2(20),
        period < i < candles.len(),
        amount(indicators::average_rise(candles, i - 1, period)),
        amount(indicators::average_fall(candles, i - 1, period)),
        error_laws::within(indicators::change(candles, i), 1174),
    ensures
        ({
            let change = indicators::change(candles, i).units();
            let rose = if change > 0 {
                change
            } else {
                0
            };
            let fell = if change < 0 {
                -change
            } else {
                0
            };
            let rise = indicators::average_rise(candles, i - 1, period).units() * (period - 1)
                + rose;
            let fall = indicators::average_fall(candles, i - 1, period).units() * (period - 1)
                + fell;
            &&& pow2(50) * distance(
                indicators::average_rise(candles, i, period).units() * period,
                rise,
            ) <= rise + period * pow2(52)
            &&& pow2(50) * distance(
                indicators::average_fall(candles, i, period).units() * period,
                fall,
            ) <= fall + period * pow2(52)
        }),
{
    let zero = Double::zero();
    let change = indicators::change(candles, i);
    assert(0nat * pow2(0) == 0);
    lemma_pow2_pos(1174);
    let rose = if zero.below(change) {
        change
    } else {
        zero
    };
    let fell = if change.below(zero) {
        change.absolute()
    } else {
        zero
    };
    lemma_absolute(change);
    smoothing_weighs_the_past(indicators::average_rise(candles, i - 1, period), rose, period);
    smoothing_weighs_the_past(indicators::average_fall(candles, i - 1, period), fell, period);
}

proof fn lemma_absolute(x: Double)
    ensures
        x.absolute().magnitude() == x.magnitude(),
        !x.absolute().negative(),
        x.absolute().is_nan() == x.is_nan(),
{
    assert(x.absolute().pattern() == x.pattern());
}

proof fn lemma_near_sum(x: int, y: int, v: int, w: int, k: nat)
    requires
        near(x, y, k),
        near(v, w, k),
        y >= 0,
        w >= 0,
    ensures
        near(x + v, y + w, k),
{
    let d = distance(x, y);
    let e = distance(v, w);
    let f = distance(x + v, y + w);
    assert(f <= d + e);
    assert(pow2(k) * f <= pow2(k) * d + pow2(k) * e) by (nonlinear_arith)
        requires
            f <= d + e,
            pow2(k) >= 0,
    ;
}

/// The weight of the newest value of an average, and what is left for the last average.
proof fn lemma_weights(period: nat)
    requires
        2 <= period < pow2(20),
    ensures
        ({
            let w = indicators::weight(period);
            let v = Double::of(1).minus(w);
            &&& !w.is_nan()
            &&& !w.negative()
            &&& pow2(900) <= w.magnitude() <= pow2(1400)
            &&& near(w.units() * (period + 1), 2 * (pow2(1074) as int), 52)
            &&& !v.is_nan()
            &&& !v.negative()
            &&& pow2(900) <= v.magnitude() <= pow2(1400)
            &&& near(v.units() * (period + 1), (period - 1) * (pow2(1074) as int), 48)
        }),
{
    let u = pow2(1074) as int;
    let n = (period + 1) as int;
    let two = Double::of(2);
    let one = Double::of(1);
    let k = Double::of(period as int).plus(one);
    lemma2_to64();
    lemma2_to64_rest();
    lemma_pow2_pos(1074);
    double_laws::small_naturals_are_exact(1);
    double_laws::small_naturals_are_exact(2);
    double_laws::small_naturals_are_exact(period);
    error_laws::lemma_plus_units(Double::of(period as int), one);
    assert(period * u + 1 * u == n * u) by (nonlinear_arith)
        requires
            n == period + 1,
    ;
    lemma_pow2_adds(21, 1074);
    lemma_pow2_strictly_increases(1095, 1400);
    lemma_pow2_strictly_increases(1400, 2090);
    assert(n * u <= pow2(21) * u) by (nonlinear_arith)
        requires
            n <= pow2(21),
            u > 0,
    ;
    assert(n * u >= 3 * u) by (nonlinear_arith)
        requires
            n >= 3,
            u > 0,
    ;
    double_laws::lemma_exact(n as nat, 1074);
    assert(k.units() == n * u);
    lemma_pow2_strictly_increases(800, 1074);
    lemma_pow2_strictly_increases(900, 1074);
    error_laws::lemma_over_moderate(two, k);
    let w = two.over(k);
    assert(w.units() * (n * u) == (w.units() * n) * u) by (nonlinear_arith);
    error_laws::lemma_near_unscaled(w.units() * n, 2 * u, u, 52);
    lemma_near_range(w.units() * n, 2 * u, 52);
    let x = w.units();
    assert(x * 3 <= x * n) by (nonlinear_arith)
        requires
            n >= 3,
            x >= 0,
    ;
    // the weight is between a share of one and two thirds of it
    lemma_pow2_adds(22, 1052);
    lemma_pow2_pos(1052);
    assert(x >= pow2(1052)) by {
        if x < pow2(1052) {
            assert(x * n < pow2(22) * pow2(1052)) by (nonlinear_arith)
                requires
                    0 <= x < pow2(1052),
                    0 <= n <= pow2(21),
                    pow2(21) < pow2(22),
            ;
        }
    }
    lemma_pow2_strictly_increases(900, 1052);
    let d = distance(x * n, 2 * u);
    let p = pow2(52) as int;
    assert(p * d <= 2 * u);
    assert(1000 * d <= p * d) by (nonlinear_arith)
        requires
            p >= 1000,
            d >= 0,
    ;
    assert(1000 * (3 * x) <= 1000 * (2 * u) + 2 * u);
    error_laws::lemma_finite_below(w, 1400);
    error_laws::lemma_minus_units(one, w);
    let v = one.minus(w);
    let t = u - x;
    assert(4 * t >= u);
    error_laws::lemma_rounded_monotone(t, u);
    assert(error_laws::rounded_units(u) == u) by {
        assert(1 * pow2(1074) == pow2(1074));
        lemma_pow2_strictly_increases(1074, 2090);
        double_laws::lemma_exact(1, 1074);
    }
    lemma_pow2_adds(2, 1072);
    assert(error_laws::rounded_units(pow2(1072) as int) == pow2(1072)) by {
        assert(1 * pow2(1072) == pow2(1072));
        lemma_pow2_strictly_increases(1072, 2090);
        lemma_pow2_pos(1072);
        double_laws::lemma_exact(1, 1072);
    }
    error_laws::lemma_rounded_monotone(pow2(1072) as int, t);
    lemma_pow2_strictly_increases(900, 1072);
    lemma_pow2_strictly_increases(1074, 1400);
    error_laws::lemma_finite_below(v, 1400);
    error_laws::lemma_minus_error(one, w);
    lemma_pow2_adds(1, 52);
    lemma_pow2_strictly_increases(52, 1074);
    lemma_rest(v.units(), x, u, n, p);
    lemma_pow2_adds(4, 48);
}

proof fn lemma_rest(v: int, x: int, u: int, n: int, p: int)
    requires
        n >= 3,
        p == pow2(52),
        0 < p < u,
        0 <= x <= u,
        p * distance(x * n, 2 * u) <= 2 * u,
        2 * p * distance(v, u - x) <= distance(u - x, 0) + p,
    ensures
        near(v * n, (n - 2) * u, 48),
{
    let d = distance(x * n, 2 * u);
    let e = distance(v, u - x);
    let f = distance(v * n, (n - 2) * u);
    error_laws::lemma_scaled_distance(v, u - x, n);
    assert((u - x) * n == n * u - x * n) by (nonlinear_arith);
    assert((n - 2) * u == n * u - 2 * u) by (nonlinear_arith);
    assert(f <= e * n + d) by {
        error_laws::lemma_triangle(v * n, (u - x) * n, (n - 2) * u);
        error_laws::lemma_distance_shift(x * n, 2 * u, n * u);
    }
    assert(2 * p * e <= 2 * u);
    assert(p * (e * n) <= u * n) by (nonlinear_arith)
        requires
            2 * p * e <= 2 * u,
            n >= 3,
    ;
    assert(p * f <= p * (e * n) + p * d) by (nonlinear_arith)
        requires
            f <= e * n + d,
            p > 0,
    ;
    assert(u * n == n * u) by (nonlinear_arith);
    assert(n * u >= 3 * u) by (nonlinear_arith)
        requires
            n >= 3,
            u > 0,
    ;
    lemma2_to64();
    lemma2_to64_rest();
    lemma_pow2_adds(4, 48);
    assert(16 * (pow2(48) * f) == p * f) by (nonlinear_arith)
        requires
            p == 16 * pow2(48),
    ;
}

/// A weighted number: so many shares of it.
proof fn lemma_weighted(a: Double, w: Double, n: int, shares: int, k: nat)
    requires
        ordinary(a),
        !w.is_nan(),
        !w.negative(),
        pow2(900) <= w.magnitude() <= pow2(1400),
        near(w.units() * n, shares * (pow2(1074) as int), k),
        2 <= k <= 52,
    ensures
        !a.times(w).is_nan(),
        !a.times(w).is_infinite(),
        !a.times(w).negative(),
        near(a.times(w).units() * n, a.units() * shares, (k - 2) as nat),
{
    let u = pow2(1074) as int;
    let m = a.times(w).units();
    lemma_pow2_pos(1074);
    lemma_pow2_strictly_increases(900, 974);
    lemma_pow2_strictly_increases(1174, 1400);
    error_laws::lemma_times_moderate(a, w);
    error_laws::lemma_near_weaker(m * u, a.units() * w.units(), 52, k);
    error_laws::lemma_near_scaled(m * u, a.units() * w.units(), n, k);
    error_laws::lemma_near_scaled(w.units() * n, shares * u, a.units(), k);
    assert((a.units() * w.units()) * n == (w.units() * n) * a.units()) by (nonlinear_arith);
    error_laws::lemma_near_chain((m * u) * n, (a.units() * w.units()) * n, (shares * u) * a.units(), k);
    assert((m * u) * n == (m * n) * u) by (nonlinear_arith);
    assert((shares * u) * a.units() == (a.units() * shares) * u) by (nonlinear_arith);
    error_laws::lemma_near_unscaled(m * n, a.units() * shares, u, (k - 2) as nat);
}

/// An exponential average, times one more than its period, is twice the newest value and the last
/// average for the rest.
pub proof fn blending_weighs_the_newest_twice(value: Double, average: Double, period: nat)
    requires
        ordinary(value),
        ordinary(average),
        2 <= period < pow2(20),
    ensures
        near(
            indicators::blended(value, average, indicators::weight(period)).units() * (period + 1),
            2 * value.units() + (period - 1) * average.units(),
            40,
        ),
{
    let w = indicators::weight(period);
    let v = Double::of(1).minus(w);
    let n = (period + 1) as int;
    let a = value.times(w);
    let b = average.times(v);
    let y = 2 * value.units();
    let z = (period - 1) * average.units();
    lemma2_to64();
    lemma2_to64_rest();
    lemma_weights(period);
    lemma_weighted(value, w, n, 2, 52);
    lemma_weighted(average, v, n, period - 1, 48);
    assert(value.units() * 2 == y);
    assert(average.units() * (period - 1) == z) by (nonlinear_arith)
        requires
            z == (period - 1) * average.units(),
    ;
    assert(z >= 0) by (nonlinear_arith)
        requires
            z == (period - 1) * average.units(),
            period >= 2,
            average.units() >= 0,
    ;
    error_laws::lemma_near_weaker(a.units() * n, y, 50, 46);
    lemma_near_sum(a.units() * n, y, b.units() * n, z, 46);
    let s = a.units() + b.units();
    assert(a.units() * n + b.units() * n == s * n) by (nonlinear_arith)
        requires
            s == a.units() + b.units(),
    ;
    // the sum itself
    let c = a.plus(b);
    lemma_near_range(a.units() * n, y, 46);
    lemma_near_range(b.units() * n, z, 46);
    lemma_pow2_pos(974);
    lemma_pow2_adds(1, 1174);
    lemma_pow2_adds(20, 1174);
    lemma_pow2_adds(2, 1194);
    assert(z <= pow2(20) * pow2(1174)) by (nonlinear_arith)
        requires
            z == (period - 1) * average.units(),
            0 <= period - 1 <= pow2(20),
            0 <= average.units() <= pow2(1174),
    ;
    lemma_pow2_strictly_increases(1175, 1194);
    assert(a.units() <= a.units() * n) by (nonlinear_arith)
        requires
            n >= 1,
            a.units() >= 0,
    ;
    assert(b.units() <= b.units() * n) by (nonlinear_arith)
        requires
            n >= 1,
            b.units() >= 0,
    ;
    error_laws::lemma_plus_within(a, b, 1196);
    error_laws::lemma_plus_error(a, b);
    // a is large enough for the half unit not to count
    lemma_pow2_adds(22, 952);
    lemma_pow2_strictly_increases(52, 952);
    lemma_pow2_pos(952);
    assert(a.units() >= pow2(952)) by {
        if a.units() < pow2(952) {
            assert(a.units() * n <= pow2(952) * pow2(21)) by (nonlinear_arith)
                requires
                    0 <= a.units() < pow2(952),
                    0 <= n <= pow2(21),
            ;
            assert(pow2(952) * pow2(21) == pow2(21) * pow2(952)) by (nonlinear_arith);
            assert(pow2(22) * pow2(952) == 2 * (pow2(21) * pow2(952))) by (nonlinear_arith)
                requires
                    pow2(22) == 2 * pow2(21),
            ;
        }
    }
    lemma_pow2_adds(1, 52);
    let g = distance(c.units(), s);
    assert(pow2(52) * g <= s) by (nonlinear_arith)
        requires
            pow2(53) * g <= s + pow2(52),
            pow2(53) == 2 * pow2(52),
            pow2(52) <= s,
    ;
    error_laws::lemma_near_weaker(c.units(), s, 52, 46);
    error_laws::lemma_near_scaled(c.units(), s, n, 46);
    error_laws::lemma_near_chain(c.units() * n, s * n, y + z, 46);
    error_laws::lemma_near_weaker(c.units() * n, y + z, 44, 40);
}

/// The exponential average of the closes starts at the first of them, and each further close counts
/// twice in one more than the period.
pub proof fn closes_move_the_average(candles: Seq<Candle>, i: int, period: nat)
    requires
        0 < i < candles.len(),
        ordinary(candles[i].close),
        ordinary(indicators::ema(candles, i - 1, period)),
        2 <= period < pow2(20),
    ensures
        indicators::ema(candles, 0, period) == candles[0].close,
        near(
            indicators::ema(candles, i, period).units() * (period + 1),
            2 * candles[i].close.units() + (period - 1) * indicators::ema(
                candles,
                i - 1,
                period,
            ).units(),
            40,
        ),
{
    blending_weighs_the_newest_twice(
        candles[i].close,
        indicators::ema(candles, i - 1, period),
        period,
    );
}

/// The distance of the averages is that of the average over twelve candles from the one over
/// twenty-six.
pub proof fn fast_averages_are_measured_from_slow_ones(candles: Seq<Candle>, i: int)
    requires
        error_laws::within(indicators::ema(candles, i, 12), 1200),
        error_laws::within(indicators::ema(candles, i, 26), 1200),
    ensures
        ({
            let fast = indicators::ema(candles, i, 12).units();
            let slow = indicators::ema(candles, i, 26).units();
            pow2(53) * distance(indicators::macd_line(candles, i).units(), fast - slow)
                <= distance(fast - slow, 0) + pow2(52)
        }),
{
    error_laws::lemma_minus_within(
        indicators::ema(candles, i, 12),
        indicators::ema(candles, i, 26),
        1200,
    );
    error_laws::lemma_finite_below(indicators::ema(candles, i, 12), 1200);
    error_laws::lemma_finite_below(indicators::ema(candles, i, 26), 1200);
    error_laws::lemma_minus_error(
        indicators::ema(candles, i, 12),
        indicators::ema(candles, i, 26),
    );
}

pub proof fn lemma_near_turned(x: int, y: int, k: nat)
    requires
        near(x, y, k),
        k >= 1,
    ensures
        near(y, x, (k - 1) as nat),
{
    let d = distance(x, y);
    let small = pow2((k - 1) as nat);
    lemma_pow2_adds(1, (k - 1) as nat);
    lemma_pow2_pos((k - 1) as nat);
    lemma2_to64();
    assert(distance(y, 0) <= distance(x, 0) + d);
    assert(small * d >= d) by (nonlinear_arith)
        requires
            small >= 1,
            d >= 0,
    ;
    assert(pow2(k) * d == 2 * (small * d)) by (nonlinear_arith)
        requires
            pow2(k) == 2 * small,
    ;
}

proof fn lemma_agrees_near(sum: int, exact: int, n: nat)
    requires
        agrees(sum, exact, n),
        n <= 128,
        exact >= pow2(52),
    ensures
        near(sum, exact, 44),
{
    let d = distance(sum, exact);
    lemma2_to64();
    lemma2_to64_rest();
    lemma_pow2_adds(8, 44);
    assert(256 * (pow2(44) * d) == pow2(52) * d) by (nonlinear_arith)
        requires
            pow2(52) == 256 * pow2(44),
    ;
    assert(n * (exact + pow2(52)) <= 128 * (2 * exact)) by (nonlinear_arith)
        requires
            n <= 128,
            exact >= pow2(52),
    ;
}

/// What was traded in the candles of `start..end`, at their typical prices, added up exactly.
pub open spec fn values_total(candles: Seq<Candle>, start: int, end: int) -> int
    decreases end - start,
{
    if end <= start {
        0
    } else {
        values_total(candles, start, end - 1) + indicators::typical(candles[end - 1]).times(
            candles[end - 1].volume,
        ).units()
    }
}

/// The volumes of the candles in `start..end`, added up exactly.
pub open spec fn volumes_total(candles: Seq<Candle>, start: int, end: int) -> int
    decreases end - start,
{
    if end <= start {
        0
    } else {
        volumes_total(candles, start, end - 1) + candles[end - 1].volume.units()
    }
}

/// A candle with a volume, and with what was traded in it.
pub open spec fn is_traded(c: Candle) -> bool {
    ordinary(c.volume) && ordinary(indicators::typical(c).times(c.volume))
}

proof fn lemma_traded(candles: Seq<Candle>, start: int, end: int)
    requires
        0 <= start <= end <= candles.len(),
        end - start < pow2(20),
        forall|k: int| start <= k < end ==> is_traded(#[trigger] candles[k]),
    ensures
        ({
            let value = indicators::traded_value(candles, start, end);
            let volume = indicators::traded_volume(candles, start, end);
            let n = (end - start) as nat;
            &&& !value.is_nan()
            &&& !value.is_infinite()
            &&& !volume.is_nan()
            &&& !volume.is_infinite()
            &&& 0 <= values_total(candles, start, end) <= n * pow2(1174)
            &&& 0 <= volumes_total(candles, start, end) <= n * pow2(1174)
            &&& start < end ==> pow2(974) <= values_total(candles, start, end)
            &&& start < end ==> pow2(974) <= volumes_total(candles, start, end)
            &&& agrees(value.units(), values_total(candles, start, end), n)
            &&& agrees(volume.units(), volumes_total(candles, start, end), n)
        }),
    decreases end - start,
{
    assert(0nat * pow2(0) == 0);
    assert(0 * pow2(1174) == 0);
    if start < end {
        let c = candles[end - 1];
        assert(is_traded(c));
        lemma_traded(candles, start, end - 1);
        let n = (end - 1 - start) as nat;
        lemma_sum_grows(
            indicators::traded_value(candles, start, end - 1),
            values_total(candles, start, end - 1),
            indicators::typical(c).times(c.volume),
            n,
        );
        lemma_sum_grows(
            indicators::traded_volume(candles, start, end - 1),
            volumes_total(candles, start, end - 1),
            c.volume,
            n,
        );
    } else {
        assert(pow2(52) * 0 == 0);
        assert(0 * (0 + pow2(52)) == 0);
    }
}

/// The average price by volume, times the volume of the last hundred and one candles, is what was
/// traded in them.
pub proof fn traded_values_are_volumes_at_the_average(candles: Seq<Candle>, i: int)
    requires
        0 <= i < candles.len(),
        forall|k: int| 0 <= k <= i ==> is_traded(#[trigger] candles[k]),
    ensures
        ({
            let start = if i < 101 {
                0
            } else {
                i - 100
            };
            near(
                indicators::vwap(candles, i).units() * volumes_total(candles, start, i + 1),
                values_total(candles, start, i + 1) * pow2(1074),
                36,
            )
        }),
{
    let start = indicators::window_start(i, 101);
    let u = pow2(1074) as int;
    let value = indicators::traded_value(candles, start, i + 1);
    let volume = indicators::traded_volume(candles, start, i + 1);
    let values = values_total(candles, start, i + 1);
    let volumes = volumes_total(candles, start, i + 1);
    let n = (i + 1 - start) as nat;
    lemma2_to64();
    lemma2_to64_rest();
    lemma_pow2_pos(1074);
    lemma_pow2_pos(973);
    assert(0nat * pow2(0) == 0);
    lemma_traded(candles, start, i + 1);
    lemma_pow2_strictly_increases(52, 974);
    lemma_agrees_near(value.units(), values, n);
    lemma_agrees_near(volume.units(), volumes, n);
    lemma_near_range(value.units(), values, 44);
    lemma_near_range(volume.units(), volumes, 44);
    lemma_pow2_adds(1, 973);
    lemma_pow2_strictly_increases(800, 973);
    lemma_pow2_strictly_increases(900, 973);
    lemma_pow2_adds(8, 1174);
    lemma_pow2_strictly_increases(1182, 1400);
    assert(n * pow2(1174) <= 128 * pow2(1174)) by (nonlinear_arith)
        requires
            n <= 128,
    ;
    error_laws::lemma_over_moderate(value, volume);
    let q = value.over(volume).units();
    // from the rounded totals to the exact ones
    lemma_near_turned(volume.units(), volumes, 44);
    error_laws::lemma_near_scaled(volumes, volume.units(), q, 43);
    assert(volumes * q == q * volumes) by (nonlinear_arith);
    assert(volume.units() * q == q * volume.units()) by (nonlinear_arith);
    error_laws::lemma_near_weaker(q * volume.units(), value.units() * u, 52, 43);
    error_laws::lemma_near_chain(q * volumes, q * volume.units(), value.units() * u, 43);
    error_laws::lemma_near_scaled(value.units(), values, u, 44);
    error_laws::lemma_near_weaker(value.units() * u, values * u, 44, 41);
    error_laws::lemma_near_chain(q * volumes, value.units() * u, values * u, 41);
    error_laws::lemma_near_weaker(q * volumes, values * u, 39, 36);
}

proof fn lemma_plus_near(a: Double, b: Double, k: nat)
    requires
        error_laws::within(a, k),
        error_laws::within(b, k),
        k < 2000,
        !a.negative(),
        !b.negative(),
        a.units() >= pow2(52),
    ensures
        !a.plus(b).is_nan(),
        !a.plus(b).is_infinite(),
        a.plus(b).units() > 0,
        error_laws::within(a.plus(b), k + 1),
        near(a.plus(b).units(), a.units() + b.units(), 52),
{
    let s = a.units() + b.units();
    error_laws::lemma_plus_within(a, b, k);
    lemma_pow2_strictly_increases(k, 2089);
    error_laws::lemma_finite_below(a, k);
    error_laws::lemma_finite_below(b, k);
    error_laws::lemma_plus_error(a, b);
    lemma_pow2_adds(1, 52);
    lemma_pow2_pos(52);
    lemma2_to64();
    let g = distance(a.plus(b).units(), s);
    assert(pow2(52) * g <= s) by (nonlinear_arith)
        requires
            pow2(53) * g <= s + pow2(52),
            pow2(53) == 2 * pow2(52),
            pow2(52) <= s,
    ;
    lemma_near_range(a.plus(b).units(), s, 52);
}

/// Three times the typical price of a candle is its high, its low and its close together.
pub proof fn typical_prices_are_thirds(c: Candle)
    requires
        ordinary(c.high),
        ordinary(c.low),
        ordinary(c.close),
    ensures
        near(
            indicators::typical(c).units() * 3,
            c.high.units() + c.low.units() + c.close.units(),
            45,
        ),
{
    let u = pow2(1074) as int;
    let y = c.high.units() + c.low.units();
    let z = c.close.units();
    let a = c.high.plus(c.low);
    let b = a.plus(c.close);
    let three = Double::of(3);
    lemma2_to64();
    lemma2_to64_rest();
    lemma_pow2_pos(1074);
    lemma_pow2_adds(1, 973);
    lemma_pow2_adds(1, 1174);
    lemma_pow2_adds(1, 972);
    lemma_pow2_pos(972);
    lemma_pow2_strictly_increases(52, 972);
    lemma_pow2_strictly_increases(800, 972);
    lemma_pow2_strictly_increases(900, 1074);
    lemma_pow2_strictly_increases(1176, 1400);
    lemma_pow2_adds(2, 1074);
    lemma_pow2_strictly_increases(1076, 1400);
    lemma_plus_near(c.high, c.low, 1174);
    lemma_near_range(a.units(), y, 52);
    lemma_plus_near(a, c.close, 1175);
    lemma_near_range(b.units(), a.units() + z, 52);
    assert(z * 1 == z);
    assert(pow2(52) * 0 == 0);
    lemma_near_sum(a.units(), y, z, z, 52);
    error_laws::lemma_near_chain(b.units(), a.units() + z, y + z, 52);
    double_laws::small_naturals_are_exact(3);
    error_laws::lemma_over_moderate(b, three);
    let q = b.over(three).units();
    assert(q * (3 * u) == (q * 3) * u) by (nonlinear_arith);
    error_laws::lemma_near_unscaled(q * 3, b.units(), u, 52);
    error_laws::lemma_near_weaker(q * 3, b.units(), 52, 50);
    error_laws::lemma_near_chain(q * 3, b.units(), y + z, 50);
    error_laws::lemma_near_weaker(q * 3, y + z, 48, 45);
}

/// The true ranges of the first `n` candles, added up exactly.
pub open spec fn ranges_total(candles: Seq<Candle>, n: int) -> int
    decreases n,
{
    if n <= 0 {
        0
    } else {
        ranges_total(candles, n - 1) + indicators::true_range(candles, n - 1).units()
    }
}

/// The changes of the closes at the candles `1..=n` that went one way, added up exactly.
pub open spec fn moves_total(candles: Seq<Candle>, n: int, up: bool) -> int
    decreases n,
{
    if n <= 0 {
        0
    } else {
        let change = indicators::change(candles, n).units();
        moves_total(candles, n - 1, up) + if up && change > 0 {
            change
        } else if !up && change < 0 {
            -change
        } else {
            0
        }
    }
}

proof fn lemma_range_sum(candles: Seq<Candle>, n: int)
    requires
        0 <= n < pow2(20),
        forall|k: int| 0 <= k < n ==> amount(#[trigger] indicators::true_range(candles, k)),
    ensures
        ({
            let sum = indicators::range_sum(candles, n);
            let exact = ranges_total(candles, n);
            &&& !sum.is_nan()
            &&& !sum.is_infinite()
            &&& 0 <= exact <= n * pow2(1174)
            &&& agrees(sum.units(), exact, n as nat)
        }),
    decreases n,
{
    assert(0nat * pow2(0) == 0);
    assert(0 * pow2(1174) == 0);
    if n > 0 {
        lemma_range_sum(candles, n - 1);
        lemma_sum_grows(
            indicators::range_sum(candles, n - 1),
            ranges_total(candles, n - 1),
            indicators::true_range(candles, n - 1),
            (n - 1) as nat,
        );
    } else {
        assert(pow2(52) * 0 == 0);
        assert(0 * (0 + pow2(52)) == 0);
    }
}

/// Before there is a full period the average true range, times how many candles there are, is the
/// total of their ranges.
pub proof fn first_ranges_share_the_total(candles: Seq<Candle>, i: int, period: nat)
    requires
        0 <= i < candles.len(),
        i < period < pow2(20),
        forall|k: int| 0 <= k <= i ==> amount(#[trigger] indicators::true_range(candles, k)),
    ensures
        ({
            let exact = ranges_total(candles, i + 1);
            pow2(50) * distance(indicators::atr(candles, i, period).units() * (i + 1), exact) <= (i
                + 1) * (exact + pow2(52))
        }),
{
    lemma_range_sum(candles, i + 1);
    lemma_shared(
        indicators::range_sum(candles, i + 1),
        ranges_total(candles, i + 1),
        (i + 1) as nat,
    );
}

proof fn lemma_moves(candles: Seq<Candle>, n: int)
    requires
        0 <= n < pow2(20),
        forall|k: int|
            0 < k <= n ==> error_laws::within(#[trigger] indicators::change(candles, k), 1174),
    ensures
        ({
            let rose = indicators::rises(candles, n);
            let fell = indicators::falls(candles, n);
            &&& !rose.is_nan()
            &&& !rose.is_infinite()
            &&& !fell.is_nan()
            &&& !fell.is_infinite()
            &&& 0 <= moves_total(candles, n, true) <= n * pow2(1174)
            &&& 0 <= moves_total(candles, n, false) <= n * pow2(1174)
            &&& agrees(rose.units(), moves_total(candles, n, true), n as nat)
            &&& agrees(fell.units(), moves_total(candles, n, false), n as nat)
        }),
    decreases n,
{
    assert(0nat * pow2(0) == 0);
    assert(0 * pow2(1174) == 0);
    if n > 0 {
        let change = indicators::change(candles, n);
        let rose = moves_total(candles, n - 1, true);
        let fell = moves_total(candles, n - 1, false);
        lemma_moves(candles, n - 1);
        assert(error_laws::within(change, 1174));
        lemma_absolute(change);
        lemma_pow2_pos(1174);
        let big = pow2(1174) as int;
        assert(n * big == (n - 1) * big + big) by (nonlinear_arith);
        lemma_agrees_longer(indicators::rises(candles, n - 1).units(), rose, (n - 1) as nat);
        lemma_agrees_longer(indicators::falls(candles, n - 1).units(), fell, (n - 1) as nat);
        if Double::zero().below(change) {
            lemma_sum_grows(indicators::rises(candles, n - 1), rose, change, (n - 1) as nat);
        } else {
            lemma_sum_grows(
                indicators::falls(candles, n - 1),
                fell,
                change.absolute(),
                (n - 1) as nat,
            );
        }
    } else {
        assert(pow2(52) * 0 == 0);
        assert(0 * (0 + pow2(52)) == 0);
    }
}

proof fn lemma_agrees_longer(sum: int, exact: int, n: nat)
    requires
        agrees(sum, exact, n),
        exact >= 0,
    ensures
        agrees(sum, exact, n + 1),
{
    assert((n + 1) * (exact + pow2(52)) >= n * (exact + pow2(52))) by (nonlinear_arith)
        requires
            exact >= 0,
    ;
}

/// At the end of the first period the average rise and the average fall, times the period, are all
/// that the closes rose and all that they fell.
pub proof fn first_moves_share_their_totals(candles: Seq<Candle>, period: nat)
    requires
        0 < period < pow2(20),
        period < candles.len(),
        forall|k: int|
            0 < k <= period ==> error_laws::within(#[trigger] indicators::change(candles, k), 1174),
    ensures
        ({
            let rose = moves_total(candles, period as int, true);
            let fell = moves_total(candles, period as int, false);
            let rise = indicators::average_rise(candles, period as int, period).units();
            let fall = indicators::average_fall(candles, period as int, period).units();
            &&& pow2(50) * distance(rise * period, rose) <= period * (rose + pow2(52))
            &&& pow2(50) * distance(fall * period, fell) <= period * (fell + pow2(52))
        }),
{
    lemma_moves(candles, period as int);
    lemma_shared(
        indicators::rises(candles, period as int),
        moves_total(candles, period as int, true),
        period,
    );
    lemma_shared(
        indicators::falls(candles, period as int),
        moves_total(candles, period as int, false),
        period,
    );
}

/// A change of the close is the close less the one before.
pub proof fn changes_are_measured_from_the_last_close(candles: Seq<Candle>, i: int)
    requires
        0 < i < candles.len(),
        error_laws::within(candles[i].close, 1200),
        error_laws::within(candles[i - 1].close, 1200),
    ensures
        ({
            let moved = candles[i].close.units() - candles[i - 1].close.units();
            pow2(53) * distance(indicators::change(candles, i).units(), moved) <= distance(moved, 0)
                + pow2(52)
        }),
{
    error_laws::lemma_minus_within(candles[i].close, candles[i - 1].close, 1200);
    error_laws::lemma_finite_below(candles[i].close, 1200);
    error_laws::lemma_finite_below(candles[i - 1].close, 1200);
    error_laws::lemma_minus_error(candles[i].close, candles[i - 1].close);
}

/// The squared distances of the closes in `start..end` from a basis, added up exactly.
pub open spec fn squares_total(candles: Seq<Candle>, start: int, end: int, basis: Double) -> int
    decreases end - start,
{
    if end <= start {
        0
    } else {
        let apart = candles[end - 1].close.minus(basis);
        squares_total(candles, start, end - 1, basis) + apart.times(apart).units()
    }
}

proof fn lemma_square_sum(candles: Seq<Candle>, start: int, end: int, basis: Double)
    requires
        0 <= start <= end <= candles.len(),
        end - start < pow2(20),
        forall|k: int|
            start <= k < end ==> amount(
                (#[trigger] candles[k]).close.minus(basis).times(candles[k].close.minus(basis)),
            ),
    ensures
        ({
            let sum = indicators::square_sum(candles, start, end, basis);
            let exact = squares_total(candles, start, end, basis);
            &&& !sum.is_nan()
            &&& !sum.is_infinite()
            &&& 0 <= exact <= (end - start) * pow2(1174)
            &&& agrees(sum.units(), exact, (end - start) as nat)
        }),
    decreases end - start,
{
    assert(0nat * pow2(0) == 0);
    assert(0 * pow2(1174) == 0);
    if start < end {
        lemma_square_sum(candles, start, end - 1, basis);
        let apart = candles[end - 1].close.minus(basis);
        assert(amount(apart.times(apart)));
        lemma_sum_grows(
            indicators::square_sum(candles, start, end - 1, basis),
            squares_total(candles, start, end - 1, basis),
            apart.times(apart),
            (end - 1 - start) as nat,
        );
    } else {
        assert(pow2(52) * 0 == 0);
        assert(0 * (0 + pow2(52)) == 0);
    }
}

/// The deviation is the root of the mean of the squared distances from the average: of the last
/// `period` closes, or of all where there are fewer.
pub proof fn deviations_are_roots_of_mean_squares(candles: Seq<Candle>, i: int, period: nat) -> (
    mean: Double)
    requires
        0 <= i < candles.len(),
        0 < period < pow2(20),
        forall|k: int|
            0 <= k <= i ==> {
                let apart = (#[trigger] candles[k]).close.minus(
                    indicators::sma(candles, i, period),
                );
                amount(apart.times(apart))
            },
    ensures
        indicators::deviation(candles, i, period) == mean.root(),
        ({
            let n = if i + 1 < period {
                i + 1
            } else {
                period as int
            };
            let exact = squares_total(
                candles,
                i + 1 - n,
                i + 1,
                indicators::sma(candles, i, period),
            );
            pow2(50) * distance(mean.units() * n, exact) <= n * (exact + pow2(52))
        }),
{
    let basis = indicators::sma(candles, i, period);
    let start = indicators::window_start(i, period as int);
    let n = (i + 1 - start) as nat;
    lemma_square_sum(candles, start, i + 1, basis);
    lemma_shared(
        indicators::square_sum(candles, start, i + 1, basis),
        squares_total(candles, start, i + 1, basis),
        n,
    );
    indicators::square_sum(candles, start, i + 1, basis).over(Double::of(n as int))
}

/// The bands lie on both sides of what they are laid around.
pub proof fn bands_lie_on_both_sides(basis: Double, width: Double)
    requires
        error_laws::within(basis, 1200),
        error_laws::within(width, 1200),
        width.units() >= 0,
    ensures
        basis.minus(width).at_most(basis),
        basis.at_most(basis.plus(width)),
{
    error_laws::lemma_finite_below(basis, 1200);
    error_laws::lemma_finite_below(width, 1200);
    error_laws::lemma_plus_units(basis, width);
    error_laws::lemma_minus_units(basis, width);
    error_laws::lemma_rounded_monotone(basis.units(), basis.units() + width.units());
    error_laws::lemma_rounded_monotone(basis.units() - width.units(), basis.units());
    error_laws::lemma_representable(basis.pattern());
}

} // verus!
