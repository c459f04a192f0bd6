//! Laws of the figures in exact arithmetic, and up to rounding.

use crate::double;
use crate::double::Double;
use crate::double_laws;
use crate::error_laws;
use crate::metrics;
use crate::metrics::{AdvancedMetrics, CurvePoint};
use crate::rounding;
use vstd::arithmetic::mul::*;
use vstd::arithmetic::power2::*;
use vstd::prelude::*;

verus! {

/// The exact sum of the first `n` numbers, in units of `2^-1074`.
pub open spec fn exact_sum(s: Seq<Double>, n: nat) -> int
    decreases n,
{
    if n == 0 {
        0
    } else {
        exact_sum(s, (n - 1) as nat) + s[n - 1].units()
    }
}

/// The exact distance of the `i`-th number from the mean, times the count of numbers.
pub open spec fn exact_distance(s: Seq<Double>, i: int) -> int {
    s.len() * s[i].units() - exact_sum(s, s.len())
}

/// The exact sum of the products of the distances of the first `n` numbers from their means.
pub open spec fn exact_cross(a: Seq<Double>, b: Seq<Double>, n: nat) -> int
    decreases n,
{
    if n == 0 {
        0
    } else {
        exact_cross(a, b, (n - 1) as nat) + exact_distance(a, n - 1) * exact_distance(b, n - 1)
    }
}

proof fn lemma_square(x: int)
    ensures
        x * x >= 0,
{
    assert(x * x >= 0) by (nonlinear_arith);
}

proof fn lemma_square_order(x: int, y: int)
    requires
        x * x <= y * y,
        y >= 0,
    ensures
        x <= y,
{
    if x > y {
        assert(x * x > y * y) by (nonlinear_arith)
            requires
                x > y,
                y >= 0,
        ;
    }
}

proof fn lemma_schwarz_step(p: int, a: int, b: int, x: int, y: int)
    requires
        p * p <= a * b,
        a >= 0,
        b >= 0,
    ensures
        (p + x * y) * (p + x * y) <= (a + x * x) * (b + y * y),
{
    let left = 2 * (p * (x * y));
    let right = a * (y * y) + b * (x * x);
    lemma_square(x);
    lemma_square(y);
    lemma_square(x * y);
    assert(a * (y * y) >= 0 && b * (x * x) >= 0) by (nonlinear_arith)
        requires
            a >= 0,
            b >= 0,
            x * x >= 0,
            y * y >= 0,
    ;
    assert(left * left == 4 * ((p * p) * ((x * y) * (x * y)))) by (nonlinear_arith)
        requires
            left == 2 * (p * (x * y)),
    ;
    assert((p * p) * ((x * y) * (x * y)) <= (a * b) * ((x * y) * (x * y))) by (nonlinear_arith)
        requires
            p * p <= a * b,
            (x * y) * (x * y) >= 0,
    ;
    let u = a * (y * y);
    let v = b * (x * x);
    assert((a * b) * ((x * y) * (x * y)) == u * v) by (nonlinear_arith)
        requires
            u == a * (y * y),
            v == b * (x * x),
    ;
    assert(4 * (u * v) <= (u + v) * (u + v)) by {
        lemma_square(u - v);
        assert((u + v) * (u + v) - 4 * (u * v) == (u - v) * (u - v)) by (nonlinear_arith);
    }
    lemma_square_order(left, right);
    assert((p + x * y) * (p + x * y) == p * p + left + (x * y) * (x * y)) by (nonlinear_arith)
        requires
            left == 2 * (p * (x * y)),
    ;
    assert((a + x * x) * (b + y * y) == a * b + right + (x * y) * (x * y)) by (nonlinear_arith)
        requires
            right == a * (y * y) + b * (x * x),
    ;
}

proof fn lemma_schwarz(a: Seq<Double>, b: Seq<Double>, n: nat)
    ensures
        exact_cross(a, a, n) >= 0,
        exact_cross(b, b, n) >= 0,
        exact_cross(a, b, n) * exact_cross(a, b, n) <= exact_cross(a, a, n) * exact_cross(b, b, n),
    decreases n,
{
    if n > 0 {
        let m = (n - 1) as nat;
        lemma_schwarz(a, b, m);
        let x = exact_distance(a, n - 1);
        let y = exact_distance(b, n - 1);
        lemma_square(x);
        lemma_square(y);
        lemma_schwarz_step(exact_cross(a, b, m), exact_cross(a, a, m), exact_cross(b, b, m), x, y);
    }
}

/// In exact arithmetic the correlation lies between minus one and one: the square of what stands
/// above the line is at most what stands under the root. It is symmetric, as the rounded one is,
/// and both are zero where the lists differ in length or are empty.
pub proof fn correlation_lies_within_one(a: Seq<Double>, b: Seq<Double>)
    ensures
        ({
            let above = exact_cross(a, b, a.len());
            &&& exact_cross(a, a, a.len()) >= 0
            &&& exact_cross(b, b, a.len()) >= 0
            &&& above * above <= exact_cross(a, a, a.len()) * exact_cross(b, b, a.len())
        }),
        exact_cross(a, b, a.len()) == exact_cross(b, a, a.len()),
        metrics::correlation(a, b) == metrics::correlation(b, a),
        a.len() == 0 || a.len() != b.len() ==> metrics::correlation(a, b) == Double::zero(),
{
    lemma_schwarz(a, b, a.len());
    lemma_exact_cross(a, b, a.len());
    metrics::correlation_is_symmetric(a, b);
}

proof fn lemma_exact_cross(a: Seq<Double>, b: Seq<Double>, n: nat)
    ensures
        exact_cross(a, b, n) == exact_cross(b, a, n),
    decreases n,
{
    if n > 0 {
        lemma_exact_cross(a, b, (n - 1) as nat);
        lemma_mul_is_commutative(exact_distance(a, n - 1), exact_distance(b, n - 1));
    }
}

/// The average change over its downside deviation, for one candle; none without a deviation.
pub open spec fn per_candle(eqs: Seq<Double>) -> Option<Double> {
    let n = (eqs.len() - 1) as nat;
    let deviation = metrics::downside_sum(eqs, n).over(Double::of(n - 1)).root();
    if eqs.len() > 2 && Double::zero().below(deviation) {
        Some(metrics::return_sum(eqs, n).over(Double::of(n as int)).over(deviation))
    } else {
        None
    }
}

/// The root of the number of candles in a year.
pub open spec fn yearly(timeframe: Seq<char>) -> Double {
    Double::of(metrics::candles_per_year(timeframe) as int).root()
}

/// The ratio of a timeframe is the figure for one candle, which knows no timeframe, times the root
/// of the candles per year, and zero without a figure.
pub proof fn sortino_is_a_figure_for_the_year(eqs: Seq<Double>, t: Seq<char>)
    ensures
        metrics::sortino_ratio(eqs, t) == match per_candle(eqs) {
            Some(figure) => figure.times(yearly(t)),
            None => Double::zero(),
        },
{
}

/// The timeframe touches no figure but the Sortino ratio.
pub proof fn timeframes_touch_only_the_ratio(
    curve: Seq<CurvePoint>,
    pnls: Seq<Double>,
    initial: Double,
    t: Seq<char>,
    w: Seq<char>,
)
    ensures
        metrics::advanced_metrics(curve, pnls, initial, t) == (AdvancedMetrics {
            sortino_ratio: metrics::sortino_ratio(metrics::equities(curve), t),
            ..metrics::advanced_metrics(curve, pnls, initial, w)
        }),
{
}

/// Between two timeframes the ratio scales by the root of the candles per year, up to the rounding
/// of the two products: crosswise, the ratios and the roots give the same product, but for half of
/// the last place of each ratio. A ratio that is no finite number has no last place.
pub proof fn sortino_scales_by_the_root_of_the_year(eqs: Seq<Double>, t: Seq<char>, w: Seq<char>)
    requires
        !metrics::sortino_ratio(eqs, t).is_nan(),
        !metrics::sortino_ratio(eqs, t).is_infinite(),
        !metrics::sortino_ratio(eqs, w).is_nan(),
        !metrics::sortino_ratio(eqs, w).is_infinite(),
    ensures
        ({
            let one = pow2(1074);
            let a = yearly(t).units();
            let b = yearly(w).units();
            let apart = error_laws::distance(
                metrics::sortino_ratio(eqs, t).units() * b,
                metrics::sortino_ratio(eqs, w).units() * a,
            );
            match per_candle(eqs) {
                Some(figure) => (pow2(53) * one) * apart <= 2 * error_laws::distance(
                    (figure.units() * a) * b,
                    0,
                ) + (pow2(52) * one) * (error_laws::distance(a, 0) + error_laws::distance(b, 0)),
                None => apart == 0,
            }
        }),
{
    if let Some(figure) = per_candle(eqs) {
        error_laws::lemma_times_error(figure, yearly(t));
        error_laws::lemma_times_error(figure, yearly(w));
        lemma_pow2_pos(1074);
        lemma_crosswise(
            metrics::sortino_ratio(eqs, t).units(),
            metrics::sortino_ratio(eqs, w).units(),
            yearly(t).units(),
            yearly(w).units(),
            figure.units(),
            pow2(1074) as int,
            pow2(53) as int,
            (pow2(52) * pow2(1074)) as int,
        );
    } else {
        assert(0nat * pow2(0) == 0);
        let a = yearly(t).units();
        let b = yearly(w).units();
        assert(0 * a == 0 && 0 * b == 0);
    }
}

/// Two products that are each near to the exact one are near to each other, crosswise.
proof fn lemma_crosswise(x: int, y: int, a: int, b: int, c: int, one: int, scale: int, slack: int)
    requires
        one > 0,
        scale >= 0,
        scale * error_laws::distance(x * one, c * a) <= error_laws::distance(c * a, 0) + slack,
        scale * error_laws::distance(y * one, c * b) <= error_laws::distance(c * b, 0) + slack,
    ensures
        (scale * one) * error_laws::distance(x * b, y * a) <= 2 * error_laws::distance(
            (c * a) * b,
            0,
        ) + slack * (error_laws::distance(a, 0) + error_laws::distance(b, 0)),
{
    let p = error_laws::distance(a, 0);
    let q = error_laws::distance(b, 0);
    let first = error_laws::distance(x * one, c * a);
    let second = error_laws::distance(y * one, c * b);
    let whole = error_laws::distance((c * a) * b, 0);
    error_laws::lemma_scaled_distance(x * one, c * a, b);
    error_laws::lemma_scaled_distance(y * one, c * b, a);
    error_laws::lemma_scaled_distance(c * a, 0, b);
    error_laws::lemma_scaled_distance(c * b, 0, a);
    error_laws::lemma_scaled_distance(x * b, y * a, one);
    assert((c * b) * a == (c * a) * b) by (nonlinear_arith);
    assert((x * one) * b == (x * b) * one) by (nonlinear_arith);
    assert((y * one) * a == (y * a) * one) by (nonlinear_arith);
    assert(0 * b == 0 && 0 * a == 0);
    let apart = error_laws::distance(x * b, y * a);
    assert(apart * one <= first * q + second * p);
    assert((scale * first) * q <= (error_laws::distance(c * a, 0) + slack) * q) by (nonlinear_arith)
        requires
            scale * first <= error_laws::distance(c * a, 0) + slack,
            q >= 0,
    ;
    assert((scale * second) * p <= (error_laws::distance(c * b, 0) + slack) * p)
        by (nonlinear_arith)
        requires
            scale * second <= error_laws::distance(c * b, 0) + slack,
            p >= 0,
    ;
    let ca = error_laws::distance(c * a, 0);
    let cb = error_laws::distance(c * b, 0);
    assert((ca + slack) * q == ca * q + slack * q) by (nonlinear_arith);
    assert((cb + slack) * p == cb * p + slack * p) by (nonlinear_arith);
    assert(slack * (p + q) == slack * p + slack * q) by (nonlinear_arith);
    assert((scale * one) * apart == scale * (apart * one)) by (nonlinear_arith);
    assert((scale * first) * q == scale * (first * q)) by (nonlinear_arith);
    assert((scale * second) * p == scale * (second * p)) by (nonlinear_arith);
    let fq = first * q;
    let sp = second * p;
    let ao = apart * one;
    assert(scale * ao <= scale * fq + scale * sp) by (nonlinear_arith)
        requires
            ao <= fq + sp,
            scale >= 0,
    ;
}

/// A point lies below the initial balance or a point before it.
pub open spec fn under_water(initial: Double, eqs: Seq<Double>, k: int) -> bool {
    eqs[k].below(initial) || exists|m: int| 0 <= m < k && eqs[k].below(#[trigger] eqs[m])
}

/// All points in `i..j` lie under water.
pub open spec fn stagnant(initial: Double, eqs: Seq<Double>, i: int, j: int) -> bool {
    forall|k: int| i <= k < j ==> under_water(initial, eqs, k)
}

/// None of the numbers is NaN.
pub open spec fn numbers(initial: Double, eqs: Seq<Double>) -> bool {
    !initial.is_nan() && forall|k: int| 0 <= k < eqs.len() ==> !(#[trigger] eqs[k]).is_nan()
}

proof fn lemma_level(initial: Double, eqs: Seq<Double>, n: nat)
    requires
        n <= eqs.len(),
        numbers(initial, eqs),
    ensures
        !metrics::level(initial, eqs, n).is_nan(),
        initial.at_most(metrics::level(initial, eqs, n)),
        forall|m: int| 0 <= m < n ==> (#[trigger] eqs[m]).at_most(metrics::level(initial, eqs, n)),
        metrics::level(initial, eqs, n) == initial || exists|m: int|
            0 <= m < n && metrics::level(initial, eqs, n) == #[trigger] eqs[m],
    decreases n,
{
    if n > 0 {
        lemma_level(initial, eqs, (n - 1) as nat);
        assert(!eqs[n - 1].is_nan());
    }
}

proof fn lemma_under_water(initial: Double, eqs: Seq<Double>, k: nat)
    requires
        k < eqs.len(),
        numbers(initial, eqs),
    ensures
        under_water(initial, eqs, k as int) <==> !metrics::level(initial, eqs, k).at_most(
            eqs[k as int],
        ),
{
    lemma_level(initial, eqs, k);
    assert(!eqs[k as int].is_nan());
}

proof fn lemma_run_is_stagnant(initial: Double, eqs: Seq<Double>, n: nat)
    requires
        n <= eqs.len(),
        numbers(initial, eqs),
    ensures
        ({
            let run = metrics::stagnant_run(initial, eqs, n);
            &&& run <= n
            &&& stagnant(initial, eqs, n - run, n as int)
            &&& run < n ==> !under_water(initial, eqs, n - run - 1)
        }),
    decreases n,
{
    if n > 0 {
        lemma_run_is_stagnant(initial, eqs, (n - 1) as nat);
        lemma_under_water(initial, eqs, (n - 1) as nat);
    }
}

proof fn lemma_largest_bounds(s: Seq<nat>)
    ensures
        forall|k: int| 0 <= k < s.len() ==> #[trigger] s[k] <= metrics::largest(s),
        s.len() > 0 ==> exists|k: int| 0 <= k < s.len() && #[trigger] s[k] == metrics::largest(s),
    decreases s.len(),
{
    if s.len() > 0 {
        let rest = s.drop_last();
        lemma_largest_bounds(rest);
        assert forall|k: int| 0 <= k < s.len() implies #[trigger] s[k] <= metrics::largest(s) by {
            if k < rest.len() {
                assert(rest[k] == s[k]);
            }
        }
        if metrics::largest(s) == s.last() {
            assert(s[s.len() - 1] == metrics::largest(s));
        } else {
            let k = choose|k: int| 0 <= k < rest.len() && #[trigger] rest[k] == metrics::largest(rest);
            assert(s[k] == metrics::largest(s));
        }
    }
}

proof fn lemma_ended(initial: Double, eqs: Seq<Double>, n: nat, i: int, j: int)
    requires
        n <= eqs.len(),
        numbers(initial, eqs),
    ensures
        0 <= i < j <= n && stagnant(initial, eqs, i, j) ==> j - i <= metrics::largest(
            metrics::ended_runs(initial, eqs, n),
        ) || j - i <= metrics::stagnant_run(initial, eqs, n),
        forall|k: int|
            0 <= k < metrics::ended_runs(initial, eqs, n).len() ==> exists|a: int, b: int|
                0 <= a < b <= n && #[trigger] stagnant(initial, eqs, a, b)
                    && #[trigger] metrics::ended_runs(initial, eqs, n)[k] == b - a,
    decreases n,
{
    if n > 0 {
        let m = (n - 1) as nat;
        let before = metrics::ended_runs(initial, eqs, m);
        let now = metrics::ended_runs(initial, eqs, n);
        let run = metrics::stagnant_run(initial, eqs, m);
        lemma_ended(initial, eqs, m, i, j);
        lemma_under_water(initial, eqs, m);
        lemma_run_is_stagnant(initial, eqs, m);
        lemma_largest_bounds(before);
        lemma_largest_bounds(now);
        assert(before.push(run).drop_last() =~= before);
        if 0 <= i < j <= n && stagnant(initial, eqs, i, j) && j == n {
            assert(under_water(initial, eqs, m as int));
            lemma_run_is_stagnant(initial, eqs, n);
            let whole = metrics::stagnant_run(initial, eqs, n);
            if whole < n && i < n - whole {
                assert(under_water(initial, eqs, n - whole - 1));
            }
        }
        assert forall|k: int| 0 <= k < now.len() implies exists|a: int, b: int|
            0 <= a < b <= n && #[trigger] stagnant(initial, eqs, a, b) && #[trigger] now[k] == b - a by {
            if k < before.len() {
                assert(now[k] == before[k]);
                let (a, b) = choose|a: int, b: int|
                    0 <= a < b <= m && #[trigger] stagnant(initial, eqs, a, b) && before[k] == b - a;
                assert(stagnant(initial, eqs, a, b) && now[k] == b - a);
            } else {
                assert(stagnant(initial, eqs, m - run, m as int) && now[k] == m - (m - run));
            }
        }
    }
}

/// The longest stagnation is the longest row of points that each lie below the initial balance or a
/// point before them: no such row is longer, and one is as long.
pub proof fn longest_stagnation_is_the_longest_row(initial: Double, eqs: Seq<Double>)
    requires
        numbers(initial, eqs),
    ensures
        ({
            let longest = metrics::largest(metrics::stagnations(initial, eqs));
            &&& forall|i: int, j: int|
                0 <= i < j <= eqs.len() && #[trigger] stagnant(initial, eqs, i, j) ==> j - i
                    <= longest
            &&& longest > 0 ==> exists|i: int, j: int|
                0 <= i < j <= eqs.len() && #[trigger] stagnant(initial, eqs, i, j) && j - i
                    == longest
        }),
{
    let n = eqs.len();
    let ended = metrics::ended_runs(initial, eqs, n);
    let run = metrics::stagnant_run(initial, eqs, n);
    let all = metrics::stagnations(initial, eqs);
    let longest = metrics::largest(all);
    assert(ended.push(run).drop_last() =~= ended);
    lemma_largest_bounds(all);
    lemma_largest_bounds(ended);
    lemma_run_is_stagnant(initial, eqs, n);
    assert forall|i: int, j: int|
        0 <= i < j <= eqs.len() && #[trigger] stagnant(initial, eqs, i, j) implies j - i
        <= longest by {
        lemma_ended(initial, eqs, n, i, j);
    }
    if longest > 0 {
        lemma_ended(initial, eqs, n, 0, 0);
        let k = choose|k: int| 0 <= k < all.len() && #[trigger] all[k] == longest;
        if k < ended.len() {
            assert(ended[k] == all[k]);
            let (a, b) = choose|a: int, b: int|
                0 <= a < b <= n && #[trigger] stagnant(initial, eqs, a, b) && ended[k] == b - a;
            assert(stagnant(initial, eqs, a, b) && b - a == longest);
        } else {
            assert(stagnant(initial, eqs, n - run, n as int) && n - (n - run) == longest);
        }
    }
}

/// The longest stagnation bounds every stagnation and is one of them, so that it is never shorter
/// than the average.
pub proof fn longest_stagnation_bounds_all(initial: Double, eqs: Seq<Double>)
    ensures
        ({
            let all = metrics::stagnations(initial, eqs);
            let longest = metrics::largest(all);
            &&& forall|k: int| 0 <= k < all.len() ==> #[trigger] all[k] <= longest
            &&& all.len() > 0 ==> exists|k: int| 0 <= k < all.len() && #[trigger] all[k] == longest
            &&& metrics::total(all) <= longest * all.len()
        }),
{
    let all = metrics::stagnations(initial, eqs);
    lemma_largest_bounds(all);
    lemma_total_bound(all, metrics::largest(all));
}

proof fn lemma_total_bound(s: Seq<nat>, bound: nat)
    requires
        forall|k: int| 0 <= k < s.len() ==> #[trigger] s[k] <= bound,
    ensures
        metrics::total(s) <= bound * s.len(),
    decreases s.len(),
{
    if s.len() > 0 {
        assert forall|k: int| 0 <= k < s.drop_last().len() implies #[trigger] s.drop_last()[k]
            <= bound by {
            assert(s.drop_last()[k] == s[k]);
        }
        lemma_total_bound(s.drop_last(), bound);
        assert(s.last() == s[s.len() - 1]);
        assert(bound * s.len() == bound * (s.len() - 1) + bound) by (nonlinear_arith);
    } else {
        assert(bound * 0 == 0);
    }
}

/// How many of the first `n` points lie under water.
pub open spec fn points_under_water(initial: Double, eqs: Seq<Double>, n: nat) -> nat
    decreases n,
{
    if n == 0 {
        0
    } else {
        points_under_water(initial, eqs, (n - 1) as nat) + (if under_water(initial, eqs, n - 1) {
            1nat
        } else {
            0
        })
    }
}

proof fn lemma_total_of_runs(initial: Double, eqs: Seq<Double>, n: nat)
    requires
        n <= eqs.len(),
        numbers(initial, eqs),
    ensures
        metrics::total(metrics::ended_runs(initial, eqs, n)) + metrics::stagnant_run(
            initial,
            eqs,
            n,
        ) == points_under_water(initial, eqs, n),
    decreases n,
{
    if n > 0 {
        let m = (n - 1) as nat;
        lemma_total_of_runs(initial, eqs, m);
        lemma_under_water(initial, eqs, m);
        let before = metrics::ended_runs(initial, eqs, m);
        let run = metrics::stagnant_run(initial, eqs, m);
        assert(before.push(run).drop_last() =~= before);
    }
}

/// Every point under water belongs to one stagnation, and no other point does.
pub proof fn stagnations_hold_the_points_under_water(initial: Double, eqs: Seq<Double>)
    requires
        numbers(initial, eqs),
    ensures
        metrics::total(metrics::stagnations(initial, eqs)) == points_under_water(
            initial,
            eqs,
            eqs.len(),
        ),
{
    lemma_total_of_runs(initial, eqs, eqs.len());
    let ended = metrics::ended_runs(initial, eqs, eqs.len());
    let run = metrics::stagnant_run(initial, eqs, eqs.len());
    assert(ended.push(run).drop_last() =~= ended);
}

/// All numbers are finite.
pub open spec fn finite_numbers(initial: Double, eqs: Seq<Double>) -> bool {
    &&& numbers(initial, eqs)
    &&& !initial.is_infinite()
    &&& forall|k: int| 0 <= k < eqs.len() ==> !(#[trigger] eqs[k]).is_infinite()
}

proof fn lemma_peak(initial: Double, eqs: Seq<Double>, n: nat)
    requires
        n <= eqs.len(),
        finite_numbers(initial, eqs),
    ensures
        ({
            let top = metrics::peak(initial, eqs, n);
            &&& !top.is_nan()
            &&& !top.is_infinite()
            &&& initial.at_most(top)
            &&& forall|m: int| 0 <= m < n ==> (#[trigger] eqs[m]).at_most(top)
            &&& top == initial || exists|m: int| 0 <= m < n && top == #[trigger] eqs[m]
        }),
    decreases n,
{
    if n > 0 {
        lemma_peak(initial, eqs, (n - 1) as nat);
        assert(!eqs[n - 1].is_nan() && !eqs[n - 1].is_infinite());
    }
}

/// The deepest fall is no less than the fall from the initial balance or any point to a later one,
/// and is one of them, or nothing.
pub proof fn deepest_fall_bounds_every_fall(initial: Double, eqs: Seq<Double>, i: int, j: int)
    requires
        0 <= i <= j < eqs.len(),
        finite_numbers(initial, eqs),
    ensures
        ({
            let fall = metrics::drawdown(initial, eqs, eqs.len());
            &&& eqs[i].minus(eqs[j]).at_most(fall)
            &&& initial.minus(eqs[j]).at_most(fall)
            &&& fall == Double::zero() || is_fall(initial, eqs, eqs.len(), fall)
        }),
{
    lemma_falls(initial, eqs, eqs.len(), i, j);
}

proof fn lemma_falls(initial: Double, eqs: Seq<Double>, n: nat, i: int, j: int)
    requires
        n <= eqs.len(),
        finite_numbers(initial, eqs),
    ensures
        ({
            let fall = metrics::drawdown(initial, eqs, n);
            &&& !fall.is_nan()
            &&& 0 <= i <= j < n ==> eqs[i].minus(eqs[j]).at_most(fall)
            &&& 0 <= i <= j < n ==> initial.minus(eqs[j]).at_most(fall)
            &&& fall == Double::zero() || is_fall(initial, eqs, n, fall)
        }),
    decreases n,
{
    assert(0nat * pow2(0) == 0);
    if n > 0 {
        let m = (n - 1) as nat;
        lemma_falls(initial, eqs, m, i, j);
        lemma_peak(initial, eqs, n);
        let top = metrics::peak(initial, eqs, n);
        let last = eqs[n - 1];
        assert(!last.is_nan() && !last.is_infinite());
        let now = top.minus(last);
        error_laws::lemma_minus_units(top, last);
        let fall = metrics::drawdown(initial, eqs, n);
        if 0 <= i <= j < n {
            assert(!eqs[i].is_nan() && !eqs[i].is_infinite());
            assert(!eqs[j].is_nan() && !eqs[j].is_infinite());
            error_laws::lemma_minus_units(eqs[i], eqs[j]);
            error_laws::lemma_minus_units(initial, eqs[j]);
            if j == n - 1 {
                error_laws::lemma_rounded_monotone(
                    eqs[i].units() - last.units(),
                    top.units() - last.units(),
                );
                error_laws::lemma_rounded_monotone(
                    initial.units() - last.units(),
                    top.units() - last.units(),
                );
            }
        }
        if fall == now {
            if top == initial {
                assert(falls_by(initial, eqs, n - 1, n - 1, fall));
            } else {
                let a = choose|a: int| 0 <= a < n && top == #[trigger] eqs[a];
                assert(falls_by(initial, eqs, a, n - 1, fall));
            }
        } else if fall != Double::zero() {
            let (a, b) = choose|a: int, b: int|
                0 <= a <= b < m && #[trigger] falls_by(initial, eqs, a, b, fall);
            assert(falls_by(initial, eqs, a, b, fall));
        }
    }
}

/// A fall from a point, or from the initial balance, to a point.
pub open spec fn falls_by(initial: Double, eqs: Seq<Double>, a: int, b: int, fall: Double) -> bool {
    fall == eqs[a].minus(eqs[b]) || fall == initial.minus(eqs[b])
}

/// A fall to one of the first `n` points, from one at or before it or from the initial balance.
pub open spec fn is_fall(initial: Double, eqs: Seq<Double>, n: nat, fall: Double) -> bool {
    exists|a: int, b: int| 0 <= a <= b < n && #[trigger] falls_by(initial, eqs, a, b, fall)
}

/// The deepest fall in shares of the peak is no less than that of any point, and is that of one, or
/// nothing.
pub proof fn deepest_share_bounds_every_share(initial: Double, eqs: Seq<Double>, j: int)
    requires
        0 <= j < eqs.len(),
        finite_numbers(initial, eqs),
        Double::zero().below(initial),
    ensures
        ({
            let share = metrics::drawdown_share(initial, eqs, eqs.len());
            let top = metrics::peak(initial, eqs, (j + 1) as nat);
            &&& top.minus(eqs[j]).over(top).at_most(share) || top.minus(eqs[j]).is_infinite()
            &&& share == Double::zero() || exists|b: nat|
                b < eqs.len() && share == (#[trigger] metrics::peak(initial, eqs, b + 1)).minus(
                    eqs[b as int],
                ).over(metrics::peak(initial, eqs, b + 1))
        }),
{
    lemma_shares(initial, eqs, eqs.len(), j);
}

proof fn lemma_shares(initial: Double, eqs: Seq<Double>, n: nat, j: int)
    requires
        n <= eqs.len(),
        finite_numbers(initial, eqs),
        Double::zero().below(initial),
    ensures
        ({
            let share = metrics::drawdown_share(initial, eqs, n);
            let top = metrics::peak(initial, eqs, (j + 1) as nat);
            &&& !share.is_nan()
            &&& 0 <= j < n ==> top.minus(eqs[j]).over(top).at_most(share) || top.minus(
                eqs[j],
            ).is_infinite()
            &&& share == Double::zero() || exists|b: nat|
                b < n && share == (#[trigger] metrics::peak(initial, eqs, b + 1)).minus(
                    eqs[b as int],
                ).over(metrics::peak(initial, eqs, b + 1))
        }),
    decreases n,
{
    assert(0nat * pow2(0) == 0);
    if n > 0 {
        let m = (n - 1) as nat;
        lemma_shares(initial, eqs, m, j);
        lemma_peak(initial, eqs, n);
        let top = metrics::peak(initial, eqs, n);
        let last = eqs[n - 1];
        assert(!last.is_nan() && !last.is_infinite());
        error_laws::lemma_minus_units(top, last);
        let now = top.minus(last).over(top);
        assert(top.units() > 0);
        assert(!now.is_nan()) by {
            reveal(Double::over);
            double_laws::lemma_nearest_sign(
                top.minus(last).negative() != top.negative(),
                top.minus(last).magnitude() * pow2(1074),
                top.magnitude(),
            );
            assert(!Double::infinity(true).is_nan());
            assert(!Double::infinity(false).is_nan());
        }
        let share = metrics::drawdown_share(initial, eqs, n);
        if share == now {
            assert(share == metrics::peak(initial, eqs, m + 1).minus(eqs[m as int]).over(
                metrics::peak(initial, eqs, m + 1),
            ));
        } else if share != Double::zero() {
            let b = choose|b: nat|
                b < m && share == (#[trigger] metrics::peak(initial, eqs, b + 1)).minus(
                    eqs[b as int],
                ).over(metrics::peak(initial, eqs, b + 1));
            assert(metrics::peak(initial, eqs, b + 1) == metrics::peak(initial, eqs, b + 1));
        }
    }
}

/// The recovery goes with the result of the run: not below zero where the run ends no lower than it
/// began, and not above it where it ends no higher.
pub proof fn recovery_goes_with_the_result(initial: Double, eqs: Seq<Double>)
    requires
        eqs.len() > 0,
        finite_numbers(initial, eqs),
        !metrics::recovery_factor(initial, eqs).is_nan(),
        !metrics::drawdown(initial, eqs, eqs.len()).is_infinite(),
        !eqs.last().minus(initial).is_infinite(),
    ensures
        initial.at_most(eqs.last()) ==> Double::zero().at_most(
            metrics::recovery_factor(initial, eqs),
        ),
        eqs.last().at_most(initial) ==> metrics::recovery_factor(initial, eqs).at_most(
            Double::zero(),
        ),
{
    assert(0nat * pow2(0) == 0);
    let last = eqs.last();
    assert(last == eqs[eqs.len() - 1]);
    assert(!last.is_nan() && !last.is_infinite());
    let fall = metrics::drawdown(initial, eqs, eqs.len());
    let d = last.minus(initial);
    error_laws::lemma_minus_units(last, initial);
    error_laws::lemma_rounded_zero();
    let zero = Double::zero();
    if zero.below(fall) {
        lemma_nothing_over(fall);
        if initial.at_most(last) {
            error_laws::lemma_rounded_monotone(0, last.units() - initial.units());
            error_laws::lemma_over_monotone(zero, d, fall);
        }
        if last.at_most(initial) {
            error_laws::lemma_rounded_monotone(last.units() - initial.units(), 0);
            error_laws::lemma_over_monotone(d, zero, fall);
        }
    }
}

proof fn lemma_nothing_over(c: Double)
    requires
        !c.is_nan(),
        !c.is_infinite(),
        c.units() > 0,
    ensures
        Double::zero().over(c).units() == 0,
{
    reveal(Double::over);
    assert(0nat * pow2(0) == 0);
    assert(0nat * pow2(1074) == 0);
    double_laws::lemma_nearest_sign(false, 0, c.magnitude());
    double_laws::lemma_nothing_nearest(false, c.magnitude());
}

/// The share of gains is the count of results above zero over the count of all, in percent: every
/// result is either a gain or not, and gains alone make a hundred.
pub proof fn winrate_counts_the_gains(pnls: Seq<Double>)
    requires
        0 < pnls.len() < pow2(40),
    ensures
        ({
            let wins = metrics::win_count(pnls, pnls.len());
            &&& wins == pnls.filter(|x: Double| Double::zero().below(x)).len()
            &&& wins > 0 ==> error_laws::near(
                metrics::winrate(pnls).units() * pnls.len(),
                ((100 * wins) * pow2(1074)) as int,
                48,
            )
            &&& wins == 0 ==> metrics::winrate(pnls).units() == 0
        }),
{
    let n = pnls.len();
    let wins = metrics::win_count(pnls, n);
    lemma_wins(pnls, n);
    assert(pnls.take(n as int) =~= pnls);
    lemma_win_bound(pnls, n);
    let u = pow2(1074) as int;
    lemma2_to64();
    lemma2_to64_rest();
    lemma_pow2_pos(1074);
    assert(pow2(40) == 0x100_0000_0000);
    double_laws::small_naturals_are_exact(n);
    double_laws::small_naturals_are_exact(wins);
    double_laws::small_naturals_are_exact(100);
    let a = Double::of(wins as int);
    let b = Double::of(n as int);
    let c = Double::of(100);
    let q = a.over(b);
    if wins == 0 {
        assert(0nat * pow2(1074) == 0);
        assert(0nat * pow2(0) == 0);
        assert(b.units() > 0) by (nonlinear_arith)
            requires
                b.units() == n * u,
                n > 0,
                u > 0,
        ;
        assert(a.units() == 0);
        lemma_zero_share(a, b, c);
    } else {
        lemma_pow2_adds(40, 1074);
        lemma_pow2_strictly_increases(1114, 1400);
        lemma_pow2_strictly_increases(800, 1074);
        lemma_pow2_strictly_increases(900, 1074);
        assert(u <= wins * u <= pow2(40) * u) by (nonlinear_arith)
            requires
                1 <= wins < pow2(40),
                u > 0,
        ;
        assert(u <= n * u <= pow2(40) * u) by (nonlinear_arith)
            requires
                1 <= n < pow2(40),
                u > 0,
        ;
        error_laws::lemma_over_moderate(a, b);
        let x = q.units();
        assert((wins * u) * u == wins * u * u) by (nonlinear_arith);
        assert(x * (n * u) == (x * n) * u) by (nonlinear_arith);
        error_laws::lemma_near_unscaled(x * n, wins * u, u, 52);
        assert(pow2(52) == 0x10_0000_0000_0000);
        lemma_rate_range(x, n as int, wins as int, u);
        lemma_pow2_adds(7, 1074);
        lemma_pow2_strictly_increases(1081, 1400);
        error_laws::lemma_times_loose(q, c);
        let r = q.times(c).units();
        assert(x * (100 * u) == (100 * x) * u) by (nonlinear_arith);
        error_laws::lemma_near_unscaled(r, 100 * x, u, 52);
        error_laws::lemma_near_scaled(r, 100 * x, n as int, 52);
        error_laws::lemma_near_scaled(x * n, wins * u, 100, 52);
        assert((100 * x) * n == (x * n) * 100) by (nonlinear_arith);
        assert((wins * u) * 100 == (100 * wins) * u) by (nonlinear_arith);
        error_laws::lemma_near_chain(r * n, (x * n) * 100, (100 * wins) * u, 52);
        error_laws::lemma_near_weaker(r * n, (100 * wins) * u, 50, 48);
    }
}

proof fn lemma_zero_share(a: Double, b: Double, c: Double)
    requires
        !a.is_nan(),
        !a.is_infinite(),
        !a.negative(),
        a.units() == 0,
        !b.is_nan(),
        !b.is_infinite(),
        b.units() > 0,
        !c.is_nan(),
        !c.is_infinite(),
        c.units() > 0,
    ensures
        a.over(b).times(c).units() == 0,
{
    reveal(Double::over);
    reveal(Double::times);
    lemma_pow2_pos(1074);
    assert(0nat * pow2(0) == 0);
    assert(0nat * pow2(1074) == 0);
    double_laws::lemma_nearest_sign(false, 0, b.magnitude());
    double_laws::lemma_nothing_nearest(false, b.magnitude());
    assert(0nat * c.magnitude() == 0);
    double::lemma_pattern_order(0, rounding::INFINITE as nat);
    double_laws::lemma_nearest_sign(false, 0, pow2(1074));
    double_laws::lemma_nothing_nearest(false, pow2(1074));
}

proof fn lemma_rate_range(x: int, n: int, wins: int, u: int)
    requires
        u == pow2(1074),
        1 <= n < pow2(40),
        1 <= wins < pow2(40),
        0x10_0000_0000_0000 * error_laws::distance(x * n, wins * u) <= error_laws::distance(
            wins * u,
            0,
        ),
    ensures
        pow2(800) <= x <= pow2(1400),
{
    lemma_pow2_pos(1074);
    lemma2_to64();
    lemma2_to64_rest();
    lemma_pow2_adds(40, 1033);
    lemma_pow2_adds(1, 1073);
    lemma_pow2_strictly_increases(800, 1033);
    lemma_pow2_adds(41, 1074);
    lemma_pow2_strictly_increases(1115, 1400);
    let y = wins * u;
    assert(u <= y <= pow2(40) * u) by (nonlinear_arith)
        requires
            1 <= wins < pow2(40),
            u > 0,
            y == wins * u,
    ;
    assert(y <= 2 * (x * n) && x * n <= 2 * y);
    let low = pow2(1033) as int;
    assert(x >= low) by (nonlinear_arith)
        requires
            u <= 2 * (x * n),
            u == 2 * (pow2(40) * low),
            n <= pow2(40),
            n >= 1,
            low > 0,
    ;
    assert(x <= x * n) by (nonlinear_arith)
        requires
            x >= 0,
            n >= 1,
    ;
}

proof fn lemma_win_bound(pnls: Seq<Double>, n: nat)
    ensures
        metrics::win_count(pnls, n) <= n,
    decreases n,
{
    if n > 0 {
        lemma_win_bound(pnls, (n - 1) as nat);
    }
}

proof fn lemma_wins(pnls: Seq<Double>, n: nat)
    requires
        n <= pnls.len(),
    ensures
        metrics::win_count(pnls, n) == pnls.take(n as int).filter(
            |x: Double| Double::zero().below(x),
        ).len(),
    decreases n,
{
    let gain = |x: Double| Double::zero().below(x);
    reveal(Seq::filter);
    if n == 0 {
        assert(pnls.take(0).filter(gain).len() == 0);
    } else {
        lemma_wins(pnls, (n - 1) as nat);
        assert(pnls.take(n as int).drop_last() =~= pnls.take(n - 1));
        assert(pnls.take(n as int).last() == pnls[n - 1]);
    }
}

/// A further gain never lowers the gains over the losses, and leaves the losses as they are; a
/// further loss leaves the gains as they are.
pub proof fn gains_and_losses_are_kept_apart(pnls: Seq<Double>, x: Double)
    requires
        !x.is_nan(),
    ensures
        ({
            let n = pnls.len();
            let more = pnls.push(x);
            &&& Double::zero().below(x) ==> {
                &&& metrics::win_sum(more, n + 1) == metrics::win_sum(pnls, n).plus(x)
                &&& metrics::loss_sum(more, n + 1) == metrics::loss_sum(pnls, n)
                &&& metrics::win_count(more, n + 1) == metrics::win_count(pnls, n) + 1
            }
            &&& x.at_most(Double::zero()) ==> {
                &&& metrics::win_sum(more, n + 1) == metrics::win_sum(pnls, n)
                &&& metrics::loss_sum(more, n + 1) == metrics::loss_sum(pnls, n).plus(x)
                &&& metrics::win_count(more, n + 1) == metrics::win_count(pnls, n)
            }
        }),
{
    let n = pnls.len();
    let more = pnls.push(x);
    lemma_sums_of_prefix(pnls, more, n);
}

proof fn lemma_sums_of_prefix(a: Seq<Double>, b: Seq<Double>, n: nat)
    requires
        n <= a.len(),
        n <= b.len(),
        forall|i: int| 0 <= i < n ==> #[trigger] a[i] == b[i],
    ensures
        metrics::win_sum(a, n) == metrics::win_sum(b, n),
        metrics::loss_sum(a, n) == metrics::loss_sum(b, n),
        metrics::win_count(a, n) == metrics::win_count(b, n),
    decreases n,
{
    if n > 0 {
        lemma_sums_of_prefix(a, b, (n - 1) as nat);
        assert(a[n - 1] == b[n - 1]);
    }
}

/// The profit factor times the losses is the gains, up to rounding; gains without losses count as
/// 99.9, and without either there is none.
pub proof fn profit_factor_weighs_gains_against_losses(pnls: Seq<Double>)
    ensures
        ({
            let gains = metrics::win_sum(pnls, pnls.len());
            let losses = metrics::loss_sum(pnls, pnls.len()).absolute();
            let factor = metrics::profit_factor(pnls);
            &&& error_laws::moderate(gains) && error_laws::moderate(losses) ==> error_laws::near(
                factor.units() * losses.units(),
                gains.units() * pow2(1074),
                52,
            )
            &&& losses.units() == 0 && !losses.is_nan() && Double::zero().below(gains)
                ==> error_laws::near(factor.units() * 10, (999 * pow2(1074)) as int, 52)
        }),
{
    lemma2_to64();
    lemma2_to64_rest();
    assert(0nat * pow2(0) == 0);
    let gains = metrics::win_sum(pnls, pnls.len());
    let losses = metrics::loss_sum(pnls, pnls.len()).absolute();
    error_laws::lemma_ratio_near(999, 10);
    lemma_pow2_pos(974);
    lemma_pow2_strictly_increases(800, 974);
    lemma_pow2_strictly_increases(900, 974);
    lemma_pow2_strictly_increases(1174, 1400);
    if error_laws::moderate(gains) && error_laws::moderate(losses) {
        error_laws::lemma_over_moderate(gains, losses);
    }
}

/// A run that never falls has no downside, and so no ratio.
pub proof fn no_fall_no_ratio(eqs: Seq<Double>, timeframe: Seq<char>)
    requires
        eqs.len() > 2,
        forall|i: int|
            0 <= i < eqs.len() - 1 ==> !(#[trigger] metrics::step_return(eqs, i)).below(
                Double::zero(),
            ),
    ensures
        metrics::sortino_ratio(eqs, timeframe) == Double::zero(),
{
    let n = (eqs.len() - 1) as nat;
    lemma_no_downside(eqs, n);
    let sum = metrics::downside_sum(eqs, n);
    let count = Double::of(n - 1);
    let share = sum.over(count);
    assert(0nat * pow2(0) == 0);
    assert(!Double::zero().below(share.root())) by {
        lemma_pow2_pos(1074);
        double_laws::lemma_nearest_sign(false, ((n - 1) as nat) * pow2(1074), 1);
        assert(share.is_nan() || share.magnitude() == 0) by {
            reveal(Double::over);
            assert(Double::nan().is_nan());
            assert(0nat * pow2(1074) == 0);
            double_laws::lemma_nearest_sign(sum.negative() != count.negative(), 0, count.magnitude());
            double_laws::lemma_nearest_sign(sum.negative() != count.negative(), 0, 1);
            double_laws::lemma_nothing_nearest(false, 1);
            double_laws::lemma_nothing_nearest(true, 1);
            if count.magnitude() > 0 {
                double_laws::lemma_nothing_nearest(false, count.magnitude());
                double_laws::lemma_nothing_nearest(true, count.magnitude());
            }
        }
        reveal(Double::root);
        assert(Double::nan().is_nan());
    }
}

proof fn lemma_no_downside(eqs: Seq<Double>, n: nat)
    requires
        n < eqs.len(),
        forall|i: int|
            0 <= i < eqs.len() - 1 ==> !(#[trigger] metrics::step_return(eqs, i)).below(
                Double::zero(),
            ),
    ensures
        !metrics::downside_sum(eqs, n).is_nan(),
        metrics::downside_sum(eqs, n).magnitude() == 0,
    decreases n,
{
    assert(0nat * pow2(0) == 0);
    assert(Double::empty_sum().pattern() == 0);
    if n > 0 {
        lemma_no_downside(eqs, (n - 1) as nat);
        assert(!metrics::step_return(eqs, n - 1).below(Double::zero()));
        let before = metrics::downside_sum(eqs, (n - 1) as nat);
        assert(!before.is_infinite()) by {
            if before.is_infinite() {
                double::lemma_pattern_order(0, rounding::INFINITE as nat);
            }
        }
        error_laws::lemma_plus_units(before, Double::zero());
        error_laws::lemma_rounded_zero();
    }
}

} // verus!
