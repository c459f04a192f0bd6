//! Figures that describe a finished or running simulation.

use crate::double::{Double, SIGN};
use crate::double_laws;
use crate::text::same_text;
use vstd::prelude::*;
use vstd::string::*;

verus! {

/// A point of the equity curve, with the actions of its step and their prices.
#[derive(Debug, Clone)]
pub struct CurvePoint {
    pub time: String,
    pub equity: Double,
    pub buy_and_hold: Double,
    pub actions: String,
    pub prices: String,
}

/// The equities of a curve.
pub open spec fn equities(curve: Seq<CurvePoint>) -> Seq<Double> {
    curve.map_values(|p: CurvePoint| p.equity)
}

/// What the market alone would have made of the balance.
pub open spec fn holdings(curve: Seq<CurvePoint>) -> Seq<Double> {
    curve.map_values(|p: CurvePoint| p.buy_and_hold)
}

/// The sum of the first `n` numbers.
pub open spec fn sum(s: Seq<Double>, n: nat) -> Double
    decreases n,
{
    if n == 0 {
        Double::empty_sum()
    } else {
        sum(s, (n - 1) as nat).plus(s[n - 1])
    }
}

/// The average of a list.
pub open spec fn mean(s: Seq<Double>) -> Double {
    sum(s, s.len()).over(Double::of(s.len() as int))
}

/// The sum of the products of the distances from two centres.
pub open spec fn cross_sum(a: Seq<Double>, ca: Double, b: Seq<Double>, cb: Double, n: nat) -> Double
    decreases n,
{
    if n == 0 {
        Double::zero()
    } else {
        cross_sum(a, ca, b, cb, (n - 1) as nat).plus(
            a[n - 1].minus(ca).times(b[n - 1].minus(cb)),
        )
    }
}

/// The linear correlation of two lists: zero where they differ in length, are empty or constant.
pub open spec fn correlation(a: Seq<Double>, b: Seq<Double>) -> Double {
    if a.len() == 0 || a.len() != b.len() {
        Double::zero()
    } else {
        let ma = mean(a);
        let mb = mean(b);
        let num = cross_sum(a, ma, b, mb, a.len());
        let den_a = cross_sum(a, ma, a, ma, a.len());
        let den_b = cross_sum(b, mb, b, mb, a.len());
        if den_a.equals(Double::zero()) || den_b.equals(Double::zero()) {
            Double::zero()
        } else {
            num.over(den_a.times(den_b).root())
        }
    }
}

fn sum_of(s: &[Double]) -> (r: Double)
    ensures
        r == sum(s@, s@.len()),
{
    let mut total = Double { bits: SIGN };
    let mut n: usize = 0;
    while n < s.len()
        invariant
            n <= s@.len(),
            total == sum(s@, n as nat),
        decreases s@.len() - n,
    {
        total = total.add(s[n]);
        n = n + 1;
    }
    total
}

/// The linear correlation of two lists.
pub fn calculate_correlation(series_a: &[Double], series_b: &[Double]) -> (r: Double)
    ensures
        r == correlation(series_a@, series_b@),
{
    let n = series_a.len();
    let zero = Double { bits: 0 };
    if n == 0 || n != series_b.len() {
        return zero;
    }
    let mean_a = sum_of(series_a).div(Double::from_u64(n as u64));
    let mean_b = sum_of(series_b).div(Double::from_u64(n as u64));
    let mut num = zero;
    let mut den_a = zero;
    let mut den_b = zero;
    let mut i: usize = 0;
    while i < n
        invariant
            i <= n,
            n == series_a@.len(),
            n == series_b@.len(),
            num == cross_sum(series_a@, mean_a, series_b@, mean_b, i as nat),
            den_a == cross_sum(series_a@, mean_a, series_a@, mean_a, i as nat),
            den_b == cross_sum(series_b@, mean_b, series_b@, mean_b, i as nat),
        decreases n - i,
    {
        let diff_a = series_a[i].sub(mean_a);
        let diff_b = series_b[i].sub(mean_b);
        num = num.add(diff_a.mul(diff_b));
        den_a = den_a.add(diff_a.mul(diff_a));
        den_b = den_b.add(diff_b.mul(diff_b));
        i = i + 1;
    }
    if den_a.eq_value(zero) || den_b.eq_value(zero) {
        return zero;
    }
    num.div(den_a.mul(den_b).sqrt())
}

/// How many of the first `n` results are gains.
pub open spec fn win_count(pnls: Seq<Double>, n: nat) -> nat
    decreases n,
{
    if n == 0 {
        0
    } else if Double::zero().below(pnls[n - 1]) {
        win_count(pnls, (n - 1) as nat) + 1
    } else {
        win_count(pnls, (n - 1) as nat)
    }
}

/// The sum of the gains among the first `n` results.
pub open spec fn win_sum(pnls: Seq<Double>, n: nat) -> Double
    decreases n,
{
    if n == 0 {
        Double::empty_sum()
    } else if Double::zero().below(pnls[n - 1]) {
        win_sum(pnls, (n - 1) as nat).plus(pnls[n - 1])
    } else {
        win_sum(pnls, (n - 1) as nat)
    }
}

/// The sum of the losses among the first `n` results; a result of zero counts as one.
pub open spec fn loss_sum(pnls: Seq<Double>, n: nat) -> Double
    decreases n,
{
    if n == 0 {
        Double::empty_sum()
    } else if pnls[n - 1].at_most(Double::zero()) {
        loss_sum(pnls, (n - 1) as nat).plus(pnls[n - 1])
    } else {
        loss_sum(pnls, (n - 1) as nat)
    }
}

/// The share of gains in percent.
pub open spec fn winrate(pnls: Seq<Double>) -> Double {
    if pnls.len() > 0 {
        Double::of(win_count(pnls, pnls.len()) as int).over(Double::of(pnls.len() as int)).times(
            Double::of(100),
        )
    } else {
        Double::zero()
    }
}

/// The gains over the losses, 99.9 where there are gains alone.
pub open spec fn profit_factor(pnls: Seq<Double>) -> Double {
    let profit = win_sum(pnls, pnls.len());
    let loss = loss_sum(pnls, pnls.len()).absolute();
    if Double::zero().below(loss) {
        profit.over(loss)
    } else if Double::zero().below(profit) {
        Double::ratio_of(999, 10)
    } else {
        Double::zero()
    }
}

/// The highest equity up to the `n`-th point.
pub open spec fn peak(initial: Double, eqs: Seq<Double>, n: nat) -> Double
    decreases n,
{
    if n == 0 {
        initial
    } else {
        let before = peak(initial, eqs, (n - 1) as nat);
        if before.below(eqs[n - 1]) {
            eqs[n - 1]
        } else {
            before
        }
    }
}

/// The deepest fall below the peak among the first `n` points.
pub open spec fn drawdown(initial: Double, eqs: Seq<Double>, n: nat) -> Double
    decreases n,
{
    if n == 0 {
        Double::zero()
    } else {
        let before = drawdown(initial, eqs, (n - 1) as nat);
        let now = peak(initial, eqs, n).minus(eqs[n - 1]);
        if before.below(now) {
            now
        } else {
            before
        }
    }
}

/// The same as a share of the peak.
pub open spec fn drawdown_share(initial: Double, eqs: Seq<Double>, n: nat) -> Double
    decreases n,
{
    if n == 0 {
        Double::zero()
    } else {
        let before = drawdown_share(initial, eqs, (n - 1) as nat);
        let now = peak(initial, eqs, n).minus(eqs[n - 1]).over(peak(initial, eqs, n));
        if before.below(now) {
            now
        } else {
            before
        }
    }
}

/// The gain over the deepest fall.
pub open spec fn recovery_factor(initial: Double, eqs: Seq<Double>) -> Double {
    let fall = drawdown(initial, eqs, eqs.len());
    let last = if eqs.len() > 0 {
        eqs.last()
    } else {
        initial
    };
    if Double::zero().below(fall) {
        last.minus(initial).over(fall)
    } else {
        Double::zero()
    }
}

/// The change from point `i` to the next as a share.
pub open spec fn step_return(eqs: Seq<Double>, i: int) -> Double {
    eqs[i + 1].minus(eqs[i]).over(eqs[i])
}

/// The sum of the first `n` changes.
pub open spec fn return_sum(eqs: Seq<Double>, n: nat) -> Double
    decreases n,
{
    if n == 0 {
        Double::empty_sum()
    } else {
        return_sum(eqs, (n - 1) as nat).plus(step_return(eqs, n - 1))
    }
}

/// The sum of the squares of the falls among the first `n` changes.
pub open spec fn downside_sum(eqs: Seq<Double>, n: nat) -> Double
    decreases n,
{
    if n == 0 {
        Double::empty_sum()
    } else {
        let r = step_return(eqs, n - 1);
        downside_sum(eqs, (n - 1) as nat).plus(
            if r.below(Double::zero()) {
                r.times(r)
            } else {
                Double::zero()
            },
        )
    }
}

/// How many candles of a timeframe a year has; one for an unknown timeframe.
pub open spec fn candles_per_year(timeframe: Seq<char>) -> nat {
    if timeframe == "1h"@ {
        24 * 365
    } else if timeframe == "4h"@ {
        6 * 365
    } else if timeframe == "1d"@ {
        365
    } else {
        1
    }
}

/// The average change over its downside deviation, for a year.
pub open spec fn sortino_ratio(eqs: Seq<Double>, timeframe: Seq<char>) -> Double {
    let n = (eqs.len() - 1) as nat;
    let deviation = downside_sum(eqs, n).over(Double::of(n - 1)).root();
    if eqs.len() > 2 && Double::zero().below(deviation) {
        return_sum(eqs, n).over(Double::of(n as int)).over(deviation).times(
            Double::of(candles_per_year(timeframe) as int).root(),
        )
    } else {
        Double::zero()
    }
}

/// The level that the `n`-th point has to reach to end a stagnation.
pub open spec fn level(initial: Double, eqs: Seq<Double>, n: nat) -> Double
    decreases n,
{
    if n == 0 {
        initial
    } else {
        let before = level(initial, eqs, (n - 1) as nat);
        if before.at_most(eqs[n - 1]) {
            eqs[n - 1]
        } else {
            before
        }
    }
}

/// How many points in a row, up to the `n`-th, stay below the level.
pub open spec fn stagnant_run(initial: Double, eqs: Seq<Double>, n: nat) -> nat
    decreases n,
{
    if n == 0 {
        0
    } else if level(initial, eqs, (n - 1) as nat).at_most(eqs[n - 1]) {
        0
    } else {
        stagnant_run(initial, eqs, (n - 1) as nat) + 1
    }
}

/// The lengths of the stagnations that ended within the first `n` points.
pub open spec fn ended_runs(initial: Double, eqs: Seq<Double>, n: nat) -> Seq<nat>
    decreases n,
{
    if n == 0 {
        Seq::empty()
    } else {
        let before = ended_runs(initial, eqs, (n - 1) as nat);
        let run = stagnant_run(initial, eqs, (n - 1) as nat);
        if level(initial, eqs, (n - 1) as nat).at_most(eqs[n - 1]) && run > 0 {
            before.push(run)
        } else {
            before
        }
    }
}

/// The lengths of all stagnations, one that still lasts included.
pub open spec fn stagnations(initial: Double, eqs: Seq<Double>) -> Seq<nat> {
    let ended = ended_runs(initial, eqs, eqs.len());
    let run = stagnant_run(initial, eqs, eqs.len());
    if run > 0 {
        ended.push(run)
    } else {
        ended
    }
}

/// The largest number of a list, zero for an empty one.
pub open spec fn largest(s: Seq<nat>) -> nat
    decreases s.len(),
{
    if s.len() == 0 {
        0
    } else {
        let before = largest(s.drop_last());
        if s.last() > before {
            s.last()
        } else {
            before
        }
    }
}

/// The sum of a list.
pub open spec fn total(s: Seq<nat>) -> nat
    decreases s.len(),
{
    if s.len() == 0 {
        0
    } else {
        total(s.drop_last()) + s.last()
    }
}

/// The average of a list, zero for an empty one.
pub open spec fn average_length(s: Seq<nat>) -> Double {
    if s.len() > 0 {
        Double::of(total(s) as int).over(Double::of(s.len() as int))
    } else {
        Double::zero()
    }
}

/// The figures of a simulation.
#[derive(Debug, Clone, Copy, PartialEq, Eq, Structural)]
pub struct AdvancedMetrics {
    pub winrate: Double,
    pub profit_factor: Double,
    pub max_drawdown: Double,
    pub recovery_factor: Double,
    pub sortino_ratio: Double,
    pub max_stagnation: usize,
    pub avg_stagnation: Double,
    pub correlation: Double,
}

fn equities_of(curve: &Vec<CurvePoint>) -> (r: Vec<Double>)
    ensures
        r@ == equities(curve@),
{
    let mut out: Vec<Double> = Vec::new();
    let mut i: usize = 0;
    while i < curve.len()
        invariant
            i <= curve@.len(),
            out@ =~= equities(curve@).take(i as int),
        decreases curve@.len() - i,
    {
        out.push(curve[i].equity);
        i = i + 1;
    }
    assert(equities(curve@).take(curve@.len() as int) =~= equities(curve@));
    out
}

fn holdings_of(curve: &Vec<CurvePoint>) -> (r: Vec<Double>)
    ensures
        r@ == holdings(curve@),
{
    let mut out: Vec<Double> = Vec::new();
    let mut i: usize = 0;
    while i < curve.len()
        invariant
            i <= curve@.len(),
            out@ =~= holdings(curve@).take(i as int),
        decreases curve@.len() - i,
    {
        out.push(curve[i].buy_and_hold);
        i = i + 1;
    }
    assert(holdings(curve@).take(curve@.len() as int) =~= holdings(curve@));
    out
}

/// The share of gains in percent, and the gains over the losses.
pub fn trade_figures(pnls: &Vec<Double>) -> (r: (Double, Double))
    ensures
        r.0 == winrate(pnls@),
        r.1 == profit_factor(pnls@),
{
    let zero = Double { bits: 0 };
    let mut wins: u64 = 0;
    let mut profit = Double { bits: SIGN };
    let mut loss = Double { bits: SIGN };
    let mut n: usize = 0;
    while n < pnls.len()
        invariant
            n <= pnls@.len(),
            wins <= n,
            zero == Double::zero(),
            wins == win_count(pnls@, n as nat),
            profit == win_sum(pnls@, n as nat),
            loss == loss_sum(pnls@, n as nat),
        decreases pnls@.len() - n,
    {
        let p = pnls[n];
        if zero.lt(p) {
            wins = wins + 1;
            profit = profit.add(p);
        }
        if p.le(zero) {
            loss = loss.add(p);
        }
        n = n + 1;
    }
    let rate = if pnls.len() > 0 {
        Double::from_u64(wins).div(Double::from_u64(pnls.len() as u64)).mul(Double::from_u64(100))
    } else {
        zero
    };
    let gross_loss = loss.abs();
    let factor = if zero.lt(gross_loss) {
        profit.div(gross_loss)
    } else if zero.lt(profit) {
        Double::ratio(999, 10)
    } else {
        zero
    };
    (rate, factor)
}

/// The deepest fall as a share of the peak, and the gain over the deepest fall.
pub fn drawdown_figures(initial: Double, eqs: &Vec<Double>) -> (r: (Double, Double))
    ensures
        r.0 == drawdown_share(initial, eqs@, eqs@.len()),
        r.1 == recovery_factor(initial, eqs@),
{
    let zero = Double { bits: 0 };
    let mut high = initial;
    let mut share = zero;
    let mut fall = zero;
    let mut n: usize = 0;
    while n < eqs.len()
        invariant
            n <= eqs@.len(),
            high == peak(initial, eqs@, n as nat),
            share == drawdown_share(initial, eqs@, n as nat),
            fall == drawdown(initial, eqs@, n as nat),
        decreases eqs@.len() - n,
    {
        let eq = eqs[n];
        if high.lt(eq) {
            high = eq;
        }
        let dd_pct = high.sub(eq).div(high);
        if share.lt(dd_pct) {
            share = dd_pct;
        }
        let dd_usd = high.sub(eq);
        if fall.lt(dd_usd) {
            fall = dd_usd;
        }
        n = n + 1;
    }
    let current = if eqs.len() > 0 {
        eqs[eqs.len() - 1]
    } else {
        initial
    };
    let recovery = if zero.lt(fall) {
        current.sub(initial).div(fall)
    } else {
        zero
    };
    (share, recovery)
}

/// How many candles of a timeframe a year has.
pub fn yearly_candles(timeframe: &str) -> (r: u64)
    ensures
        r == candles_per_year(timeframe@),
{
    if same_text(timeframe, "1h") {
        24 * 365
    } else if same_text(timeframe, "4h") {
        6 * 365
    } else if same_text(timeframe, "1d") {
        365
    } else {
        1
    }
}

/// The average change over its downside deviation, for a year.
pub fn calculate_sortino(eqs: &Vec<Double>, timeframe: &str) -> (r: Double)
    ensures
        r == sortino_ratio(eqs@, timeframe@),
{
    let zero = Double { bits: 0 };
    if eqs.len() <= 2 {
        return zero;
    }
    let count: usize = eqs.len() - 1;
    let mut changes = Double { bits: SIGN };
    let mut downside = Double { bits: SIGN };
    let mut n: usize = 0;
    while n < count
        invariant
            n <= count,
            count == eqs@.len() - 1,
            zero == Double::zero(),
            changes == return_sum(eqs@, n as nat),
            downside == downside_sum(eqs@, n as nat),
        decreases count - n,
    {
        let r = eqs[n + 1].sub(eqs[n]).div(eqs[n]);
        changes = changes.add(r);
        downside = downside.add(
            if r.lt(zero) {
                r.mul(r)
            } else {
                zero
            },
        );
        n = n + 1;
    }
    let average = changes.div(Double::from_u64(count as u64));
    let deviation = downside.div(Double::from_u64((count - 1) as u64)).sqrt();
    if zero.lt(deviation) {
        average.div(deviation).mul(Double::from_u64(yearly_candles(timeframe)).sqrt())
    } else {
        zero
    }
}

/// The longest stagnation and the average of all.
pub fn stagnation_figures(initial: Double, eqs: &Vec<Double>) -> (r: (usize, Double))
    ensures
        r.0 == largest(stagnations(initial, eqs@)),
        r.1 == average_length(stagnations(initial, eqs@)),
{
    let mut high = initial;
    let mut current: usize = 0;
    let mut longest: usize = 0;
    let mut points: usize = 0;
    let mut count: usize = 0;
    let mut n: usize = 0;
    let ghost mut periods: Seq<nat> = Seq::empty();
    while n < eqs.len()
        invariant
            n <= eqs@.len(),
            high == level(initial, eqs@, n as nat),
            current == stagnant_run(initial, eqs@, n as nat),
            periods == ended_runs(initial, eqs@, n as nat),
            longest == largest(periods),
            points == total(periods),
            count == periods.len(),
            longest <= points,
            points + current <= n,
            count <= points,
        decreases eqs@.len() - n,
    {
        let eq = eqs[n];
        if high.le(eq) {
            if current > 0 {
                proof {
                    assert(periods.push(current as nat).drop_last() =~= periods);
                    periods = periods.push(current as nat);
                }
                if current > longest {
                    longest = current;
                }
                points = points + current;
                count = count + 1;
                current = 0;
            }
            high = eq;
        } else {
            current = current + 1;
        }
        n = n + 1;
    }
    if current > 0 {
        proof {
            assert(periods.push(current as nat).drop_last() =~= periods);
            periods = periods.push(current as nat);
        }
        if current > longest {
            longest = current;
        }
        points = points + current;
        count = count + 1;
    }
    let average = if count > 0 {
        Double::from_u64(points as u64).div(Double::from_u64(count as u64))
    } else {
        Double { bits: 0 }
    };
    (longest, average)
}

/// All figures of a simulation.
pub open spec fn advanced_metrics(
    curve: Seq<CurvePoint>,
    pnls: Seq<Double>,
    initial: Double,
    timeframe: Seq<char>,
) -> AdvancedMetrics {
    let eqs = equities(curve);
    AdvancedMetrics {
        winrate: winrate(pnls),
        profit_factor: profit_factor(pnls),
        max_drawdown: drawdown_share(initial, eqs, eqs.len()),
        recovery_factor: recovery_factor(initial, eqs),
        sortino_ratio: sortino_ratio(eqs, timeframe),
        max_stagnation: largest(stagnations(initial, eqs)) as usize,
        avg_stagnation: average_length(stagnations(initial, eqs)),
        correlation: correlation(eqs, holdings(curve)),
    }
}

pub fn calculate_advanced_metrics(
    equity_curve: &Vec<CurvePoint>,
    trade_pnls: &Vec<Double>,
    initial_balance: Double,
    timeframe: &str,
) -> (r: AdvancedMetrics)
    ensures
        r == advanced_metrics(equity_curve@, trade_pnls@, initial_balance, timeframe@),
        r.max_stagnation == largest(stagnations(initial_balance, equities(equity_curve@))),
{
    let eqs = equities_of(equity_curve);
    let market = holdings_of(equity_curve);
    let (winrate, profit_factor) = trade_figures(trade_pnls);
    let (max_drawdown, recovery_factor) = drawdown_figures(initial_balance, &eqs);
    let sortino_ratio = calculate_sortino(&eqs, timeframe);
    let (max_stagnation, avg_stagnation) = stagnation_figures(initial_balance, &eqs);
    let correlation = calculate_correlation(eqs.as_slice(), market.as_slice());
    AdvancedMetrics {
        winrate,
        profit_factor,
        max_drawdown,
        recovery_factor,
        sortino_ratio,
        max_stagnation,
        avg_stagnation,
        correlation,
    }
}

proof fn lemma_cross_sum(a: Seq<Double>, ca: Double, b: Seq<Double>, cb: Double, n: nat)
    ensures
        cross_sum(a, ca, b, cb, n) == cross_sum(b, cb, a, ca, n),
    decreases n,
{
    if n > 0 {
        lemma_cross_sum(a, ca, b, cb, (n - 1) as nat);
        double_laws::multiplication_commutes(a[n - 1].minus(ca), b[n - 1].minus(cb));
    }
}

/// Which of two lists comes first does not matter for their correlation.
pub proof fn correlation_is_symmetric(a: Seq<Double>, b: Seq<Double>)
    ensures
        correlation(a, b) == correlation(b, a),
{
    if a.len() == b.len() && a.len() > 0 {
        let ma = mean(a);
        let mb = mean(b);
        lemma_cross_sum(a, ma, b, mb, a.len());
        double_laws::multiplication_commutes(
            cross_sum(a, ma, a, ma, a.len()),
            cross_sum(b, mb, b, mb, a.len()),
        );
    }
}

proof fn lemma_zero()
    ensures
        !Double::zero().is_nan(),
        Double::zero().units() == 0,
{
    assert(0nat * vstd::arithmetic::power2::pow2(0) == 0);
}

/// The deepest fall is never less than zero, and never less than that of fewer points.
pub proof fn drawdown_only_deepens(initial: Double, eqs: Seq<Double>, n: nat)
    ensures
        Double::zero().at_most(drawdown(initial, eqs, n)),
        Double::zero().at_most(drawdown_share(initial, eqs, n)),
        drawdown(initial, eqs, n).at_most(drawdown(initial, eqs, n + 1)),
        drawdown_share(initial, eqs, n).at_most(drawdown_share(initial, eqs, n + 1)),
    decreases n,
{
    lemma_zero();
    if n > 0 {
        drawdown_only_deepens(initial, eqs, (n - 1) as nat);
    }
}

/// No point lies above the peak of the points up to it, unless there is a NaN among them.
pub proof fn peak_is_the_highest(initial: Double, eqs: Seq<Double>, n: nat, i: int)
    requires
        0 <= i < n <= eqs.len(),
        !initial.is_nan(),
        forall|k: int| 0 <= k < n ==> !(#[trigger] eqs[k]).is_nan(),
    ensures
        eqs[i].at_most(peak(initial, eqs, n)),
        initial.at_most(peak(initial, eqs, n)),
    decreases n,
{
    if n == 1 {
        assert(peak(initial, eqs, 0) == initial);
    } else {
        let before = (n - 1) as nat;
        if i < before {
            peak_is_the_highest(initial, eqs, before, i);
        } else {
            peak_is_the_highest(initial, eqs, before, 0);
        }
        assert(!eqs[n - 1].is_nan());
    }
}

proof fn lemma_runs(initial: Double, eqs: Seq<Double>, n: nat)
    ensures
        total(ended_runs(initial, eqs, n)) + stagnant_run(initial, eqs, n) <= n,
    decreases n,
{
    if n > 0 {
        lemma_runs(initial, eqs, (n - 1) as nat);
        let before = ended_runs(initial, eqs, (n - 1) as nat);
        let run = stagnant_run(initial, eqs, (n - 1) as nat);
        assert(before.push(run).drop_last() =~= before);
    }
}

proof fn lemma_largest(s: Seq<nat>)
    ensures
        largest(s) <= total(s),
    decreases s.len(),
{
    if s.len() > 0 {
        lemma_largest(s.drop_last());
    }
}

/// All stagnations together, and so the longest, have no more points than the curve.
pub proof fn stagnation_fits_the_curve(initial: Double, eqs: Seq<Double>)
    ensures
        total(stagnations(initial, eqs)) <= eqs.len(),
        largest(stagnations(initial, eqs)) <= eqs.len(),
{
    lemma_runs(initial, eqs, eqs.len());
    let ended = ended_runs(initial, eqs, eqs.len());
    let run = stagnant_run(initial, eqs, eqs.len());
    assert(ended.push(run).drop_last() =~= ended);
    lemma_largest(stagnations(initial, eqs));
}

} // verus!
