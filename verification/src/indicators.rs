//! Technical indicators over a row of candles, the oldest first.

use crate::decimal;
use crate::decimal::fixed_text;
use crate::double::{Double, SIGN};
use crate::rounding;
use crate::types::Candle;
use vstd::prelude::*;
use vstd::string::*;

verus! {

/// The weight of the newest value in an exponential average: `2 / (period + 1)`.
pub open spec fn weight(period: nat) -> Double {
    Double::of(2).over(Double::of(period as int).plus(Double::of(1)))
}

/// One step of an exponential average.
pub open spec fn blended(value: Double, average: Double, weight: Double) -> Double {
    value.times(weight).plus(average.times(Double::of(1).minus(weight)))
}

/// The exponential moving average of the closes up to candle `i`, started at the first close.
pub open spec fn ema(candles: Seq<Candle>, i: int, period: nat) -> Double
    decreases i,
{
    if i <= 0 {
        candles[0].close
    } else {
        blended(candles[i].close, ema(candles, i - 1, period), weight(period))
    }
}

/// The sum of the closes of the candles in `start..end`.
pub open spec fn close_sum(candles: Seq<Candle>, start: int, end: int) -> Double
    decreases end - start,
{
    if end <= start {
        Double::empty_sum()
    } else {
        close_sum(candles, start, end - 1).plus(candles[end - 1].close)
    }
}

/// The first candle of a window of `length` candles that ends at `i`, or the first of all.
pub open spec fn window_start(i: int, length: int) -> int {
    if i + 1 >= length {
        i + 1 - length
    } else {
        0
    }
}

/// The plain average of the closes of the last `period` candles.
pub open spec fn sma(candles: Seq<Candle>, i: int, period: nat) -> Double {
    let start = window_start(i, period as int);
    close_sum(candles, start, i + 1).over(Double::of(i + 1 - start))
}

/// The distance of the fast from the slow average.
pub open spec fn macd_line(candles: Seq<Candle>, i: int) -> Double {
    ema(candles, i, 12).minus(ema(candles, i, 26))
}

/// The exponential average of the distances.
pub open spec fn macd_signal(candles: Seq<Candle>, i: int) -> Double
    decreases i,
{
    if i <= 0 {
        macd_line(candles, 0)
    } else {
        blended(macd_line(candles, i), macd_signal(candles, i - 1), weight(9))
    }
}

/// The change of the close at candle `i`.
pub open spec fn change(candles: Seq<Candle>, i: int) -> Double {
    candles[i].close.minus(candles[i - 1].close)
}

/// The sum of the rises at the candles `1..=n`.
pub open spec fn rises(candles: Seq<Candle>, n: int) -> Double
    decreases n,
{
    if n <= 0 {
        Double::zero()
    } else if Double::zero().below(change(candles, n)) {
        rises(candles, n - 1).plus(change(candles, n))
    } else {
        rises(candles, n - 1)
    }
}

/// The sum of the falls at the candles `1..=n`.
pub open spec fn falls(candles: Seq<Candle>, n: int) -> Double
    decreases n,
{
    if n <= 0 {
        Double::zero()
    } else if Double::zero().below(change(candles, n)) {
        falls(candles, n - 1)
    } else {
        falls(candles, n - 1).plus(change(candles, n).absolute())
    }
}

/// One step of a smoothed average over `period` values.
pub open spec fn smoothed(average: Double, value: Double, period: nat) -> Double {
    average.times(Double::of(period - 1)).plus(value).over(Double::of(period as int))
}

/// The smoothed average of the rises up to candle `i`.
pub open spec fn average_rise(candles: Seq<Candle>, i: int, period: nat) -> Double
    decreases i,
{
    if i <= period {
        rises(candles, period as int).over(Double::of(period as int))
    } else {
        smoothed(
            average_rise(candles, i - 1, period),
            if Double::zero().below(change(candles, i)) {
                change(candles, i)
            } else {
                Double::zero()
            },
            period,
        )
    }
}

/// The smoothed average of the falls up to candle `i`.
pub open spec fn average_fall(candles: Seq<Candle>, i: int, period: nat) -> Double
    decreases i,
{
    if i <= period {
        falls(candles, period as int).over(Double::of(period as int))
    } else {
        smoothed(
            average_fall(candles, i - 1, period),
            if change(candles, i).below(Double::zero()) {
                change(candles, i).absolute()
            } else {
                Double::zero()
            },
            period,
        )
    }
}

/// The relative strength index: 50 before there is a full period, 100 where nothing fell.
pub open spec fn rsi(candles: Seq<Candle>, i: int, period: nat) -> Double {
    let fall = average_fall(candles, i, period);
    if i < period {
        Double::of(50)
    } else if fall.equals(Double::zero()) {
        Double::of(100)
    } else {
        Double::of(100).minus(
            Double::of(100).over(
                Double::of(1).plus(average_rise(candles, i, period).over(fall)),
            ),
        )
    }
}

/// The smallest index of the candles in `start..end`.
pub open spec fn lowest_rsi(candles: Seq<Candle>, start: int, end: int, period: nat) -> Double
    decreases end - start,
{
    if end <= start {
        Double::infinity(false)
    } else {
        lowest_rsi(candles, start, end - 1, period).smaller(rsi(candles, end - 1, period))
    }
}

/// The largest index of the candles in `start..end`.
pub open spec fn highest_rsi(candles: Seq<Candle>, start: int, end: int, period: nat) -> Double
    decreases end - start,
{
    if end <= start {
        Double::infinity(true)
    } else {
        highest_rsi(candles, start, end - 1, period).larger(rsi(candles, end - 1, period))
    }
}

/// Where the relative strength index stands between its extremes of the last period.
pub open spec fn stoch_rsi(candles: Seq<Candle>, i: int, period: nat) -> Double {
    let low = lowest_rsi(candles, i - period + 1, i + 1, period);
    let high = highest_rsi(candles, i - period + 1, i + 1, period);
    if i < period * 2 {
        Double::of(50)
    } else if low.below(high) {
        rsi(candles, i, period).minus(low).over(high.minus(low)).times(Double::of(100))
    } else {
        Double::of(50)
    }
}

/// The sum of the squared distances of the closes in `start..end` from `basis`.
pub open spec fn square_sum(candles: Seq<Candle>, start: int, end: int, basis: Double) -> Double
    decreases end - start,
{
    if end <= start {
        Double::empty_sum()
    } else {
        let diff = candles[end - 1].close.minus(basis);
        square_sum(candles, start, end - 1, basis).plus(diff.times(diff))
    }
}

/// The standard deviation of the closes of the last `period` candles.
pub open spec fn deviation(candles: Seq<Candle>, i: int, period: nat) -> Double {
    let start = window_start(i, period as int);
    square_sum(candles, start, i + 1, sma(candles, i, period)).over(
        Double::of(i + 1 - start),
    ).root()
}

/// The true range of candle `i`: its own span, or its reach from the last close.
pub open spec fn true_range(candles: Seq<Candle>, i: int) -> Double {
    let span = candles[i].high.minus(candles[i].low);
    if i > 0 {
        let last = candles[i - 1].close;
        span.larger(candles[i].high.minus(last).absolute()).larger(
            candles[i].low.minus(last).absolute(),
        )
    } else {
        span
    }
}

/// The sum of the true ranges of the first `n` candles.
pub open spec fn range_sum(candles: Seq<Candle>, n: int) -> Double
    decreases n,
{
    if n <= 0 {
        Double::empty_sum()
    } else {
        range_sum(candles, n - 1).plus(true_range(candles, n - 1))
    }
}

/// The smoothed average of the true ranges, started from the first full period.
pub open spec fn smoothed_range(candles: Seq<Candle>, i: int, period: nat) -> Double
    decreases i,
{
    if i < period || i < 1 {
        range_sum(candles, period as int).over(Double::of(period as int))
    } else {
        smoothed(smoothed_range(candles, i - 1, period), true_range(candles, i), period)
    }
}

/// The average true range: a plain average before there is a full period.
pub open spec fn atr(candles: Seq<Candle>, i: int, period: nat) -> Double {
    if candles.len() == 0 {
        Double::zero()
    } else if i < period {
        range_sum(candles, i + 1).over(Double::of(i + 1))
    } else {
        smoothed_range(candles, i, period)
    }
}

/// The typical price of a candle.
pub open spec fn typical(c: Candle) -> Double {
    c.high.plus(c.low).plus(c.close).over(Double::of(3))
}

/// The traded value of the candles in `start..end`.
pub open spec fn traded_value(candles: Seq<Candle>, start: int, end: int) -> Double
    decreases end - start,
{
    if end <= start {
        Double::zero()
    } else {
        traded_value(candles, start, end - 1).plus(
            typical(candles[end - 1]).times(candles[end - 1].volume),
        )
    }
}

/// The traded volume of the candles in `start..end`.
pub open spec fn traded_volume(candles: Seq<Candle>, start: int, end: int) -> Double
    decreases end - start,
{
    if end <= start {
        Double::zero()
    } else {
        traded_volume(candles, start, end - 1).plus(candles[end - 1].volume)
    }
}

/// The average price by volume over the last 101 candles, the close where nothing was traded.
pub open spec fn vwap(candles: Seq<Candle>, i: int) -> Double {
    let start = window_start(i, 101);
    let volume = traded_volume(candles, start, i + 1);
    if volume.equals(Double::zero()) {
        candles[i].close
    } else {
        traded_value(candles, start, i + 1).over(volume)
    }
}

/// The volume on rising candles less the volume on falling ones.
pub open spec fn obv(candles: Seq<Candle>, i: int) -> Double
    decreases i,
{
    if i <= 0 {
        Double::zero()
    } else if candles[i - 1].close.below(candles[i].close) {
        obv(candles, i - 1).plus(candles[i].volume)
    } else if candles[i].close.below(candles[i - 1].close) {
        obv(candles, i - 1).minus(candles[i].volume)
    } else {
        obv(candles, i - 1)
    }
}

fn weight_of(period: u64) -> (r: Double)
    ensures
        r == weight(period as nat),
{
    Double::from_u64(2).div(Double::from_u64(period).add(Double::from_u64(1)))
}

fn blend(value: Double, average: Double, w: Double) -> (r: Double)
    ensures
        r == blended(value, average, w),
{
    value.mul(w).add(average.mul(Double::from_u64(1).sub(w)))
}

/// The exponential moving average of the closes; zero outside the row of candles.
pub fn calculate_ema(candles: &[Candle], i: usize, period: usize) -> (r: Double)
    ensures
        r == (if i < candles@.len() {
            ema(candles@, i as int, period as nat)
        } else {
            Double::zero()
        }),
{
    if candles.len() == 0 || i >= candles.len() {
        return Double { bits: 0 };
    }
    let w = weight_of(period as u64);
    let mut average = candles[0].close;
    let mut idx: usize = 0;
    while idx < i
        invariant
            idx <= i < candles@.len(),
            w == weight(period as nat),
            average == ema(candles@, idx as int, period as nat),
        decreases i - idx,
    {
        idx = idx + 1;
        average = blend(candles[idx].close, average, w);
    }
    average
}

fn start_of(i: usize, length: usize) -> (r: usize)
    requires
        length >= 1,
    ensures
        r == window_start(i as int, length as int),
        r <= i,
{
    if i >= length - 1 {
        i - (length - 1)
    } else {
        0
    }
}

/// The plain average of the closes of the last `period` candles.
pub fn calculate_sma(candles: &[Candle], i: usize, period: usize) -> (r: Double)
    requires
        i < candles@.len(),
        period >= 1,
    ensures
        r == sma(candles@, i as int, period as nat),
{
    let start = start_of(i, period);
    let mut sum = Double { bits: SIGN };
    let mut idx: usize = start;
    while idx <= i
        invariant
            start <= idx <= i + 1,
            i < candles.len(),
            sum == close_sum(candles@, start as int, idx as int),
        decreases i + 1 - idx,
    {
        sum = sum.add(candles[idx].close);
        idx = idx + 1;
    }
    sum.div(Double::from_u64((i - start) as u64 + 1))
}

/// The distance of the two averages, its own average and what lies between these.
pub fn calculate_macd(candles: &[Candle], i: usize) -> (r: (Double, Double, Double))
    requires
        i < candles@.len(),
    ensures
        r.0 == macd_line(candles@, i as int),
        r.1 == macd_signal(candles@, i as int),
        r.2 == macd_line(candles@, i as int).minus(macd_signal(candles@, i as int)),
{
    let fast = weight_of(12);
    let slow = weight_of(26);
    let w = weight_of(9);
    let mut ema_12 = candles[0].close;
    let mut ema_26 = candles[0].close;
    let mut line = ema_12.sub(ema_26);
    let mut signal = line;
    let mut idx: usize = 0;
    while idx < i
        invariant
            idx <= i < candles@.len(),
            fast == weight(12),
            slow == weight(26),
            w == weight(9),
            ema_12 == ema(candles@, idx as int, 12),
            ema_26 == ema(candles@, idx as int, 26),
            line == macd_line(candles@, idx as int),
            signal == macd_signal(candles@, idx as int),
        decreases i - idx,
    {
        idx = idx + 1;
        ema_12 = blend(candles[idx].close, ema_12, fast);
        ema_26 = blend(candles[idx].close, ema_26, slow);
        line = ema_12.sub(ema_26);
        signal = blend(line, signal, w);
    }
    (line, signal, line.sub(signal))
}

fn smooth(average: Double, value: Double, period: usize) -> (r: Double)
    requires
        period >= 1,
    ensures
        r == smoothed(average, value, period as nat),
{
    average.mul(Double::from_u64((period - 1) as u64)).add(value).div(
        Double::from_u64(period as u64),
    )
}

/// The relative strength index.
pub fn calculate_rsi(candles: &[Candle], i: usize, period: usize) -> (r: Double)
    requires
        period >= 1 || i == 0,
        i < candles@.len() || i < period,
    ensures
        r == rsi(candles@, i as int, period as nat),
{
    if i < period {
        return Double::from_u64(50);
    }
    let zero = Double { bits: 0 };
    let mut gains = zero;
    let mut losses = zero;
    let mut idx: usize = 0;
    while idx < period
        invariant
            idx <= period <= i < candles@.len(),
            zero == Double::zero(),
            gains == rises(candles@, idx as int),
            losses == falls(candles@, idx as int),
        decreases period - idx,
    {
        idx = idx + 1;
        let diff = candles[idx].close.sub(candles[idx - 1].close);
        if zero.lt(diff) {
            gains = gains.add(diff);
        } else {
            losses = losses.add(diff.abs());
        }
    }
    let n = Double::from_u64(period as u64);
    let mut avg_gain = gains.div(n);
    let mut avg_loss = losses.div(n);
    while idx < i
        invariant
            period >= 1 || i == 0,
            period <= idx <= i < candles@.len(),
            zero == Double::zero(),
            avg_gain == average_rise(candles@, idx as int, period as nat),
            avg_loss == average_fall(candles@, idx as int, period as nat),
        decreases i - idx,
    {
        idx = idx + 1;
        let diff = candles[idx].close.sub(candles[idx - 1].close);
        let gain = if zero.lt(diff) {
            diff
        } else {
            zero
        };
        let loss = if diff.lt(zero) {
            diff.abs()
        } else {
            zero
        };
        avg_gain = smooth(avg_gain, gain, period);
        avg_loss = smooth(avg_loss, loss, period);
    }
    if avg_loss.eq_value(zero) {
        return Double::from_u64(100);
    }
    let rs = avg_gain.div(avg_loss);
    Double::from_u64(100).sub(Double::from_u64(100).div(Double::from_u64(1).add(rs)))
}

/// The stochastic relative strength index, twice.
pub fn calculate_stoch_rsi(candles: &[Candle], i: usize, period: usize) -> (r: (Double, Double))
    requires
        i < candles@.len() || i < period * 2,
        period * 2 <= usize::MAX,
    ensures
        r.0 == stoch_rsi(candles@, i as int, period as nat),
        r.1 == r.0,
{
    if i < period * 2 {
        return (Double::from_u64(50), Double::from_u64(50));
    }
    assert(i < candles.len() <= usize::MAX);
    let start: usize = (i - period) + 1;
    let mut low = Double { bits: rounding::INFINITE };
    let mut high = low.neg();
    let mut last = low;
    let mut idx: usize = start;
    while idx <= i
        invariant
            start == i - period + 1,
            start <= idx <= i + 1,
            i < candles.len(),
            low == lowest_rsi(candles@, start as int, idx as int, period as nat),
            high == highest_rsi(candles@, start as int, idx as int, period as nat),
            idx > start ==> last == rsi(candles@, idx - 1, period as nat),
        decreases i + 1 - idx,
    {
        last = calculate_rsi(candles, idx, period);
        low = low.min(last);
        high = high.max(last);
        idx = idx + 1;
    }
    let value = if low.lt(high) {
        last.sub(low).div(high.sub(low)).mul(Double::from_u64(100))
    } else {
        Double::from_u64(50)
    };
    (value, value)
}

/// The upper band, the average and the lower band, `k` deviations apart.
pub fn calculate_bollinger_bands(candles: &[Candle], i: usize, period: usize, k: Double) -> (r: (
    Double,
    Double,
    Double,
))
    requires
        i < candles@.len(),
        period >= 1,
    ensures
        r.0 == sma(candles@, i as int, period as nat).plus(
            k.times(deviation(candles@, i as int, period as nat)),
        ),
        r.1 == sma(candles@, i as int, period as nat),
        r.2 == sma(candles@, i as int, period as nat).minus(
            k.times(deviation(candles@, i as int, period as nat)),
        ),
{
    let basis = calculate_sma(candles, i, period);
    let start = start_of(i, period);
    let mut sum = Double { bits: SIGN };
    let mut idx: usize = start;
    while idx <= i
        invariant
            start <= idx <= i + 1,
            i < candles.len(),
            sum == square_sum(candles@, start as int, idx as int, basis),
        decreases i + 1 - idx,
    {
        let diff = candles[idx].close.sub(basis);
        sum = sum.add(diff.mul(diff));
        idx = idx + 1;
    }
    let std_dev = sum.div(Double::from_u64((i - start) as u64 + 1)).sqrt();
    (basis.add(k.mul(std_dev)), basis, basis.sub(k.mul(std_dev)))
}

fn range_of(candles: &[Candle], i: usize) -> (r: Double)
    requires
        i < candles@.len(),
    ensures
        r == true_range(candles@, i as int),
{
    let span = candles[i].high.sub(candles[i].low);
    if i > 0 {
        let last = candles[i - 1].close;
        span.max(candles[i].high.sub(last).abs()).max(candles[i].low.sub(last).abs())
    } else {
        span
    }
}

/// The average true range.
pub fn calculate_atr(candles: &[Candle], i: usize, period: usize) -> (r: Double)
    requires
        candles@.len() == 0 || i < candles@.len(),
        period >= 1,
    ensures
        r == atr(candles@, i as int, period as nat),
{
    if candles.len() == 0 {
        return Double { bits: 0 };
    }
    let first: usize = if i < period {
        i + 1
    } else {
        period
    };
    let mut sum = Double { bits: SIGN };
    let mut idx: usize = 0;
    while idx < first
        invariant
            idx <= first <= i + 1,
            i < candles.len(),
            sum == range_sum(candles@, idx as int),
        decreases first - idx,
    {
        sum = sum.add(range_of(candles, idx));
        idx = idx + 1;
    }
    let mut average = sum.div(Double::from_u64(first as u64));
    if i < period {
        return average;
    }
    while idx <= i
        invariant
            1 <= period <= idx <= i + 1,
            i < candles.len(),
            average == smoothed_range(candles@, idx - 1, period as nat),
        decreases i + 1 - idx,
    {
        average = smooth(average, range_of(candles, idx), period);
        idx = idx + 1;
    }
    average
}

/// The average price by volume.
pub fn calculate_vwap(candles: &[Candle], i: usize) -> (r: Double)
    requires
        i < candles@.len(),
    ensures
        r == vwap(candles@, i as int),
{
    let start = start_of(i, 101);
    let mut sum_pv = Double { bits: 0 };
    let mut sum_v = Double { bits: 0 };
    let mut idx: usize = start;
    while idx <= i
        invariant
            start <= idx <= i + 1,
            i < candles.len(),
            sum_pv == traded_value(candles@, start as int, idx as int),
            sum_v == traded_volume(candles@, start as int, idx as int),
        decreases i + 1 - idx,
    {
        let c = candles[idx];
        let price = c.high.add(c.low).add(c.close).div(Double::from_u64(3));
        sum_pv = sum_pv.add(price.mul(c.volume));
        sum_v = sum_v.add(c.volume);
        idx = idx + 1;
    }
    if sum_v.eq_value(Double { bits: 0 }) {
        candles[i].close
    } else {
        sum_pv.div(sum_v)
    }
}

/// The balance of volume.
pub fn calculate_obv(candles: &[Candle], i: usize) -> (r: Double)
    requires
        i == 0 || i < candles@.len(),
    ensures
        r == obv(candles@, i as int),
{
    let mut balance = Double { bits: 0 };
    let mut idx: usize = 0;
    while idx < i
        invariant
            idx <= i,
            i == 0 || i < candles@.len(),
            balance == obv(candles@, idx as int),
        decreases i - idx,
    {
        idx = idx + 1;
        if candles[idx - 1].close.lt(candles[idx].close) {
            balance = balance.add(candles[idx].volume);
        } else if candles[idx].close.lt(candles[idx - 1].close) {
            balance = balance.sub(candles[idx].volume);
        }
    }
    balance
}

/// A range in percent of a price; zero where the price is not positive.
pub open spec fn range_percent(range: Double, price: Double) -> Double {
    if Double::zero().below(price) {
        range.over(price).times(Double::of(100))
    } else {
        Double::zero()
    }
}

/// The line of indicators at candle `i` up to the range in percent.
#[verifier::opaque]
pub open spec fn line_head(candles: Seq<Candle>, i: int) -> Seq<char> {
    "EMA9:"@ + decimal::fixed(ema(candles, i, 9), 1)
        + " EMA15:"@ + decimal::fixed(ema(candles, i, 15), 1)
        + " EMA20:"@ + decimal::fixed(ema(candles, i, 20), 1)
        + " EMA21:"@ + decimal::fixed(ema(candles, i, 21), 1)
        + " EMA40:"@ + decimal::fixed(ema(candles, i, 40), 1)
        + " EMA50:"@ + decimal::fixed(ema(candles, i, 50), 1)
        + " EMA100:"@ + decimal::fixed(ema(candles, i, 100), 1)
        + " EMA200:"@ + decimal::fixed(ema(candles, i, 200), 1)
        + " SMA20:"@ + decimal::fixed(sma(candles, i, 20), 1)
        + " MACD:["@ + decimal::fixed(macd_line(candles, i), 2)
        + ","@ + decimal::fixed(macd_signal(candles, i), 2)
        + ","@ + decimal::fixed(macd_line(candles, i).minus(macd_signal(candles, i)), 2)
        + "] RSI:"@ + decimal::fixed(rsi(candles, i, 14), 1)
        + " Stoch:"@ + decimal::fixed(stoch_rsi(candles, i, 14), 1)
        + " BB:["@ + decimal::fixed(sma(candles, i, 20).plus(Double::of(2).times(deviation(candles, i, 20))), 1)
        + ","@ + decimal::fixed(sma(candles, i, 20), 1)
        + ","@ + decimal::fixed(sma(candles, i, 20).minus(Double::of(2).times(deviation(candles, i, 20))), 1)
        + "] ATR:"@ + decimal::fixed(atr(candles, i, 14), 1)
        + "("@
}

/// The line of indicators at candle `i` behind the range in percent.
#[verifier::opaque]
pub open spec fn line_tail(candles: Seq<Candle>, i: int) -> Seq<char> {
    "%) VWAP:"@ + decimal::fixed(vwap(candles, i), 1) + " OBV:"@ + decimal::fixed(
        obv(candles, i),
        0,
    )
}

/// The line of indicators at candle `i`, as the model reads it.
pub open spec fn indicators_line(candles: Seq<Candle>, i: int, price: Double) -> Seq<char> {
    line_head(candles, i) + decimal::fixed(range_percent(atr(candles, i, 14), price), 1)
        + line_tail(candles, i)
}

/// The line of indicators at candle `i`: averages, momentum, volatility and volume.
pub fn calculate_indicators(candles: &[Candle], i: usize, precio_actual: Double) -> (r: String)
    requires
        i < candles@.len(),
    ensures
        r@ == indicators_line(candles@, i as int, precio_actual),
{
    proof {
        reveal(line_head);
        reveal(line_tail);
    }
    let (line, signal, histogram) = calculate_macd(candles, i);
    let rsi_14 = calculate_rsi(candles, i, 14);
    let (stoch, _) = calculate_stoch_rsi(candles, i, 14);
    let (upper, basis, lower) = calculate_bollinger_bands(candles, i, 20, Double::from_u64(2));
    let atr_14 = calculate_atr(candles, i, 14);
    let percent = if (Double { bits: 0 }).lt(precio_actual) {
        atr_14.div(precio_actual).mul(Double::from_u64(100))
    } else {
        Double { bits: 0 }
    };
    let average = calculate_vwap(candles, i);
    let balance = calculate_obv(candles, i);
    let mut out = "EMA9:".to_owned();
    out.append(fixed_text(calculate_ema(candles, i, 9), 1).as_str());
    out.append(" EMA15:");
    out.append(fixed_text(calculate_ema(candles, i, 15), 1).as_str());
    out.append(" EMA20:");
    out.append(fixed_text(calculate_ema(candles, i, 20), 1).as_str());
    out.append(" EMA21:");
    out.append(fixed_text(calculate_ema(candles, i, 21), 1).as_str());
    out.append(" EMA40:");
    out.append(fixed_text(calculate_ema(candles, i, 40), 1).as_str());
    out.append(" EMA50:");
    out.append(fixed_text(calculate_ema(candles, i, 50), 1).as_str());
    out.append(" EMA100:");
    out.append(fixed_text(calculate_ema(candles, i, 100), 1).as_str());
    out.append(" EMA200:");
    out.append(fixed_text(calculate_ema(candles, i, 200), 1).as_str());
    out.append(" SMA20:");
    out.append(fixed_text(calculate_sma(candles, i, 20), 1).as_str());
    out.append(" MACD:[");
    out.append(fixed_text(line, 2).as_str());
    out.append(",");
    out.append(fixed_text(signal, 2).as_str());
    out.append(",");
    out.append(fixed_text(histogram, 2).as_str());
    out.append("] RSI:");
    out.append(fixed_text(rsi_14, 1).as_str());
    out.append(" Stoch:");
    out.append(fixed_text(stoch, 1).as_str());
    out.append(" BB:[");
    out.append(fixed_text(upper, 1).as_str());
    out.append(",");
    out.append(fixed_text(basis, 1).as_str());
    out.append(",");
    out.append(fixed_text(lower, 1).as_str());
    out.append("] ATR:");
    out.append(fixed_text(atr_14, 1).as_str());
    out.append("(");
    out.append(fixed_text(percent, 1).as_str());
    let mut tail = "%) VWAP:".to_owned();
    tail.append(fixed_text(average, 1).as_str());
    tail.append(" OBV:");
    tail.append(fixed_text(balance, 0).as_str());
    out.append(tail.as_str());
    out
}

} // verus!
