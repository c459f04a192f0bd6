//! The bounds of the figures.

use crate::decimal;
use crate::double;
use crate::double::Double;
use crate::double_laws;
use crate::indicators;
use crate::metrics;
use crate::rounding;
use crate::text;
use crate::types::Candle;
use vstd::arithmetic::power2::*;
use vstd::prelude::*;

verus! {

proof fn lemma_zero_is_not_negative()
    ensures
        double_laws::not_negative(Double::zero()),
        double_laws::not_negative(Double::empty_sum()),
{
    assert(0nat * pow2(0) == 0);
    assert(Double::empty_sum().pattern() == 0);
}

proof fn lemma_positive(n: nat)
    requires
        n > 0,
    ensures
        !Double::of(n as int).is_nan(),
        !Double::of(n as int).negative(),
        double_laws::not_negative(Double::of(n as int)),
        !Double::of(n as int).equals(Double::zero()),
        Double::of(1).magnitude() == pow2(1074),
        Double::of(n as int).magnitude() >= pow2(1074),
{
    lemma2_to64();
    lemma2_to64_rest();
    lemma_pow2_pos(1074);
    double_laws::small_naturals_are_exact(1);
    double_laws::lemma_nearest_sign(false, n * pow2(1074), 1);
    double_laws::lemma_nearest_sign(false, 1 * pow2(1074), 1);
    assert(1 * pow2(1074) <= n * pow2(1074)) by (nonlinear_arith)
        requires
            n >= 1,
    ;
    rounding::lemma_nearest_monotone(1 * pow2(1074), 1, n * pow2(1074), 1);
    double_laws::lemma_pattern_magnitude_order(
        rounding::nearest_pattern(1 * pow2(1074), 1),
        rounding::nearest_pattern(n * pow2(1074), 1),
    );
    assert(0nat * pow2(0) == 0);
}

proof fn lemma_natural(n: nat)
    ensures
        double_laws::not_negative(Double::of(n as int)),
{
    double_laws::lemma_nearest_sign(false, n * pow2(1074), 1);
    assert(0nat * pow2(0) == 0);
}

proof fn lemma_absolute(x: Double)
    ensures
        double_laws::not_negative(x.absolute()),
{
    assert(!x.absolute().negative());
    assert(0nat * pow2(0) == 0);
}

proof fn lemma_rises(candles: Seq<Candle>, n: int)
    ensures
        double_laws::not_negative(indicators::rises(candles, n)),
        double_laws::not_negative(indicators::falls(candles, n)),
    decreases n,
{
    lemma_zero_is_not_negative();
    if n > 0 {
        lemma_rises(candles, n - 1);
        let change = indicators::change(candles, n);
        lemma_absolute(change);
        if Double::zero().below(change) {
            double_laws::sums_stay_up(indicators::rises(candles, n - 1), change);
        } else {
            double_laws::sums_stay_up(indicators::falls(candles, n - 1), change.absolute());
        }
    }
}

proof fn lemma_smoothed(average: Double, value: Double, period: nat)
    requires
        double_laws::not_negative(average),
        double_laws::not_negative(value),
        period > 0,
    ensures
        double_laws::not_negative(indicators::smoothed(average, value, period)),
{
    lemma_zero_is_not_negative();
    lemma_positive(period);
    let less = Double::of(period - 1);
    lemma_natural((period - 1) as nat);
    double_laws::products_stay_up(average, less);
    double_laws::sums_stay_up(average.times(less), value);
    double_laws::quotients_stay_up(
        average.times(less).plus(value),
        Double::of(period as int),
    );
}

proof fn lemma_averages(candles: Seq<Candle>, i: int, period: nat)
    requires
        period > 0,
    ensures
        double_laws::not_negative(indicators::average_rise(candles, i, period)),
        double_laws::not_negative(indicators::average_fall(candles, i, period)),
    decreases i,
{
    lemma_zero_is_not_negative();
    if i <= period {
        lemma_rises(candles, period as int);
        lemma_positive(period);
        double_laws::quotients_stay_up(
            indicators::rises(candles, period as int),
            Double::of(period as int),
        );
        double_laws::quotients_stay_up(
            indicators::falls(candles, period as int),
            Double::of(period as int),
        );
    } else {
        lemma_averages(candles, i - 1, period);
        let change = indicators::change(candles, i);
        lemma_absolute(change);
        let rise = if Double::zero().below(change) {
            change
        } else {
            Double::zero()
        };
        let fall = if change.below(Double::zero()) {
            change.absolute()
        } else {
            Double::zero()
        };
        lemma_smoothed(indicators::average_rise(candles, i - 1, period), rise, period);
        lemma_smoothed(indicators::average_fall(candles, i - 1, period), fall, period);
    }
}

/// The relative strength index is neither less than zero nor more than a hundred.
pub proof fn strength_stays_in_its_bounds(candles: Seq<Candle>, i: int, period: nat)
    requires
        period > 0,
    ensures
        !indicators::rsi(candles, i, period).below(Double::zero()),
        !Double::of(100).below(indicators::rsi(candles, i, period)),
{
    lemma2_to64();
    lemma2_to64_rest();
    lemma_averages(candles, i, period);
    lemma_positive(100);
    lemma_positive(50);
    lemma_pow2_pos(1074);
    assert(0nat * pow2(0) == 0);
    double_laws::small_naturals_are_exact(100);
    double_laws::small_naturals_are_exact(50);
    let fall = indicators::average_fall(candles, i, period);
    assert(50 * pow2(1074) <= 100 * pow2(1074));
    assert(!Double::of(100).below(Double::of(50)));
    assert(!Double::of(100).below(Double::of(100)));
    if i >= period && !fall.equals(Double::zero()) {
        let ratio = indicators::average_rise(candles, i, period).over(fall);
        double_laws::quotients_stay_up(indicators::average_rise(candles, i, period), fall);
        double_laws::one_and_more(ratio);
        let whole = Double::of(1).plus(ratio);
        double_laws::dividing_by_one_or_more(100, whole);
        let taken = Double::of(100).over(whole);
        lemma_positive(1);
        double_laws::sums_stay_up(Double::of(1), ratio);
        assert(!whole.equals(Double::zero())) by {
            double_laws::small_naturals_are_exact(1);
        }
        double_laws::quotients_stay_up(Double::of(100), whole);
        double_laws::taking_leaves_no_more(100, taken);
        if taken.is_nan() {
            double_laws::nan_spreads(Double::of(100), taken);
        } else {
            double_laws::taking_no_more_leaves_no_less_than_zero(taken, Double::of(100));
        }
    }
}

proof fn lemma_win_count(pnls: Seq<Double>, n: nat)
    ensures
        metrics::win_count(pnls, n) <= n,
    decreases n,
{
    if n > 0 {
        lemma_win_count(pnls, (n - 1) as nat);
    }
}

proof fn lemma_share(w: nat, t: nat)
    requires
        w <= t,
        t > 0,
    ensures
        ({
            let share = Double::of(w as int).over(Double::of(t as int));
            &&& double_laws::not_negative(share)
            &&& share.is_nan() || share.at_most(Double::of(1))
        }),
{
    let a = Double::of(w as int);
    let b = Double::of(t as int);
    lemma_positive(t);
    lemma_positive(1);
    lemma_natural(w);
    lemma_pow2_pos(1074);
    double_laws::quotients_stay_up(a, b);
    double_laws::lemma_nearest_sign(false, w * pow2(1074), 1);
    double_laws::lemma_nearest_sign(false, t * pow2(1074), 1);
    assert((w * pow2(1074)) * 1 <= (t * pow2(1074)) * 1) by (nonlinear_arith)
        requires
            w <= t,
    ;
    rounding::lemma_nearest_monotone(w * pow2(1074), 1, t * pow2(1074), 1);
    double_laws::lemma_pattern_magnitude_order(a.pattern(), b.pattern());
    reveal(Double::over);
    assert(0nat * pow2(0) == 0);
    double_laws::lemma_nearest_sign(false, 0, 1);
    double_laws::lemma_nothing_nearest(false, 1);
    if !b.is_infinite() {
        let num = a.magnitude() * pow2(1074);
        lemma_pow2_pos(1074);
        double_laws::lemma_nearest_sign(false, num, b.magnitude());
        double_laws::lemma_nearest_sign(false, 1 * pow2(1074), 1);
        assert(num * 1 <= (1 * pow2(1074)) * b.magnitude()) by (nonlinear_arith)
            requires
                num == a.magnitude() * pow2(1074),
                a.magnitude() <= b.magnitude(),
        ;
        rounding::lemma_nearest_monotone(num, b.magnitude(), 1 * pow2(1074), 1);
        double_laws::lemma_pattern_magnitude_order(
            rounding::nearest_pattern(num, b.magnitude()),
            rounding::nearest_pattern(1 * pow2(1074), 1),
        );
    }
}

proof fn lemma_percent(share: Double)
    requires
        double_laws::not_negative(share),
        share.is_nan() || share.at_most(Double::of(1)),
    ensures
        !share.times(Double::of(100)).below(Double::zero()),
        !Double::of(100).below(share.times(Double::of(100))),
{
    lemma2_to64();
    lemma2_to64_rest();
    lemma_positive(1);
    lemma_positive(100);
    double_laws::small_naturals_are_exact(1);
    double_laws::small_naturals_are_exact(100);
    double_laws::products_stay_up(share, Double::of(100));
    reveal(Double::times);
    let hundred = Double::of(100);
    if !share.is_nan() {
        if share.is_infinite() {
            double::lemma_pattern_order(Double::of(1).pattern(), share.pattern());
            assert(share.negative());
            assert(0nat * pow2(0) == 0);
            double::lemma_pattern_order(0, share.pattern());
            assert(false);
        }
        let num = share.magnitude() * hundred.magnitude();
        lemma_pow2_pos(1074);
        double_laws::lemma_nearest_sign(share.negative(), num, pow2(1074));
        double_laws::lemma_nearest_sign(false, 100 * pow2(1074), 1);
        if !share.negative() {
            assert(num * 1 <= (100 * pow2(1074)) * pow2(1074)) by (nonlinear_arith)
                requires
                    num == share.magnitude() * hundred.magnitude(),
                    hundred.magnitude() == 100 * pow2(1074),
                    share.magnitude() <= pow2(1074),
            ;
            rounding::lemma_nearest_monotone(num, pow2(1074), 100 * pow2(1074), 1);
            double_laws::lemma_pattern_magnitude_order(
                rounding::nearest_pattern(num, pow2(1074)),
                rounding::nearest_pattern(100 * pow2(1074), 1),
            );
        }
    }
}

/// The share of gains is neither less than zero nor more than a hundred percent.
pub proof fn winrate_stays_in_its_bounds(pnls: Seq<Double>)
    ensures
        !metrics::winrate(pnls).below(Double::zero()),
        !Double::of(100).below(metrics::winrate(pnls)),
{
    lemma_zero_is_not_negative();
    lemma_positive(100);
    assert(0nat * pow2(0) == 0);
    if pnls.len() > 0 {
        lemma_win_count(pnls, pnls.len());
        let w = metrics::win_count(pnls, pnls.len());
        lemma_share(w, pnls.len());
        lemma_percent(Double::of(w as int).over(Double::of(pnls.len() as int)));
    }
}

/// Whether two markets agree up to a candle.
pub open spec fn agree_upto(a: Seq<Candle>, b: Seq<Candle>, i: int) -> bool {
    &&& 0 <= i < a.len()
    &&& i < b.len()
    &&& forall|k: int| 0 <= k <= i ==> #[trigger] a[k] == b[k]
}

proof fn lemma_same_ema(a: Seq<Candle>, b: Seq<Candle>, i: int, period: nat)
    requires
        agree_upto(a, b, i),
    ensures
        indicators::ema(a, i, period) == indicators::ema(b, i, period),
    decreases i,
{
    assert(a[i] == b[i]);
    assert(a[0] == b[0]);
    if i > 0 {
        lemma_same_ema(a, b, i - 1, period);
    }
}

proof fn lemma_same_signal(a: Seq<Candle>, b: Seq<Candle>, i: int)
    requires
        agree_upto(a, b, i),
    ensures
        indicators::macd_line(a, i) == indicators::macd_line(b, i),
        indicators::macd_signal(a, i) == indicators::macd_signal(b, i),
    decreases i,
{
    lemma_same_ema(a, b, i, 12);
    lemma_same_ema(a, b, i, 26);
    if i > 0 {
        lemma_same_signal(a, b, i - 1);
    }
}

proof fn lemma_same_close_sum(a: Seq<Candle>, b: Seq<Candle>, i: int, start: int, end: int)
    requires
        agree_upto(a, b, i),
        0 <= start,
        end <= i + 1,
    ensures
        indicators::close_sum(a, start, end) == indicators::close_sum(b, start, end),
    decreases end - start,
{
    if start < end {
        assert(a[end - 1] == b[end - 1]);
        lemma_same_close_sum(a, b, i, start, end - 1);
    }
}

proof fn lemma_same_square_sum(
    a: Seq<Candle>,
    b: Seq<Candle>,
    i: int,
    start: int,
    end: int,
    basis: Double,
)
    requires
        agree_upto(a, b, i),
        0 <= start,
        end <= i + 1,
    ensures
        indicators::square_sum(a, start, end, basis) == indicators::square_sum(b, start, end, basis),
    decreases end - start,
{
    if start < end {
        assert(a[end - 1] == b[end - 1]);
        lemma_same_square_sum(a, b, i, start, end - 1, basis);
    }
}

proof fn lemma_same_bands(a: Seq<Candle>, b: Seq<Candle>, i: int, period: nat)
    requires
        agree_upto(a, b, i),
    ensures
        indicators::sma(a, i, period) == indicators::sma(b, i, period),
        indicators::deviation(a, i, period) == indicators::deviation(b, i, period),
{
    let start = indicators::window_start(i, period as int);
    lemma_same_close_sum(a, b, i, start, i + 1);
    lemma_same_square_sum(a, b, i, start, i + 1, indicators::sma(a, i, period));
}

proof fn lemma_same_moves(a: Seq<Candle>, b: Seq<Candle>, i: int, n: int)
    requires
        agree_upto(a, b, i),
        n <= i,
    ensures
        indicators::rises(a, n) == indicators::rises(b, n),
        indicators::falls(a, n) == indicators::falls(b, n),
    decreases n,
{
    if n > 0 {
        assert(a[n] == b[n]);
        assert(a[n - 1] == b[n - 1]);
        lemma_same_moves(a, b, i, n - 1);
    }
}

proof fn lemma_same_averages(a: Seq<Candle>, b: Seq<Candle>, i: int, period: nat)
    requires
        agree_upto(a, b, i),
        period <= i,
    ensures
        indicators::average_rise(a, i, period) == indicators::average_rise(b, i, period),
        indicators::average_fall(a, i, period) == indicators::average_fall(b, i, period),
    decreases i,
{
    if i <= period {
        lemma_same_moves(a, b, i, period as int);
    } else {
        assert(a[i] == b[i]);
        assert(a[i - 1] == b[i - 1]);
        lemma_same_averages(a, b, i - 1, period);
    }
}

proof fn lemma_same_strength(a: Seq<Candle>, b: Seq<Candle>, i: int, period: nat)
    requires
        agree_upto(a, b, i),
    ensures
        indicators::rsi(a, i, period) == indicators::rsi(b, i, period),
{
    if i >= period {
        lemma_same_averages(a, b, i, period);
    }
}

proof fn lemma_same_extremes(
    a: Seq<Candle>,
    b: Seq<Candle>,
    i: int,
    start: int,
    end: int,
    period: nat,
)
    requires
        agree_upto(a, b, i),
        0 <= start,
        end <= i + 1,
    ensures
        indicators::lowest_rsi(a, start, end, period) == indicators::lowest_rsi(
            b,
            start,
            end,
            period,
        ),
        indicators::highest_rsi(a, start, end, period) == indicators::highest_rsi(
            b,
            start,
            end,
            period,
        ),
    decreases end - start,
{
    if start < end {
        lemma_same_strength(a, b, end - 1, period);
        lemma_same_extremes(a, b, i, start, end - 1, period);
    }
}

proof fn lemma_same_ranges(a: Seq<Candle>, b: Seq<Candle>, i: int, n: int)
    requires
        agree_upto(a, b, i),
        n <= i + 1,
    ensures
        indicators::range_sum(a, n) == indicators::range_sum(b, n),
    decreases n,
{
    if n > 0 {
        assert(a[n - 1] == b[n - 1]);
        if n > 1 {
            assert(a[n - 2] == b[n - 2]);
        }
        lemma_same_ranges(a, b, i, n - 1);
    }
}

proof fn lemma_same_smoothed_range(a: Seq<Candle>, b: Seq<Candle>, i: int, period: nat)
    requires
        agree_upto(a, b, i),
        period <= i + 1,
    ensures
        indicators::smoothed_range(a, i, period) == indicators::smoothed_range(b, i, period),
    decreases i,
{
    if i < period || i < 1 {
        lemma_same_ranges(a, b, i, period as int);
    } else {
        assert(a[i] == b[i]);
        assert(a[i - 1] == b[i - 1]);
        lemma_same_smoothed_range(a, b, i - 1, period);
    }
}

proof fn lemma_same_range(a: Seq<Candle>, b: Seq<Candle>, i: int, period: nat)
    requires
        agree_upto(a, b, i),
    ensures
        indicators::atr(a, i, period) == indicators::atr(b, i, period),
{
    if i < period {
        lemma_same_ranges(a, b, i, i + 1);
    } else {
        lemma_same_smoothed_range(a, b, i, period);
    }
}

proof fn lemma_same_trade(a: Seq<Candle>, b: Seq<Candle>, i: int, start: int, end: int)
    requires
        agree_upto(a, b, i),
        0 <= start,
        end <= i + 1,
    ensures
        indicators::traded_value(a, start, end) == indicators::traded_value(b, start, end),
        indicators::traded_volume(a, start, end) == indicators::traded_volume(b, start, end),
    decreases end - start,
{
    if start < end {
        assert(a[end - 1] == b[end - 1]);
        lemma_same_trade(a, b, i, start, end - 1);
    }
}

proof fn lemma_same_balance(a: Seq<Candle>, b: Seq<Candle>, i: int)
    requires
        agree_upto(a, b, i),
    ensures
        indicators::obv(a, i) == indicators::obv(b, i),
    decreases i,
{
    if i > 0 {
        assert(a[i] == b[i]);
        assert(a[i - 1] == b[i - 1]);
        lemma_same_balance(a, b, i - 1);
    }
}

/// No indicator looks ahead: candles behind the current one change nothing.
pub proof fn indicators_do_not_look_ahead(a: Seq<Candle>, b: Seq<Candle>, i: int, period: nat)
    requires
        agree_upto(a, b, i),
    ensures
        indicators::ema(a, i, period) == indicators::ema(b, i, period),
        indicators::sma(a, i, period) == indicators::sma(b, i, period),
        indicators::macd_line(a, i) == indicators::macd_line(b, i),
        indicators::macd_signal(a, i) == indicators::macd_signal(b, i),
        indicators::rsi(a, i, period) == indicators::rsi(b, i, period),
        indicators::stoch_rsi(a, i, period) == indicators::stoch_rsi(b, i, period),
        indicators::deviation(a, i, period) == indicators::deviation(b, i, period),
        indicators::atr(a, i, period) == indicators::atr(b, i, period),
        indicators::vwap(a, i) == indicators::vwap(b, i),
        indicators::obv(a, i) == indicators::obv(b, i),
{
    assert(a[i] == b[i]);
    lemma_same_ema(a, b, i, period);
    lemma_same_bands(a, b, i, period);
    lemma_same_signal(a, b, i);
    lemma_same_strength(a, b, i, period);
    if i >= period * 2 {
        lemma_same_extremes(a, b, i, i - period + 1, i + 1, period);
    }
    lemma_same_range(a, b, i, period);
    lemma_same_trade(a, b, i, indicators::window_start(i, 101), i + 1);
    lemma_same_balance(a, b, i);
}

/// The line of indicators does not look ahead either.
pub proof fn the_line_does_not_look_ahead(a: Seq<Candle>, b: Seq<Candle>, i: int, price: Double)
    requires
        agree_upto(a, b, i),
    ensures
        indicators::indicators_line(a, i, price) == indicators::indicators_line(b, i, price),
{
    reveal(indicators::line_head);
    reveal(indicators::line_tail);
    lemma_same_ema(a, b, i, 9);
    lemma_same_ema(a, b, i, 15);
    lemma_same_ema(a, b, i, 20);
    lemma_same_ema(a, b, i, 21);
    lemma_same_ema(a, b, i, 40);
    lemma_same_ema(a, b, i, 50);
    lemma_same_ema(a, b, i, 100);
    lemma_same_ema(a, b, i, 200);
    indicators_do_not_look_ahead(a, b, i, 14);
    indicators_do_not_look_ahead(a, b, i, 20);
}

/// The price touches only one place of the line: the average true range in percent. What stands
/// before and behind it depends on the candles alone, so that two prices with one percentage give
/// one line.
pub proof fn the_price_touches_only_the_range(
    candles: Seq<Candle>,
    i: int,
    price: Double,
    other: Double,
)
    ensures
        ({
            let range = indicators::atr(candles, i, 14);
            let head = indicators::line_head(candles, i);
            let tail = indicators::line_tail(candles, i);
            &&& indicators::indicators_line(candles, i, price) == head + decimal::fixed(
                indicators::range_percent(range, price),
                1,
            ) + tail
            &&& indicators::indicators_line(candles, i, other) == head + decimal::fixed(
                indicators::range_percent(range, other),
                1,
            ) + tail
        }),
{
}

/// The line of indicators with the figures `g`.
spec fn line_of(g: Seq<Seq<char>>) -> Seq<char> {
    "EMA9:"@ + g[0]
        + " EMA15:"@ + g[1]
        + " EMA20:"@ + g[2]
        + " EMA21:"@ + g[3]
        + " EMA40:"@ + g[4]
        + " EMA50:"@ + g[5]
        + " EMA100:"@ + g[6]
        + " EMA200:"@ + g[7]
        + " SMA20:"@ + g[8]
        + " MACD:["@ + g[9]
        + ","@ + g[10]
        + ","@ + g[11]
        + "] RSI:"@ + g[12]
        + " Stoch:"@ + g[13]
        + " BB:["@ + g[14]
        + ","@ + g[15]
        + ","@ + g[16]
        + "] ATR:"@ + g[17]
        + "("@ + g[18]
        + "%) VWAP:"@ + g[19]
        + " OBV:"@ + g[20]
}

/// The labels of the line and the figures `g`, in turn.
spec fn line_parts(g: Seq<Seq<char>>) -> Seq<Seq<char>> {
    seq![
        "EMA9:"@,
        g[0],
        " EMA15:"@,
        g[1],
        " EMA20:"@,
        g[2],
        " EMA21:"@,
        g[3],
        " EMA40:"@,
        g[4],
        " EMA50:"@,
        g[5],
        " EMA100:"@,
        g[6],
        " EMA200:"@,
        g[7],
        " SMA20:"@,
        g[8],
        " MACD:["@,
        g[9],
        ","@,
        g[10],
        ","@,
        g[11],
        "] RSI:"@,
        g[12],
        " Stoch:"@,
        g[13],
        " BB:["@,
        g[14],
        ","@,
        g[15],
        ","@,
        g[16],
        "] ATR:"@,
        g[17],
        "("@,
        g[18],
        "%) VWAP:"@,
        g[19],
        " OBV:"@,
        g[20],
    ]
}

proof fn lemma_line_parts(g: Seq<Seq<char>>)
    ensures
        line_of(g) == text::row(line_parts(g), 42),
{
    reveal_with_fuel(text::row, 43);
}

proof fn lemma_line_shows(g: Seq<Seq<char>>)
    ensures
        text::shows(line_of(g), "EMA9:"@, g[0], " EMA15:"@),
        text::shows(line_of(g), " EMA15:"@, g[1], " EMA20:"@),
        text::shows(line_of(g), " EMA20:"@, g[2], " EMA21:"@),
        text::shows(line_of(g), " EMA21:"@, g[3], " EMA40:"@),
        text::shows(line_of(g), " EMA40:"@, g[4], " EMA50:"@),
        text::shows(line_of(g), " EMA50:"@, g[5], " EMA100:"@),
        text::shows(line_of(g), " EMA100:"@, g[6], " EMA200:"@),
        text::shows(line_of(g), " EMA200:"@, g[7], " SMA20:"@),
        text::shows(line_of(g), " SMA20:"@, g[8], " MACD:["@),
        text::shows(line_of(g), " MACD:["@, g[9], ","@),
        text::shows(line_of(g), ","@, g[10], ","@),
        text::shows(line_of(g), ","@, g[11], "] RSI:"@),
        text::shows(line_of(g), "] RSI:"@, g[12], " Stoch:"@),
        text::shows(line_of(g), " Stoch:"@, g[13], " BB:["@),
        text::shows(line_of(g), " BB:["@, g[14], ","@),
        text::shows(line_of(g), ","@, g[15], ","@),
        text::shows(line_of(g), ","@, g[16], "] ATR:"@),
        text::shows(line_of(g), "] ATR:"@, g[17], "("@),
        text::shows(line_of(g), "("@, g[18], "%) VWAP:"@),
        text::shows(line_of(g), "%) VWAP:"@, g[19], " OBV:"@),
        text::ends_in(line_of(g), " OBV:"@ + g[20]),
{
    lemma_line_parts(g);
    let parts = line_parts(g);
    text::lemma_row_shows(parts, 42, 0);
    text::lemma_row_shows(parts, 42, 2);
    text::lemma_row_shows(parts, 42, 4);
    text::lemma_row_shows(parts, 42, 6);
    text::lemma_row_shows(parts, 42, 8);
    text::lemma_row_shows(parts, 42, 10);
    text::lemma_row_shows(parts, 42, 12);
    text::lemma_row_shows(parts, 42, 14);
    text::lemma_row_shows(parts, 42, 16);
    text::lemma_row_shows(parts, 42, 18);
    text::lemma_row_shows(parts, 42, 20);
    text::lemma_row_shows(parts, 42, 22);
    text::lemma_row_shows(parts, 42, 24);
    text::lemma_row_shows(parts, 42, 26);
    text::lemma_row_shows(parts, 42, 28);
    text::lemma_row_shows(parts, 42, 30);
    text::lemma_row_shows(parts, 42, 32);
    text::lemma_row_shows(parts, 42, 34);
    text::lemma_row_shows(parts, 42, 36);
    text::lemma_row_shows(parts, 42, 38);
    let before = text::row(parts, 40);
    assert(line_of(g) =~= before + (" OBV:"@ + g[20])) by {
        reveal_with_fuel(text::row, 3);
    }
    text::lemma_ends(before, " OBV:"@ + g[20]);
}

/// Every label of the line stands right before the figure of its name, and that before the next
/// label.
#[verifier::rlimit(50)]
pub proof fn every_label_stands_before_its_figure(candles: Seq<Candle>, i: int, price: Double)
    ensures
        ({
            let line = indicators::indicators_line(candles, i, price);
            &&& text::shows(line, "EMA9:"@, decimal::fixed(indicators::ema(candles, i, 9), 1), " EMA15:"@)
            &&& text::shows(line, " EMA15:"@, decimal::fixed(indicators::ema(candles, i, 15), 1), " EMA20:"@)
            &&& text::shows(line, " EMA20:"@, decimal::fixed(indicators::ema(candles, i, 20), 1), " EMA21:"@)
            &&& text::shows(line, " EMA21:"@, decimal::fixed(indicators::ema(candles, i, 21), 1), " EMA40:"@)
            &&& text::shows(line, " EMA40:"@, decimal::fixed(indicators::ema(candles, i, 40), 1), " EMA50:"@)
            &&& text::shows(line, " EMA50:"@, decimal::fixed(indicators::ema(candles, i, 50), 1), " EMA100:"@)
            &&& text::shows(line, " EMA100:"@, decimal::fixed(indicators::ema(candles, i, 100), 1), " EMA200:"@)
            &&& text::shows(line, " EMA200:"@, decimal::fixed(indicators::ema(candles, i, 200), 1), " SMA20:"@)
            &&& text::shows(line, " SMA20:"@, decimal::fixed(indicators::sma(candles, i, 20), 1), " MACD:["@)
            &&& text::shows(line, " MACD:["@, decimal::fixed(indicators::macd_line(candles, i), 2), ","@)
            &&& text::shows(line, ","@, decimal::fixed(indicators::macd_signal(candles, i), 2), ","@)
            &&& text::shows(line, ","@, decimal::fixed(indicators::macd_line(candles, i).minus(indicators::macd_signal(candles, i)), 2), "] RSI:"@)
            &&& text::shows(line, "] RSI:"@, decimal::fixed(indicators::rsi(candles, i, 14), 1), " Stoch:"@)
            &&& text::shows(line, " Stoch:"@, decimal::fixed(indicators::stoch_rsi(candles, i, 14), 1), " BB:["@)
            &&& text::shows(line, " BB:["@, decimal::fixed(indicators::sma(candles, i, 20).plus(Double::of(2).times(indicators::deviation(candles, i, 20))), 1), ","@)
            &&& text::shows(line, ","@, decimal::fixed(indicators::sma(candles, i, 20), 1), ","@)
            &&& text::shows(line, ","@, decimal::fixed(indicators::sma(candles, i, 20).minus(Double::of(2).times(indicators::deviation(candles, i, 20))), 1), "] ATR:"@)
            &&& text::shows(line, "] ATR:"@, decimal::fixed(indicators::atr(candles, i, 14), 1), "("@)
            &&& text::shows(line, "("@, decimal::fixed(indicators::range_percent(indicators::atr(candles, i, 14), price), 1), "%) VWAP:"@)
            &&& text::shows(line, "%) VWAP:"@, decimal::fixed(indicators::vwap(candles, i), 1), " OBV:"@)
            &&& text::ends_in(line, " OBV:"@ + decimal::fixed(indicators::obv(candles, i), 0))
        }),
{
    let g = seq![
        decimal::fixed(indicators::ema(candles, i, 9), 1),
        decimal::fixed(indicators::ema(candles, i, 15), 1),
        decimal::fixed(indicators::ema(candles, i, 20), 1),
        decimal::fixed(indicators::ema(candles, i, 21), 1),
        decimal::fixed(indicators::ema(candles, i, 40), 1),
        decimal::fixed(indicators::ema(candles, i, 50), 1),
        decimal::fixed(indicators::ema(candles, i, 100), 1),
        decimal::fixed(indicators::ema(candles, i, 200), 1),
        decimal::fixed(indicators::sma(candles, i, 20), 1),
        decimal::fixed(indicators::macd_line(candles, i), 2),
        decimal::fixed(indicators::macd_signal(candles, i), 2),
        decimal::fixed(indicators::macd_line(candles, i).minus(indicators::macd_signal(candles, i)), 2),
        decimal::fixed(indicators::rsi(candles, i, 14), 1),
        decimal::fixed(indicators::stoch_rsi(candles, i, 14), 1),
        decimal::fixed(indicators::sma(candles, i, 20).plus(Double::of(2).times(indicators::deviation(candles, i, 20))), 1),
        decimal::fixed(indicators::sma(candles, i, 20), 1),
        decimal::fixed(indicators::sma(candles, i, 20).minus(Double::of(2).times(indicators::deviation(candles, i, 20))), 1),
        decimal::fixed(indicators::atr(candles, i, 14), 1),
        decimal::fixed(indicators::range_percent(indicators::atr(candles, i, 14), price), 1),
        decimal::fixed(indicators::vwap(candles, i), 1),
        decimal::fixed(indicators::obv(candles, i), 0),
    ];
    lemma_line_is(candles, i, price, g);
    lemma_line_shows(g);
}

proof fn lemma_line_is(candles: Seq<Candle>, i: int, price: Double, g: Seq<Seq<char>>)
    requires
        g[0] == decimal::fixed(indicators::ema(candles, i, 9), 1),
        g[1] == decimal::fixed(indicators::ema(candles, i, 15), 1),
        g[2] == decimal::fixed(indicators::ema(candles, i, 20), 1),
        g[3] == decimal::fixed(indicators::ema(candles, i, 21), 1),
        g[4] == decimal::fixed(indicators::ema(candles, i, 40), 1),
        g[5] == decimal::fixed(indicators::ema(candles, i, 50), 1),
        g[6] == decimal::fixed(indicators::ema(candles, i, 100), 1),
        g[7] == decimal::fixed(indicators::ema(candles, i, 200), 1),
        g[8] == decimal::fixed(indicators::sma(candles, i, 20), 1),
        g[9] == decimal::fixed(indicators::macd_line(candles, i), 2),
        g[10] == decimal::fixed(indicators::macd_signal(candles, i), 2),
        g[11] == decimal::fixed(indicators::macd_line(candles, i).minus(indicators::macd_signal(candles, i)), 2),
        g[12] == decimal::fixed(indicators::rsi(candles, i, 14), 1),
        g[13] == decimal::fixed(indicators::stoch_rsi(candles, i, 14), 1),
        g[14] == decimal::fixed(indicators::sma(candles, i, 20).plus(Double::of(2).times(indicators::deviation(candles, i, 20))), 1),
        g[15] == decimal::fixed(indicators::sma(candles, i, 20), 1),
        g[16] == decimal::fixed(indicators::sma(candles, i, 20).minus(Double::of(2).times(indicators::deviation(candles, i, 20))), 1),
        g[17] == decimal::fixed(indicators::atr(candles, i, 14), 1),
        g[18] == decimal::fixed(indicators::range_percent(indicators::atr(candles, i, 14), price), 1),
        g[19] == decimal::fixed(indicators::vwap(candles, i), 1),
        g[20] == decimal::fixed(indicators::obv(candles, i), 0),
    ensures
        indicators::indicators_line(candles, i, price) == line_of(g),
{
    reveal(indicators::line_head);
    reveal(indicators::line_tail);
    assert(indicators::indicators_line(candles, i, price) =~= indicators::line_head(candles, i) + g[18] + "%) VWAP:"@ + g[19] + " OBV:"@ + g[20]);
}

} // verus!
