use gemma_trading::double::Double;
use gemma_trading::indicators::{
    calculate_atr, calculate_bollinger_bands, calculate_ema, calculate_indicators, calculate_macd,
    calculate_obv, calculate_rsi, calculate_sma, calculate_stoch_rsi, calculate_vwap,
};
use gemma_trading::types::Candle;

fn d(x: f64) -> Double {
    Double { bits: x.to_bits() }
}

fn f(x: Double) -> f64 {
    f64::from_bits(x.bits)
}

fn candle(open: f64, high: f64, low: f64, close: f64, volume: f64) -> Candle {
    Candle {
        open_time: 0,
        open: d(open),
        high: d(high),
        low: d(low),
        close: d(close),
        volume: d(volume),
        close_time: 0,
    }
}

/// A market that rises, falls and stands still.
fn market(n: usize) -> Vec<Candle> {
    let mut state: u64 = 88172645463325252;
    let mut price = 20000.0;
    let mut out = Vec::new();
    for i in 0..n {
        state ^= state << 13;
        state ^= state >> 7;
        state ^= state << 17;
        let step = (state % 2001) as f64 / 10.0 - 100.0;
        let open = price;
        if i % 7 != 3 {
            price += step;
        }
        let high = f64::max(open, price) + (state % 50) as f64;
        let low = f64::min(open, price) - (state % 40) as f64;
        out.push(candle(open, high, low, price, (state % 900) as f64 / 7.0));
    }
    out
}

fn closes(candles: &[Candle]) -> Vec<f64> {
    candles.iter().map(|c| f(c.close)).collect()
}

fn ema(closes: &[f64], i: usize, period: usize) -> f64 {
    let alpha = 2.0 / (period as f64 + 1.0);
    let mut average = closes[0];
    for k in 1..=i {
        average = (closes[k] * alpha) + (average * (1.0 - alpha));
    }
    average
}

fn sma(closes: &[f64], i: usize, period: usize) -> f64 {
    let part = &closes[i.saturating_sub(period - 1)..=i];
    part.iter().sum::<f64>() / part.len() as f64
}

fn rsi(closes: &[f64], i: usize, period: usize) -> f64 {
    if i < period {
        return 50.0;
    }
    let mut gains = 0.0;
    let mut losses = 0.0;
    for k in 1..=period {
        let diff = closes[k] - closes[k - 1];
        if diff > 0.0 {
            gains += diff;
        } else {
            losses += diff.abs();
        }
    }
    let mut gain = gains / period as f64;
    let mut loss = losses / period as f64;
    for k in (period + 1)..=i {
        let diff = closes[k] - closes[k - 1];
        let up = if diff > 0.0 { diff } else { 0.0 };
        let down = if diff < 0.0 { diff.abs() } else { 0.0 };
        gain = (gain * (period - 1) as f64 + up) / period as f64;
        loss = (loss * (period - 1) as f64 + down) / period as f64;
    }
    if loss == 0.0 {
        return 100.0;
    }
    100.0 - (100.0 / (1.0 + gain / loss))
}

#[test]
fn averages_agree_with_the_machine() {
    let candles = market(120);
    let c = closes(&candles);
    for i in [0usize, 1, 5, 19, 20, 60, 119] {
        for period in [1, 9, 20, 50, 200] {
            assert_eq!(calculate_ema(&candles, i, period).bits, ema(&c, i, period).to_bits());
            assert_eq!(calculate_sma(&candles, i, period).bits, sma(&c, i, period).to_bits());
        }
    }
}

#[test]
fn average_of_no_candle_is_zero() {
    assert_eq!(calculate_ema(&[], 0, 20).bits, 0);
    assert_eq!(calculate_ema(&market(3), 3, 20).bits, 0);
}

#[test]
fn macd_agrees_with_the_machine() {
    let candles = market(80);
    let c = closes(&candles);
    for i in [0, 1, 30, 79] {
        let mut line = Vec::new();
        for k in 0..=i {
            line.push(ema(&c, k, 12) - ema(&c, k, 26));
        }
        let alpha = 2.0 / 10.0;
        let mut signal = line[0];
        for k in 1..=i {
            signal = (line[k] * alpha) + (signal * (1.0 - alpha));
        }
        let (l, s, h) = calculate_macd(&candles, i);
        assert_eq!(l.bits, line[i].to_bits());
        assert_eq!(s.bits, signal.to_bits());
        assert_eq!(h.bits, (line[i] - signal).to_bits());
    }
}

#[test]
fn strength_agrees_with_the_machine() {
    let candles = market(60);
    let c = closes(&candles);
    for i in 0..60 {
        assert_eq!(calculate_rsi(&candles, i, 14).bits, rsi(&c, i, 14).to_bits());
    }
}

#[test]
fn strength_stays_between_zero_and_a_hundred() {
    let rising: Vec<Candle> = (0..30).map(|i| candle(0.0, 0.0, 0.0, i as f64, 0.0)).collect();
    assert_eq!(f(calculate_rsi(&rising, 29, 14)), 100.0);
    let falling: Vec<Candle> = (0..30).map(|i| candle(0.0, 0.0, 0.0, 99.0 - i as f64, 0.0)).collect();
    assert_eq!(f(calculate_rsi(&falling, 29, 14)), 0.0);
    let candles = market(200);
    for i in 0..200 {
        let x = f(calculate_rsi(&candles, i, 14));
        assert!((0.0..=100.0).contains(&x));
    }
    assert_eq!(f(calculate_rsi(&candles, 13, 14)), 50.0);
}

#[test]
fn stochastic_strength_agrees_with_the_machine() {
    let candles = market(60);
    let c = closes(&candles);
    for i in [0, 27, 28, 40, 59] {
        let expected = if i < 28 {
            50.0
        } else {
            let series: Vec<f64> = ((i - 13)..=i).map(|k| rsi(&c, k, 14)).collect();
            let low = series.iter().fold(f64::INFINITY, |a, &b| a.min(b));
            let high = series.iter().fold(f64::NEG_INFINITY, |a, &b| a.max(b));
            if high > low {
                (series[13] - low) / (high - low) * 100.0
            } else {
                50.0
            }
        };
        let (k, s) = calculate_stoch_rsi(&candles, i, 14);
        assert_eq!(k.bits, expected.to_bits());
        assert_eq!(s.bits, expected.to_bits());
    }
}

#[test]
fn bands_agree_with_the_machine() {
    let candles = market(60);
    let c = closes(&candles);
    for i in [0usize, 10, 19, 59] {
        let basis = sma(&c, i, 20);
        let part = &c[i.saturating_sub(19)..=i];
        let squares: f64 = part.iter().map(|x| (x - basis) * (x - basis)).sum();
        let deviation = (squares / part.len() as f64).sqrt();
        let (upper, middle, lower) = calculate_bollinger_bands(&candles, i, 20, d(2.0));
        assert_eq!(upper.bits, (basis + 2.0 * deviation).to_bits());
        assert_eq!(middle.bits, basis.to_bits());
        assert_eq!(lower.bits, (basis - 2.0 * deviation).to_bits());
    }
}

#[test]
fn range_agrees_with_the_machine() {
    let candles = market(60);
    for i in [0, 5, 13, 14, 59] {
        let mut ranges = Vec::new();
        for k in 0..=i {
            let (high, low) = (f(candles[k].high), f(candles[k].low));
            ranges.push(if k > 0 {
                let last = f(candles[k - 1].close);
                (high - low).max((high - last).abs()).max((low - last).abs())
            } else {
                high - low
            });
        }
        let expected = if i < 14 {
            ranges.iter().sum::<f64>() / (i + 1) as f64
        } else {
            let mut range = ranges[0..14].iter().sum::<f64>() / 14.0;
            for k in 14..=i {
                range = (range * 13.0 + ranges[k]) / 14.0;
            }
            range
        };
        assert_eq!(calculate_atr(&candles, i, 14).bits, expected.to_bits());
    }
    assert_eq!(calculate_atr(&[], 0, 14).bits, 0);
}

#[test]
fn volume_figures_agree_with_the_machine() {
    let candles = market(150);
    for i in [0usize, 1, 100, 149] {
        let mut value = 0.0;
        let mut volume = 0.0;
        for c in &candles[i.saturating_sub(100)..=i] {
            value += (f(c.high) + f(c.low) + f(c.close)) / 3.0 * f(c.volume);
            volume += f(c.volume);
        }
        let expected = if volume == 0.0 { f(candles[i].close) } else { value / volume };
        assert_eq!(calculate_vwap(&candles, i).bits, expected.to_bits());
        let mut balance = 0.0;
        for k in 1..=i {
            if f(candles[k].close) > f(candles[k - 1].close) {
                balance += f(candles[k].volume);
            } else if f(candles[k].close) < f(candles[k - 1].close) {
                balance -= f(candles[k].volume);
            }
        }
        assert_eq!(calculate_obv(&candles, i).bits, f64::to_bits(balance));
    }
}

#[test]
fn price_stands_for_the_average_where_nothing_was_traded() {
    let quiet = vec![candle(1.0, 3.0, 1.0, 2.5, 0.0)];
    assert_eq!(f(calculate_vwap(&quiet, 0)), 2.5);
}

#[test]
fn line_shows_every_indicator() {
    let flat = vec![candle(100.0, 101.0, 99.0, 100.0, 3.0); 3];
    assert_eq!(
        calculate_indicators(&flat, 2, d(100.0)),
        "EMA9:100.0 EMA15:100.0 EMA20:100.0 EMA21:100.0 EMA40:100.0 EMA50:100.0 EMA100:100.0 EMA200:100.0 SMA20:100.0 MACD:[0.00,0.00,0.00] RSI:50.0 Stoch:50.0 BB:[100.0,100.0,100.0] ATR:2.0(2.0%) VWAP:100.0 OBV:0"
    );
    let line = calculate_indicators(&flat, 2, d(0.0));
    assert!(line.contains("ATR:2.0(0.0%)"));
}

#[test]
fn line_does_not_look_ahead() {
    let candles = market(80);
    let mut changed = market(80);
    for c in changed.iter_mut().skip(51) {
        *c = candle(1.0, 2.0, 0.5, 1.5, 1e6);
    }
    let price = d(20000.0);
    assert_eq!(calculate_indicators(&candles, 50, price), calculate_indicators(&changed, 50, price));
    assert_eq!(calculate_indicators(&candles, 50, price), calculate_indicators(&candles[..51], 50, price));
    assert!(calculate_indicators(&candles, 51, price) != calculate_indicators(&changed, 51, price));
}

#[test]
fn price_touches_only_the_range() {
    let candles = market(80);
    let near = calculate_indicators(&candles, 60, d(20000.0));
    let far = calculate_indicators(&candles, 60, d(2000.0));
    assert!(near != far);
    let cut = |line: &str| {
        let open = line.find('(').unwrap();
        let close = line.find("%)").unwrap();
        (line[..open].to_string(), line[close..].to_string())
    };
    assert_eq!(cut(&near), cut(&far));
}

#[test]
fn first_candle_has_no_strength_over_no_candles() {
    let candles = market(5);
    assert!(f(calculate_rsi(&candles, 0, 0)).is_nan());
    let (k, _) = calculate_stoch_rsi(&[], 27, 14);
    assert_eq!(f(k), 50.0);
    let (k, s) = calculate_stoch_rsi(&candles, 3, 0);
    assert_eq!(f(k), 50.0);
    assert_eq!(f(s), 50.0);
}
