use gemma_trading::double::Double;
use gemma_trading::metrics::{
    calculate_advanced_metrics, calculate_correlation, calculate_sortino, drawdown_figures,
    stagnation_figures, trade_figures, yearly_candles, CurvePoint,
};

fn d(x: f64) -> Double {
    Double { bits: x.to_bits() }
}

fn f(x: Double) -> f64 {
    f64::from_bits(x.bits)
}

fn list(xs: &[f64]) -> Vec<Double> {
    xs.iter().map(|x| d(*x)).collect()
}

fn curve(eqs: &[f64], market: &[f64]) -> Vec<CurvePoint> {
    eqs.iter()
        .zip(market)
        .map(|(e, m)| CurvePoint {
            time: String::new(),
            equity: d(*e),
            buy_and_hold: d(*m),
            actions: String::new(),
            prices: String::new(),
        })
        .collect()
}

#[test]
fn correlation_of_a_list_with_itself_is_one() {
    let a = list(&[1.0, 2.0, 4.0, 8.0]);
    assert_eq!(f(calculate_correlation(&a, &a)), 1.0);
    let b = list(&[-1.0, -2.0, -4.0, -8.0]);
    assert_eq!(f(calculate_correlation(&a, &b)), -1.0);
}

#[test]
fn correlation_does_not_depend_on_the_order() {
    let a = list(&[1.0, 3.5, 2.25, 9.0, -4.0]);
    let b = list(&[0.1, 0.7, 0.2, 0.3, 12.0]);
    assert_eq!(calculate_correlation(&a, &b).bits, calculate_correlation(&b, &a).bits);
}

#[test]
fn correlation_is_zero_without_something_to_compare() {
    assert_eq!(calculate_correlation(&[], &[]).bits, 0);
    assert_eq!(calculate_correlation(&list(&[1.0]), &list(&[1.0, 2.0])).bits, 0);
    assert_eq!(calculate_correlation(&list(&[5.0, 5.0]), &list(&[1.0, 2.0])).bits, 0);
}

#[test]
fn correlation_agrees_with_the_machine() {
    let a = [10000.0, 10100.5, 9900.25, 10333.1];
    let b = [10000.0, 10050.0, 10010.7, 10400.9];
    let n = 4.0;
    let ma = a.iter().sum::<f64>() / n;
    let mb = b.iter().sum::<f64>() / n;
    let (mut num, mut da, mut db) = (0.0, 0.0, 0.0);
    for i in 0..4 {
        num += (a[i] - ma) * (b[i] - mb);
        da += (a[i] - ma) * (a[i] - ma);
        db += (b[i] - mb) * (b[i] - mb);
    }
    let expected: f64 = num / f64::sqrt(da * db);
    assert_eq!(calculate_correlation(&list(&a), &list(&b)).bits, expected.to_bits());
}

#[test]
fn gains_and_losses_are_counted() {
    let (rate, factor) = trade_figures(&list(&[10.0, -5.0, 0.0, 30.0]));
    assert_eq!(f(rate), 50.0);
    assert_eq!(f(factor), 8.0);
    let (rate, factor) = trade_figures(&list(&[10.0]));
    assert_eq!(f(rate), 100.0);
    assert_eq!(f(factor), 99.9);
    let (rate, factor) = trade_figures(&list(&[]));
    assert_eq!(rate.bits, 0);
    assert_eq!(factor.bits, 0);
    let (rate, factor) = trade_figures(&list(&[-4.0]));
    assert_eq!(f(rate), 0.0);
    let nothing: Vec<f64> = Vec::new();
    assert_eq!(factor.bits, (nothing.iter().sum::<f64>() / 4.0).to_bits());
}

#[test]
fn share_of_gains_stays_within_a_hundred() {
    for wins in 0..=7usize {
        let mut pnls = vec![1.0; wins];
        pnls.extend(vec![-1.0; 7 - wins]);
        let (rate, _) = trade_figures(&list(&pnls));
        assert!((0.0..=100.0).contains(&f(rate)));
        assert_eq!(f(rate), wins as f64 / 7.0 * 100.0);
    }
}

#[test]
fn fall_is_measured_from_the_peak() {
    let (share, recovery) = drawdown_figures(d(100.0), &list(&[100.0, 150.0, 75.0, 120.0]));
    assert_eq!(f(share), 0.5);
    assert_eq!(f(recovery), 20.0 / 75.0);
    let (share, recovery) = drawdown_figures(d(100.0), &list(&[]));
    assert_eq!(share.bits, 0);
    assert_eq!(recovery.bits, 0);
}

#[test]
fn fall_never_shrinks() {
    let eqs = [100.0, 90.0, 120.0, 80.0, 130.0, 129.0];
    let mut last = 0.0;
    for n in 0..=eqs.len() {
        let (share, _) = drawdown_figures(d(100.0), &list(&eqs[..n]));
        assert!(f(share) >= last);
        last = f(share);
    }
    assert_eq!(last, 40.0 / 120.0);
}

#[test]
fn downside_is_annualized() {
    let eqs = [100.0, 110.0, 99.0, 108.9];
    let changes: Vec<f64> = eqs.windows(2).map(|w| (w[1] - w[0]) / w[0]).collect();
    let mean = changes.iter().sum::<f64>() / 3.0;
    let squares: f64 = changes.iter().map(|&r| if r < 0.0 { r * r } else { 0.0 }).sum();
    let deviation = (squares / 2.0).sqrt();
    for (timeframe, factor) in [
        ("1h", (24.0 * 365.0f64).sqrt()),
        ("4h", (6.0 * 365.0f64).sqrt()),
        ("1d", 365.0f64.sqrt()),
        ("1w", 1.0),
    ] {
        let expected = mean / deviation * factor;
        assert_eq!(calculate_sortino(&list(&eqs), timeframe).bits, expected.to_bits());
    }
    assert_eq!(calculate_sortino(&list(&[1.0, 2.0]), "1h").bits, 0);
    assert_eq!(calculate_sortino(&list(&[1.0, 2.0, 3.0]), "1h").bits, 0);
    assert_eq!(yearly_candles("1h"), 8760);
}

#[test]
fn stagnation_counts_points_below_the_level() {
    let eqs = list(&[100.0, 90.0, 95.0, 101.0, 100.0, 99.0, 98.0]);
    let (longest, average) = stagnation_figures(d(100.0), &eqs);
    assert_eq!(longest, 3);
    assert_eq!(f(average), 2.5);
    assert!(longest <= eqs.len());
    let (longest, average) = stagnation_figures(d(100.0), &list(&[100.0, 101.0]));
    assert_eq!(longest, 0);
    assert_eq!(average.bits, 0);
}

#[test]
fn figures_come_together() {
    let points = curve(&[10000.0, 10100.0, 9900.0], &[10000.0, 10050.0, 9950.0]);
    let r = calculate_advanced_metrics(&points, &list(&[100.0, -200.0]), d(10000.0), "1h");
    assert_eq!(f(r.winrate), 50.0);
    assert_eq!(f(r.profit_factor), 0.5);
    assert_eq!(f(r.max_drawdown), 200.0 / 10100.0);
    assert_eq!(f(r.recovery_factor), -0.5);
    assert_eq!(r.max_stagnation, 1);
    assert_eq!(f(r.avg_stagnation), 1.0);
    assert!(f(r.correlation) > 0.99);
    assert!(f(r.sortino_ratio) < 0.0);
}

#[test]
fn ratio_scales_by_the_root_of_the_year() {
    let points = curve(&[100.0, 110.0, 99.0, 108.9, 97.3], &[100.0, 101.0, 99.0, 98.0, 97.0]);
    let pnls = list(&[3.0, -1.0]);
    let roots = [("1h", 8760f64.sqrt()), ("4h", 2190f64.sqrt()), ("1d", 365f64.sqrt()), ("", 1.0)];
    for (t, a) in roots {
        for (w, b) in roots {
            let r = calculate_advanced_metrics(&points, &pnls, d(100.0), t);
            let s = calculate_advanced_metrics(&points, &pnls, d(100.0), w);
            let (left, right) = (f(r.sortino_ratio) * b, f(s.sortino_ratio) * a);
            assert!((left - right).abs() <= left.abs() * 1e-15);
            assert_eq!(r.winrate, s.winrate);
            assert_eq!(r.profit_factor, s.profit_factor);
            assert_eq!(r.max_drawdown, s.max_drawdown);
            assert_eq!(r.recovery_factor, s.recovery_factor);
            assert_eq!(r.max_stagnation, s.max_stagnation);
            assert_eq!(r.avg_stagnation, s.avg_stagnation);
            assert_eq!(r.correlation, s.correlation);
        }
    }
}

#[test]
fn correlation_stays_within_one() {
    let mut state: u64 = 88172645463325252;
    let mut next = || {
        state ^= state << 13;
        state ^= state >> 7;
        state ^= state << 17;
        d((state % 2001) as f64 / 7.0 - 100.0)
    };
    for n in 1..40 {
        let a: Vec<Double> = (0..n).map(|_| next()).collect();
        let b: Vec<Double> = (0..n).map(|_| next()).collect();
        let r = f(calculate_correlation(&a, &b));
        assert!(r.abs() <= 1.0 + 1e-12);
        assert_eq!(r, f(calculate_correlation(&b, &a)));
    }
}
