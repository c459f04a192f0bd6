use gemma_trading::dashboard::{equity_csv, generate_dashboard, page_with_lists};
use gemma_trading::double::Double;
use gemma_trading::metrics::{AdvancedMetrics, CurvePoint};

fn d(x: f64) -> Double {
    Double { bits: x.to_bits() }
}

fn point(time: &str, equity: f64, market: f64) -> CurvePoint {
    CurvePoint {
        time: time.to_string(),
        equity: d(equity),
        buy_and_hold: d(market),
        actions: String::new(),
        prices: String::new(),
    }
}

fn figures() -> AdvancedMetrics {
    AdvancedMetrics {
        winrate: d(55.5),
        profit_factor: d(1.25),
        max_drawdown: d(0.125),
        recovery_factor: d(2.5),
        sortino_ratio: d(-0.75),
        max_stagnation: 7,
        avg_stagnation: d(3.5),
        correlation: d(0.5),
    }
}

#[test]
fn table_has_a_line_for_each_point() {
    let curve = vec![point("a", 1.0, 2.0), point("b", 3.5, 4.0)];
    let equities = vec!["1".to_string(), "3.5".to_string()];
    let market = vec!["2".to_string(), "4".to_string()];
    assert_eq!(
        equity_csv(&curve, &equities, &market),
        "time,equity,buy_and_hold\na,1,2\nb,3.5,4\n"
    );
    assert_eq!(equity_csv(&vec![], &vec![], &vec![]), "time,equity,buy_and_hold\n");
}

#[test]
fn page_shows_the_figures() {
    let curve = vec![point("t \"0\"", 10000.0, 10000.0), point("t1", 10500.0, 9000.0)];
    let page = generate_dashboard(&curve, 3, 4, 1, &figures(), "[1.5]", "[2.5]");
    let times = "[\"t \\\"0\\\"\",\"t1\"]";
    assert_eq!(page, page_with_lists(&curve, 3, 4, 1, &figures(), times, "[1.5]", "[2.5]"));
    assert!(page.starts_with("<!DOCTYPE html>"));
    assert!(page.ends_with("</html>"));
    for part in [
        ">$10000.00</span>",
        ">$10500.00</span>",
        "text-emerald-400\">+5.00%</span>",
        ">-0.75</span>",
        ">2.50</span>",
        ">+0.5000</span>",
        ">-12.50%</span>",
        "text-violet-400 mt-1\">7</span>",
        "text-emerald-400 mt-1\">3</span>",
        "text-amber-400 mt-1\">4</span>",
        ">55.50%</span>",
        ">1.25</span>",
        "text-rose-500 animate-pulse\">1</span>",
        ">Max: 7 v.</span>",
        ">Promedio: 3.5 v.</span>",
        "const labels = [\"t \\\"0\\\"\",\"t1\"];",
        "const dataPoints = [1.5];",
        "const bhDataPoints = [2.5];",
    ] {
        assert!(page.contains(part), "{}", part);
    }
}

#[test]
fn page_of_nothing_has_no_gain() {
    let page = generate_dashboard(&vec![], 0, 0, 0, &figures(), "[]", "[]");
    assert!(page.contains("text-emerald-400\">+0.00%</span>"));
    assert!(page.contains("text-slate-400\">0</span>"));
    assert!(page.contains("const labels = [];"));
    let falling = vec![point("a", 100.0, 0.0), point("b", 50.0, 0.0)];
    let page = generate_dashboard(&falling, 0, 0, 0, &figures(), "[]", "[]");
    assert!(page.contains("text-rose-500\">-50.00%</span>"));
}
