use gemma_trading::double::Double;
use gemma_trading::menu::{
    agrees, answer_or, chosen_direction, chosen_leverage, chosen_limit, chosen_margin,
    chosen_place, chosen_risk, chosen_start, chosen_test_limit, chosen_timeframe,
    chosen_timeframes, chosen_whole_leverage, compare_runs, complete_credentials, confirms,
    is_agreement, is_confirmation, is_deterministic, parse_natural, read_live_choice, read_main_choice, read_order_choice,
    short_actions, LiveChoice, MainChoice, OrderChoice,
};
use gemma_trading::simulation::BacktestSummary;
use gemma_trading::types::PositionType;

fn d(x: f64) -> Double {
    Double { bits: x.to_bits() }
}

fn f(x: Double) -> f64 {
    f64::from_bits(x.bits)
}

fn run(equity: f64, actions: &str) -> BacktestSummary {
    BacktestSummary {
        final_equity: d(equity),
        winrate: d(0.0),
        profit_factor: d(0.0),
        total_trades: 0,
        max_drawdown: d(0.0),
        correlation: d(0.0),
        actions_sequence: actions.to_string(),
    }
}

#[test]
fn main_menu_is_understood() {
    let choices = [
        MainChoice::UpdateDb,
        MainChoice::Backtest,
        MainChoice::BacktestVerbose,
        MainChoice::BacktestDynamic,
        MainChoice::ConfigureModel,
        MainChoice::LiveTrading,
        MainChoice::Quit,
        MainChoice::DeterminismTest,
    ];
    for (i, choice) in choices.iter().enumerate() {
        assert_eq!(read_main_choice(&format!(" {}\r\n", i + 1)), *choice);
    }
    assert_eq!(read_main_choice("9"), MainChoice::Unknown);
    assert_eq!(read_main_choice(""), MainChoice::Unknown);
}

#[test]
fn other_menus_are_understood() {
    assert_eq!(read_live_choice("1\n"), LiveChoice::Configure);
    assert_eq!(read_live_choice("2"), LiveChoice::DeleteCredentials);
    assert_eq!(read_live_choice("3"), LiveChoice::TestApi);
    assert_eq!(read_live_choice("4"), LiveChoice::ManualOrders);
    assert_eq!(read_live_choice("5"), LiveChoice::Automatic);
    assert_eq!(read_live_choice("6"), LiveChoice::Back);
    assert_eq!(read_live_choice("7"), LiveChoice::Unknown);
    assert_eq!(read_order_choice("1"), OrderChoice::Open);
    assert_eq!(read_order_choice(" 2 "), OrderChoice::Close);
    assert_eq!(read_order_choice("3"), OrderChoice::Back);
}

#[test]
fn timeframes_are_chosen() {
    assert_eq!(chosen_timeframe("2\n"), "4h");
    assert_eq!(chosen_timeframe("3"), "1d");
    assert_eq!(chosen_timeframe("1"), "1h");
    assert_eq!(chosen_timeframe(""), "1h");
    assert_eq!(chosen_timeframes("4"), vec!["1h", "4h", "1d"]);
    assert_eq!(chosen_timeframes("3"), vec!["1d"]);
    assert_eq!(chosen_timeframes("x"), vec!["1h"]);
}

#[test]
fn agreement_is_heard() {
    for yes in ["s", "S", " Si\n", "SÍ", "sí"] {
        assert!(agrees(yes), "{}", yes);
    }
    for no in ["", "n", "yes", "y", "sip"] {
        assert!(!agrees(no), "{}", no);
    }
    assert!(is_agreement("sí"));
    assert!(!is_agreement("S"));
    assert!(is_confirmation("yes"));
    assert!(!is_confirmation("sí"));
    for yes in ["s", "SI", "Y", "yes\n"] {
        assert!(confirms(yes), "{}", yes);
    }
    for no in ["", "no", "sí", "yess"] {
        assert!(!confirms(no), "{}", no);
    }
}

#[test]
fn numbers_are_chosen_within_their_bounds() {
    assert_eq!(f(chosen_leverage("12.5\n")), 12.5);
    assert_eq!(f(chosen_leverage("0")), 10.0);
    assert_eq!(f(chosen_leverage("-3")), 10.0);
    assert_eq!(f(chosen_leverage("nan")), 10.0);
    assert_eq!(f(chosen_leverage("")), 10.0);
    assert_eq!(f(chosen_risk("25")), 25.0);
    assert_eq!(f(chosen_risk("100")), 100.0);
    assert_eq!(f(chosen_risk("100.1")), 100.0);
    assert_eq!(f(chosen_risk("0")), 100.0);
    assert_eq!(f(chosen_margin("33.3")), 33.3);
    assert_eq!(f(chosen_margin("x")), 10.0);
}

#[test]
fn counts_are_chosen() {
    assert_eq!(chosen_limit("50\n"), Some(50));
    assert_eq!(chosen_limit("+7"), Some(7));
    assert_eq!(chosen_limit("0"), None);
    assert_eq!(chosen_limit("-1"), None);
    assert_eq!(chosen_limit("many"), None);
    assert_eq!(chosen_test_limit(""), Some(50));
    assert_eq!(chosen_test_limit("x"), Some(50));
    assert_eq!(chosen_test_limit("0"), None);
    assert_eq!(chosen_test_limit("12"), Some(12));
    assert_eq!(chosen_whole_leverage("20", 10), 20);
    assert_eq!(chosen_whole_leverage("4294967296", 10), 10);
    assert_eq!(chosen_whole_leverage("7.5", 10), 10);
}

#[test]
fn natural_numbers_are_read_as_the_machine_reads_them() {
    for text in ["0", "007", "+0", "18446744073709551615", "18446744073709551616", "", "+", "-0", "1 ", "٣", "99999999999999999999999999"] {
        assert_eq!(parse_natural(text, u64::MAX), text.parse::<u64>().ok(), "{}", text);
    }
    for n in [0u64, 9, 10, 12345, u64::MAX] {
        assert_eq!(parse_natural(&n.to_string(), u64::MAX), Some(n));
    }
    assert_eq!(parse_natural("101", 100), None);
    assert_eq!(parse_natural("100", 100), Some(100));
}

#[test]
fn empty_answers_have_defaults() {
    assert_eq!(answer_or(" x \n", "y"), "x");
    assert_eq!(answer_or(" \n", "y"), "y");
    assert_eq!(chosen_start("\n"), "2020-04-20");
    assert_eq!(chosen_start("2021-01-01\n"), "2021-01-01");
    assert!(complete_credentials("k", "s"));
    assert!(!complete_credentials("", "s"));
    assert!(!complete_credentials("k", ""));
    assert_eq!(chosen_direction("2"), PositionType::Short);
    assert_eq!(chosen_direction("1"), PositionType::Long);
}

#[test]
fn places_are_counted_from_one() {
    assert_eq!(chosen_place("1", 3), Some(0));
    assert_eq!(chosen_place("3", 3), Some(2));
    assert_eq!(chosen_place("4", 3), None);
    assert_eq!(chosen_place("0", 3), None);
    assert_eq!(chosen_place("?", 3), Some(0));
    assert_eq!(chosen_place("?", 0), None);
}

#[test]
fn runs_are_compared() {
    let a = run(10000.0, "x|");
    assert!(!compare_runs(&a, &a).equity);
    assert!(!compare_runs(&a, &a).actions);
    let odd = run(f64::NAN, "");
    assert!(!compare_runs(&odd, &odd).equity);
    let near = compare_runs(&a, &run(10000.0005, "x|"));
    assert!(!near.equity && !near.actions);
    let far = compare_runs(&a, &run(10000.01, "y|"));
    assert!(far.equity && far.actions);
    assert!(is_deterministic(&vec![run(1.0, "a"), run(1.0, "a"), run(1.0005, "a")]));
    assert!(!is_deterministic(&vec![run(1.0, "a"), run(1.0, "a"), run(1.0, "b")]));
    assert!(is_deterministic(&vec![]));
}

#[test]
fn actions_are_shown_in_short() {
    assert_eq!(short_actions(""), "N/A");
    assert_eq!(short_actions("a|b"), "a, b");
    assert_eq!(short_actions("123456789012345"), "123456789012345");
    assert_eq!(short_actions("1234|678901234567"), "1234, 6789012345...");
    assert_eq!(short_actions("a\nb"), "a b");
}
