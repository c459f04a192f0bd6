use gemma_trading::bingx_answers::ReportedPosition;
use gemma_trading::double::Double;
use gemma_trading::live::{
    current_position, enough_candles, entry_side, exit_side, plan_box, plan_opening, position_side,
    position_value, quantity_at, seconds_to_wait, size_of_direction, user_prompt, Closing, Opening,
};
use gemma_trading::types::{BoxAction, BoxType, Candle, PositionType};

fn d(x: f64) -> Double {
    Double { bits: x.to_bits() }
}

fn f(x: Double) -> f64 {
    f64::from_bits(x.bits)
}

fn report(amount: &str, side: &str) -> ReportedPosition {
    ReportedPosition {
        amount: amount.to_string(),
        side: side.to_string(),
        entry_price: "20000".to_string(),
        unrealized_profit: "-12.5".to_string(),
        leverage: "10".to_string(),
    }
}

fn wish(accion: &str, cerrar: bool, apalancamiento: Option<f64>) -> BoxAction {
    BoxAction {
        accion: accion.to_string(),
        cerrar,
        apalancamiento: apalancamiento.map(d),
        stop_loss: None,
    }
}

#[test]
fn first_open_position_counts() {
    let list = vec![report("0", "LONG"), report("-0.5", "SHORT"), report("1", "LONG")];
    let current = current_position(&list, 5);
    assert_eq!(current.position_type, PositionType::Short);
    assert_eq!(f(current.size_btc), 0.5);
    assert_eq!(f(current.entry_price), 20000.0);
    assert_eq!(f(current.floating_pnl), -12.5);
    assert_eq!(f(current.margin), 2000.0);
    assert_eq!(f(current.equity(d(100.0))), 2087.5);
    assert_eq!(f(current_position(&list, 0).margin), 0.0);
    let none = current_position(&vec![report("x", "LONG")], 5);
    assert_eq!(none.position_type, PositionType::NoPosition);
    assert_eq!(none.size_btc.bits, 0);
}

#[test]
fn size_is_that_of_the_direction() {
    let list = vec![report("-0.5", "SHORT"), report("0.7", "LONG"), report("9", "LONG")];
    assert_eq!(size_of_direction(&list, PositionType::Long).map(f), Some(0.7));
    assert_eq!(size_of_direction(&list, PositionType::Short).map(f), Some(0.5));
    assert_eq!(size_of_direction(&vec![], PositionType::Long), None);
}

#[test]
fn long_term_box_trades_with_the_trend() {
    let none = vec![];
    let orders = plan_box(&wish("long", false, None), BoxType::LT, PositionType::Long, &none, 10, d(1000.0));
    assert_eq!(orders.close, None);
    assert_eq!(
        orders.open,
        Opening::Open {
            wanted: PositionType::Long,
            leverage: 10,
            margin: d(1000.0 * 0.8),
            size_usdt: d(1000.0 * 0.8 * 10.0),
        }
    );
    let against = plan_box(&wish("SHORT", false, None), BoxType::LT, PositionType::Long, &none, 10, d(1000.0));
    assert_eq!(against.open, Opening::AgainstTrend { wanted: PositionType::Short });
}

#[test]
fn short_term_box_trades_both_ways() {
    let none = vec![];
    let orders = plan_box(&wish("SHORT", false, Some(7.9)), BoxType::ST, PositionType::Long, &none, 10, d(1000.0));
    assert_eq!(
        orders.open,
        Opening::Open {
            wanted: PositionType::Short,
            leverage: 7,
            margin: d(1000.0 * 0.2),
            size_usdt: d(1000.0 * 0.2 * 7.0),
        }
    );
    let held = vec![report("1", "SHORT")];
    let again = plan_box(&wish("SHORT", false, None), BoxType::ST, PositionType::Long, &held, 10, d(1000.0));
    assert_eq!(again.open, Opening::AlreadyOpen { wanted: PositionType::Short });
    assert_eq!(
        plan_opening(PositionType::Short, None, BoxType::ST, PositionType::Long, &held, 10, d(1.0)),
        Opening::AlreadyOpen { wanted: PositionType::Short }
    );
    let hold = plan_box(&wish("HOLD", false, None), BoxType::ST, PositionType::Long, &held, 10, d(1000.0));
    assert_eq!(hold.open, Opening::Nothing);
}

#[test]
fn odd_leverages_are_cut_to_whole_numbers() {
    for (chosen, expected) in [(-3.0, 5), (f64::NAN, 5), (5.99, 5), (9.99, 9), (10.5, 10), (1e12, 10)] {
        let orders =
            plan_box(&wish("LONG", false, Some(chosen)), BoxType::ST, PositionType::Long, &vec![], 10, d(1.0));
        match orders.open {
            Opening::Open { leverage, .. } => assert_eq!(leverage, expected),
            other => panic!("{:?}", other),
        }
    }
}

#[test]
fn boxes_close_opposite_directions() {
    let held = vec![report("0.5", "LONG"), report("0.25", "SHORT")];
    let close = |b, trend| plan_box(&wish("FLAT", true, None), b, trend, &held, 10, d(1.0)).close;
    assert_eq!(
        close(BoxType::LT, PositionType::Long),
        Some(Closing { direction: PositionType::Long, quantity: d(0.5) })
    );
    assert_eq!(
        close(BoxType::ST, PositionType::Long),
        Some(Closing { direction: PositionType::Short, quantity: d(0.25) })
    );
    assert_eq!(
        close(BoxType::ST, PositionType::Short),
        Some(Closing { direction: PositionType::Long, quantity: d(0.5) })
    );
    let none = plan_box(&wish("FLAT", true, None), BoxType::LT, PositionType::Long, &vec![], 10, d(1.0));
    assert_eq!(none.close, None);
}

#[test]
fn sides_have_their_names() {
    assert_eq!(position_side(PositionType::Long), "LONG");
    assert_eq!(position_side(PositionType::Short), "SHORT");
    assert_eq!(entry_side(PositionType::Long), "BUY");
    assert_eq!(entry_side(PositionType::Short), "SELL");
    assert_eq!(exit_side(PositionType::Long), "SELL");
    assert_eq!(exit_side(PositionType::Short), "BUY");
    assert_eq!(f(quantity_at(d(8000.0), d(20000.0))), 0.4);
    assert_eq!(f(position_value(d(80.0), 5)), 400.0);
    assert!(enough_candles(10));
    assert!(!enough_candles(9));
}

#[test]
fn wait_lasts_until_the_next_candle() {
    assert_eq!(seconds_to_wait("1h", 0), 3610);
    assert_eq!(seconds_to_wait("1h", 3599), 11);
    assert_eq!(seconds_to_wait("4h", 14400 + 400), 14010);
    assert_eq!(seconds_to_wait("1d", 86399), 11);
    assert_eq!(seconds_to_wait("?", 3600), 3610);
    assert_eq!(seconds_to_wait("1h", -1), 3611);
    assert_eq!(seconds_to_wait("1h", i64::MIN), 3600 - (i64::MIN % 3600) + 10);
}

#[test]
fn live_question_uses_the_live_price() {
    let candles: Vec<Candle> = (0..10)
        .map(|i| Candle {
            open_time: i,
            open: d(100.0),
            high: d(101.0),
            low: d(99.0),
            close: d(100.0),
            volume: d(5.0),
            close_time: i,
        })
        .collect();
    let list = vec![report("0.01", "LONG")];
    let current = current_position(&list, 10);
    let question = user_prompt(&candles, d(105.0), d(50.0), 10, &current);
    assert!(question.starts_with("DATA (Recent)\nCurrent BTC Price (Close): 105.00 USDT\nLast 20 candles history:\n- t-9: O:100.0, H:101.0, L:99.0, C:100.0, V:5\n"));
    assert!(question.contains("- t-0: O:100.0, H:105.0, L:99.0, C:105.0, V:5 (Current)\n\n\nTECHNICAL INDICATORS\n"));
    let percent: f64 = ((100.0 / 10.0) - (100.0 / 10.0 * 0.08)) - 0.045;
    let tail = format!(
        "\n\nACCOUNT STATUS\nFree balance (not in margin): 50.00 USDT\nTotal Equity: {:.2} USDT\nLeverage: 10.0x\nRisk parameters: Max % risk per trade: 10%\nActive position: Long\nPosition Margin: {:.2} USDT (Isolated Mode)\nPosition size: 0.010000 BTC ($1.05)\nEntry price: 20000.00 USDT\nLiquidation price: {:.2} USDT (If it moves {:.3}% against)\nFloating PnL: -12.50 USDT\nWhat action do you take? Respond strictly in JSON format",
        50.0 + 20.0 - 12.5,
        20.0,
        20000.0 * (1.0 - percent / 100.0),
        percent
    );
    assert!(question.ends_with(&tail), "{}", question);
}
