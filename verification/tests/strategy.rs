use gemma_trading::backtest::{
    allocation_of, allowed_leverage, box_has_place, get_liquidation_percentage, liquidation_price_of,
    wanted_direction, BoxOutcome, Rules,
};
use gemma_trading::double::Double;
use gemma_trading::ledger::Ledger;
use gemma_trading::positions::{box_text, direction_text, first_stop_of, stop_as_text, Exit};
use gemma_trading::types::{BoxAction, BoxType, Candle, Position, PositionType};

fn d(x: f64) -> Double {
    Double { bits: x.to_bits() }
}

fn f(x: Double) -> f64 {
    f64::from_bits(x.bits)
}

fn candle(high: f64, low: f64, close: f64) -> Candle {
    Candle {
        open_time: 0,
        open: d(close),
        high: d(high),
        low: d(low),
        close: d(close),
        volume: d(1.0),
        close_time: 0,
    }
}

fn action(accion: &str, cerrar: bool, apalancamiento: Option<f64>, stop: Option<f64>) -> BoxAction {
    BoxAction {
        accion: accion.to_string(),
        cerrar,
        apalancamiento: apalancamiento.map(d),
        stop_loss: stop.map(d),
    }
}

fn rules() -> Rules {
    Rules::new(d(10.0), d(50.0), false)
}

fn position(t: PositionType, box_type: BoxType, entry: f64, stop: Option<f64>) -> Position {
    Position {
        position_type: t,
        margin: d(100.0),
        size_btc: d(0.05),
        entry_price: d(entry),
        liquidation_price: d(if t == PositionType::Long { entry * 0.9 } else { entry * 1.1 }),
        stop_loss: stop.map(d),
        box_type,
    }
}

fn ledger_with(positions: Vec<Position>) -> Ledger {
    let mut ledger = Ledger::new(d(10000.0));
    ledger.active_positions = positions;
    ledger
}

#[test]
fn liquidation_distance_follows_the_leverage() {
    for (leverage, held) in [
        (1.0, 0.05), (5.0, 0.05), (5.5, 0.08), (10.0, 0.08), (15.0, 0.10), (20.0, 0.12), (30.0, 0.15),
        (35.0, 0.18), (45.0, 0.20), (50.0, 0.25), (100.0, 0.30), (125.0, 0.35),
    ] {
        let expected: f64 = ((100.0 / leverage) - (100.0 / leverage * held)) - 0.045;
        assert_eq!(get_liquidation_percentage(d(leverage)).bits, expected.to_bits());
    }
    let percent: f64 = 9.155;
    assert_eq!(
        liquidation_price_of(PositionType::Long, d(20000.0), d(percent)).bits,
        (20000.0 * (1.0 - percent / 100.0)).to_bits()
    );
    assert_eq!(
        liquidation_price_of(PositionType::Short, d(20000.0), d(percent)).bits,
        (20000.0 * (1.0 + percent / 100.0)).to_bits()
    );
    assert_eq!(f(liquidation_price_of(PositionType::NoPosition, d(7.0), d(percent))), 7.0);
}

#[test]
fn boxes_have_their_shares() {
    assert_eq!(f(allocation_of(BoxType::LT)), 0.8);
    assert_eq!(f(allocation_of(BoxType::ST)), 0.2);
    assert_eq!(f(rules().fee_rate), 0.0005);
}

#[test]
fn actions_name_a_direction_in_capitals() {
    assert_eq!(wanted_direction("LONG"), PositionType::Long);
    assert_eq!(wanted_direction("SHORT"), PositionType::Short);
    for other in ["long", "HOLD", "FLAT", ""] {
        assert_eq!(wanted_direction(other), PositionType::NoPosition);
    }
}

#[test]
fn names_are_written_out() {
    assert_eq!(direction_text(PositionType::Long), "Long");
    assert_eq!(direction_text(PositionType::Short), "Short");
    assert_eq!(direction_text(PositionType::NoPosition), "None");
    assert_eq!(box_text(BoxType::LT), "LT");
    assert_eq!(box_text(BoxType::ST), "ST");
    assert_eq!(stop_as_text(Some(d(1234.5))), "1234.50 USDT");
    assert_eq!(stop_as_text(None), "None");
}

#[test]
fn first_position_takes_the_share_of_its_box() {
    let mut ledger = Ledger::new(d(10000.0));
    let outcome = ledger.execute_box_action(
        &action("long", false, Some(5.0), Some(19700.0)),
        BoxType::ST,
        None,
        &rules(),
        d(10000.0),
        d(20000.0),
    );
    let position = match outcome {
        BoxOutcome::Opened { position } => position,
        other => panic!("{:?}", other),
    };
    // Half of the equity is asked for, a fifth is what the box may bind.
    let margin: f64 = 10000.0 * 0.2;
    assert_eq!(position.margin.bits, margin.to_bits());
    let size = margin * 10.0;
    assert_eq!(position.size_btc.bits, (size / 20000.0).to_bits());
    assert_eq!(f(position.entry_price), 20000.0);
    assert_eq!(f(position.stop_loss.unwrap()), 19700.0);
    let percent: f64 = ((100.0 / 10.0) - (100.0 / 10.0 * 0.08)) - 0.045;
    assert_eq!(position.liquidation_price.bits, (20000.0 * (1.0 - percent / 100.0)).to_bits());
    assert_eq!(ledger.saldo_usdt.bits, (10000.0 - (margin + size * 0.0005)).to_bits());
    assert_eq!(ledger.num_compras, 1);
    assert_eq!(ledger.num_ventas, 0);
    assert_eq!(ledger.paso_acciones, vec!["ABRIR_ST_Long".to_string()]);
    assert_eq!(ledger.paso_precios, vec!["20000.00".to_string()]);
    assert_eq!(
        ledger.step_positions_log,
        vec!["ST: Long\nEntry Price: 20000.00 USDT\nClose Price: 0.00 USDT\nMargin: 2000.00 USDT\nVolume: 1.000000 BTC ($20000.00)\nPNL: 0.00 USDT (ROE: 0.00%)\nStop Loss: 19700.00 USDT\nFee: 10.00 USDT".to_string()]
    );
}

#[test]
fn model_may_choose_the_leverage_where_the_terms_allow_it() {
    let mut ledger = Ledger::new(d(10000.0));
    let terms = Rules::new(d(10.0), d(10.0), true);
    let outcome = ledger.execute_box_action(
        &action("SHORT", false, Some(5.0), None),
        BoxType::LT,
        Some(PositionType::Short),
        &terms,
        d(10000.0),
        d(20000.0),
    );
    let position = match outcome {
        BoxOutcome::Opened { position } => position,
        other => panic!("{:?}", other),
    };
    assert_eq!(f(position.margin), 1000.0);
    assert_eq!(f(position.size_btc), 0.25);
    assert_eq!(ledger.num_ventas, 1);
}

#[test]
fn margin_is_cut_down_to_the_balance() {
    let mut ledger = Ledger::new(d(1000.0));
    let outcome = ledger.execute_box_action(
        &action("LONG", false, None, None),
        BoxType::LT,
        Some(PositionType::Long),
        &Rules::new(d(10.0), d(100.0), false),
        d(10000.0),
        d(20000.0),
    );
    let expected: f64 = (1000.0 / (1.0 + 10.0 * 0.0005)) - 0.05;
    match outcome {
        BoxOutcome::Opened { position } => assert_eq!(position.margin.bits, expected.to_bits()),
        other => panic!("{:?}", other),
    }
    assert!(f(ledger.saldo_usdt) >= 0.0);
}

#[test]
fn nothing_is_opened_without_money() {
    let mut ledger = Ledger::new(d(0.0));
    let outcome = ledger.execute_box_action(
        &action("LONG", false, None, None),
        BoxType::ST,
        None,
        &rules(),
        d(10000.0),
        d(20000.0),
    );
    assert_eq!(outcome, BoxOutcome::NotEnough { wanted: PositionType::Long });
    assert!(ledger.active_positions.is_empty());
    assert!(ledger.paso_acciones.is_empty());
}

#[test]
fn long_term_box_opens_only_with_the_trend() {
    let mut ledger = Ledger::new(d(10000.0));
    let outcome = ledger.execute_box_action(
        &action("SHORT", false, None, None),
        BoxType::LT,
        Some(PositionType::Long),
        &rules(),
        d(10000.0),
        d(20000.0),
    );
    assert_eq!(outcome, BoxOutcome::AgainstTrend { wanted: PositionType::Short });
    assert!(ledger.active_positions.is_empty());
}

#[test]
fn second_position_needs_a_doubled_margin() {
    let first = position(PositionType::Long, BoxType::ST, 20000.0, None);
    // 0.05 BTC gain 200 percent of a margin of 100 at 24000.
    let positions = vec![first];
    assert!(!box_has_place(&positions, BoxType::ST, PositionType::Long, d(23999.0)));
    assert!(box_has_place(&positions, BoxType::ST, PositionType::Long, d(24000.0)));
    assert!(box_has_place(&positions, BoxType::LT, PositionType::Long, d(1.0)));
    let two = vec![first, first];
    assert!(!box_has_place(&two, BoxType::ST, PositionType::Long, d(30000.0)));

    let mut ledger = ledger_with(vec![first]);
    let blocked = ledger.execute_box_action(
        &action("LONG", false, None, None),
        BoxType::ST,
        None,
        &rules(),
        d(10000.0),
        d(21000.0),
    );
    assert_eq!(blocked, BoxOutcome::Blocked { wanted: PositionType::Long });
    let opened = ledger.execute_box_action(
        &action("LONG", false, None, None),
        BoxType::ST,
        None,
        &rules(),
        d(10000.0),
        d(25000.0),
    );
    match opened {
        BoxOutcome::Opened { position } => assert_eq!(f(position.margin), 100.0),
        other => panic!("{:?}", other),
    }
    let third = ledger.execute_box_action(
        &action("LONG", false, None, None),
        BoxType::ST,
        None,
        &rules(),
        d(10000.0),
        d(25000.0),
    );
    assert_eq!(third, BoxOutcome::Blocked { wanted: PositionType::Long });
    assert_eq!(ledger.active_positions.len(), 2);
}

#[test]
fn closing_a_box_leaves_the_other_alone() {
    let st = position(PositionType::Long, BoxType::ST, 20000.0, None);
    let lt = position(PositionType::Short, BoxType::LT, 20000.0, Some(21000.0));
    let mut ledger = ledger_with(vec![st, lt, st]);
    ledger.close_box(BoxType::ST, d(20400.0), d(0.0005));
    assert_eq!(ledger.active_positions, vec![lt]);
    let pnl = (20400.0 - 20000.0) * 0.05;
    let closing = 0.05 * 20400.0 * 0.0005;
    let opening = 0.05 * 20000.0 * 0.0005;
    let net: f64 = pnl - opening - closing;
    assert_eq!(ledger.trade_pnls.len(), 2);
    assert_eq!(ledger.trade_pnls[0].bits, net.to_bits());
    let expected = 10000.0 + (100.0 + pnl - closing) + (100.0 + pnl - closing);
    assert_eq!(ledger.saldo_usdt.bits, f64::to_bits(expected));
    assert_eq!(ledger.directional_score, 20);
    assert_eq!(ledger.num_ventas, 2);
    assert_eq!(ledger.paso_acciones[0], "CERRAR_ST_Long");
    assert_eq!(ledger.paso_precios[0], "20400.00");
    assert_eq!(
        ledger.step_positions_log[0],
        "ST: Long\nEntry Price: 20000.00 USDT\nClose Price: 20400.00 USDT (CLOSED)\nMargin: 100.00 USDT\nVolume: 0.050000 BTC ($1020.00)\nPNL: 20.00 USDT (ROE: 20.00%)\nStop Loss: None\nFee: 1.01 USDT"
    );
}

#[test]
fn stop_losses_move_within_a_box() {
    let st = position(PositionType::Long, BoxType::ST, 20000.0, None);
    let lt = position(PositionType::Short, BoxType::LT, 20000.0, Some(21000.0));
    let mut ledger = ledger_with(vec![st, lt]);
    ledger.move_stops(BoxType::ST, d(19650.0), d(20100.0));
    assert_eq!(f(ledger.active_positions[0].stop_loss.unwrap()), 19650.0);
    assert_eq!(ledger.active_positions[1], lt);
    assert_eq!(ledger.step_positions_log.len(), 1);
    assert!(ledger.step_positions_log[0].contains("Close Price: 0.00 USDT\n"));
    assert!(ledger.step_positions_log[0].contains("Stop Loss: 19650.00 USDT\nFee: 0.00 USDT"));
}

#[test]
fn liquidation_counts_before_the_stop_loss() {
    let long = position(PositionType::Long, BoxType::ST, 20000.0, Some(19000.0));
    assert_eq!(long.exit_in(&candle(20500.0, 17000.0, 18000.0)), Some(Exit::Liquidation));
    assert_eq!(
        long.exit_in(&candle(20500.0, 18500.0, 18600.0)),
        Some(Exit::StopLoss { price: d(19000.0) })
    );
    assert_eq!(long.exit_in(&candle(20500.0, 19500.0, 19600.0)), None);
    let short = position(PositionType::Short, BoxType::ST, 20000.0, Some(21000.0));
    assert_eq!(short.exit_in(&candle(22000.0, 19000.0, 20000.0)), Some(Exit::Liquidation));
    assert_eq!(
        short.exit_in(&candle(21000.0, 19000.0, 20000.0)),
        Some(Exit::StopLoss { price: d(21000.0) })
    );
    let none = position(PositionType::NoPosition, BoxType::ST, 20000.0, Some(19000.0));
    assert_eq!(none.exit_in(&candle(99999.0, 1.0, 2.0)), None);
}

#[test]
fn candle_ends_positions_from_the_last_to_the_first() {
    let stopped = position(PositionType::Long, BoxType::ST, 20000.0, Some(19000.0));
    let safe = position(PositionType::Short, BoxType::LT, 20000.0, None);
    let liquidated = Position { liquidation_price: d(18900.0), ..stopped };
    let mut ledger = ledger_with(vec![stopped, safe, liquidated]);
    ledger.settle_exits(&candle(20100.0, 18800.0, 19100.0), d(0.0005));
    assert_eq!(ledger.active_positions, vec![safe]);
    assert_eq!(
        ledger.paso_acciones,
        vec!["LIQUIDACION_Long".to_string(), "STOP_LOSS_Long".to_string()]
    );
    // Each result is listed twice.
    assert_eq!(ledger.trade_pnls.len(), 4);
    let opening = 0.05 * 20000.0 * 0.0005;
    assert_eq!(ledger.trade_pnls[0].bits, f64::to_bits(-100.0 - opening));
    assert_eq!(ledger.trade_pnls[0].bits, ledger.trade_pnls[1].bits);
    let pnl = (19000.0 - 20000.0) * 0.05;
    let closing = 0.05 * 19000.0 * 0.0005;
    assert_eq!(ledger.trade_pnls[2].bits, f64::to_bits(pnl - opening - closing));
    assert_eq!(ledger.saldo_usdt.bits, f64::to_bits(10000.0 + (100.0 + pnl - closing)));
    assert_eq!(ledger.directional_score, -20);
    assert_eq!(ledger.num_liquidaciones, 1);
    assert_eq!(ledger.num_ventas, 1);
    assert!(ledger.step_positions_log[0].contains("Close Price: 18900.00 USDT (LIQUIDATED)"));
    assert!(ledger.step_positions_log[0].contains("PNL: -100.00 USDT (ROE: -100.00%)\nStop Loss: None"));
    assert!(ledger.step_positions_log[1].contains("Close Price: 19000.00 USDT SL"));
}

#[test]
fn right_direction_raises_the_score() {
    let short = position(PositionType::Short, BoxType::LT, 20000.0, None);
    let mut ledger = ledger_with(vec![short]);
    ledger.close_box(BoxType::LT, d(19000.0), d(0.0005));
    assert_eq!(ledger.directional_score, 10);
    assert_eq!(ledger.num_compras, 1);
    let mut ledger = ledger_with(vec![short]);
    ledger.close_box(BoxType::LT, d(20000.0), d(0.0005));
    assert_eq!(ledger.directional_score, -10);
}

#[test]
fn holding_changes_nothing() {
    let st = position(PositionType::Long, BoxType::ST, 20000.0, None);
    let mut ledger = ledger_with(vec![st]);
    let outcome = ledger.execute_box_action(
        &action("HOLD", false, Some(7.0), None),
        BoxType::ST,
        None,
        &rules(),
        d(10000.0),
        d(20000.0),
    );
    assert_eq!(outcome, BoxOutcome::Nothing);
    assert_eq!(ledger.active_positions, vec![st]);
    assert_eq!(f(ledger.saldo_usdt), 10000.0);
    assert!(ledger.step_positions_log.is_empty());
}

#[test]
fn positions_know_their_figures() {
    let short = position(PositionType::Short, BoxType::LT, 20000.0, None);
    assert_eq!(f(short.pnl_at(d(19000.0))), 50.0);
    assert_eq!(f(short.roe_at(d(19000.0))), 50.0);
    assert_eq!(f(short.volume_at(d(19000.0))), 950.0);
    assert_eq!(f(short.opening_fee_at(d(0.0005))), 0.5);
    assert!(short.went_right(d(19999.0)));
    assert!(!short.went_right(d(20000.0)));
    let none = position(PositionType::NoPosition, BoxType::LT, 20000.0, None);
    assert_eq!(none.pnl_at(d(19000.0)).bits, 0);
    assert!(!none.went_right(d(1.0)));
}

#[test]
fn more_leverage_comes_nearer_to_liquidation() {
    let leverages: Vec<f64> = (10..1300)
        .map(|k| k as f64 / 10.0)
        .chain([1e3, 1e10, 1e300, f64::INFINITY])
        .collect();
    for pair in leverages.windows(2) {
        let (near, far) = (get_liquidation_percentage(d(pair[1])), get_liquidation_percentage(d(pair[0])));
        assert!(f(near) <= f(far));
        assert!(f(far) < 100.0 / pair[0]);
    }
    assert_eq!(f(get_liquidation_percentage(d(f64::INFINITY))), -0.045);
}

#[test]
fn margins_of_a_box_stay_within_its_share() {
    let mut first = position(PositionType::Long, BoxType::ST, 20000.0, None);
    first.margin = d(1500.0);
    first.size_btc = d(1.0);
    let mut ledger = ledger_with(vec![first, position(PositionType::Long, BoxType::LT, 20000.0, None)]);
    let outcome = ledger.execute_box_action(
        &action("LONG", false, None, None),
        BoxType::ST,
        None,
        &rules(),
        d(10000.0),
        d(23000.0),
    );
    match outcome {
        BoxOutcome::Opened { position } => assert_eq!(f(position.margin), 500.0),
        other => panic!("{:?}", other),
    }
    let bound = |box_type: BoxType| -> f64 {
        ledger.active_positions.iter().filter(|p| p.box_type == box_type).map(|p| f(p.margin)).sum()
    };
    assert_eq!(bound(BoxType::ST), 2000.0);
    assert_eq!(bound(BoxType::LT), 100.0);
}

#[test]
fn full_box_takes_no_margin() {
    let mut first = position(PositionType::Long, BoxType::ST, 20000.0, None);
    first.margin = d(2000.0);
    first.size_btc = d(2.0);
    let mut ledger = ledger_with(vec![first]);
    let outcome = ledger.execute_box_action(
        &action("LONG", false, None, None),
        BoxType::ST,
        None,
        &rules(),
        d(10000.0),
        d(22000.0),
    );
    assert_eq!(outcome, BoxOutcome::NotEnough { wanted: PositionType::Long });
    assert_eq!(ledger.active_positions.len(), 1);
}

#[test]
fn short_term_stops_stay_near_the_entry() {
    let (low, high): (f64, f64) = (20000.0 * 0.98, 20000.0 * 1.02);
    for (asked, placed) in [(15000.0, low), (low, low), (19999.0, 19999.0), (high, high), (30000.0, high)] {
        let stop = first_stop_of(BoxType::ST, d(20000.0), Some(d(asked))).unwrap();
        assert_eq!(stop.bits, placed.to_bits());
        assert_eq!(first_stop_of(BoxType::LT, d(20000.0), Some(d(asked))).map(f), Some(asked));
    }
    assert_eq!(first_stop_of(BoxType::ST, d(20000.0), None), None);
    let long = position(PositionType::Long, BoxType::ST, 20000.0, None);
    let short = position(PositionType::Short, BoxType::ST, 20000.0, None);
    let wide = position(PositionType::Long, BoxType::LT, 20000.0, None);
    assert_eq!(long.stop_at(d(15000.0)).bits, low.to_bits());
    assert_eq!(short.stop_at(d(25000.0)).bits, high.to_bits());
    assert_eq!(f(wide.stop_at(d(15000.0))), 15000.0);
    // A stop that follows the gain is left where it is.
    assert_eq!(f(long.stop_at(d(25000.0))), 25000.0);
    assert_eq!(f(short.stop_at(d(15000.0))), 15000.0);

    let mut ledger = ledger_with(vec![long]);
    ledger.move_stops(BoxType::ST, d(15000.0), d(20100.0));
    assert_eq!(ledger.active_positions[0].stop_loss, Some(d(low)));
    assert!(ledger.step_positions_log[0].contains("Stop Loss: 19600.00 USDT\n"));

    let mut ledger = Ledger::new(d(10000.0));
    let outcome = ledger.execute_box_action(
        &action("SHORT", false, None, Some(26000.0)),
        BoxType::ST,
        None,
        &rules(),
        d(10000.0),
        d(20000.0),
    );
    match outcome {
        BoxOutcome::Opened { position } => assert_eq!(position.stop_loss, Some(d(high))),
        other => panic!("{:?}", other),
    }
}

#[test]
fn chosen_leverage_is_brought_between_five_and_ten() {
    for (chosen, used) in [
        (-3.0, 5.0), (0.0, 5.0), (4.9, 5.0), (5.0, 5.0), (7.25, 7.25), (10.0, 10.0), (10.1, 10.0), (125.0, 10.0),
        (f64::NAN, 5.0), (f64::INFINITY, 10.0),
    ] {
        assert_eq!(f(allowed_leverage(d(chosen))), used);
    }
    let terms = Rules::new(d(20.0), d(10.0), true);
    for (chosen, size) in [(Some(50.0), 0.5), (Some(1.0), 0.25), (None, 1.0)] {
        let mut ledger = Ledger::new(d(10000.0));
        let outcome = ledger.execute_box_action(
            &action("LONG", false, chosen, None),
            BoxType::ST,
            None,
            &terms,
            d(10000.0),
            d(20000.0),
        );
        match outcome {
            BoxOutcome::Opened { position } => assert_eq!(f(position.size_btc), size),
            other => panic!("{:?}", other),
        }
    }
}
