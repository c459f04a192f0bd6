use gemma_trading::backtest::{BoxOutcome, Rules};
use gemma_trading::backtest_run::{Backtest, Reply, StartError};
use gemma_trading::double::Double;
use gemma_trading::simulation::{start_index, trend_at, Simulation};
use gemma_trading::types::{BoxAction, BoxType, Candle, GemmaResponse, PositionType};

fn d(x: f64) -> Double {
    Double { bits: x.to_bits() }
}

fn f(x: Double) -> f64 {
    f64::from_bits(x.bits)
}

const HOUR: i64 = 3_600_000;
const BEGIN: i64 = 1_587_340_800_000;

fn candle(i: i64, high: f64, low: f64, close: f64) -> Candle {
    Candle {
        open_time: BEGIN + i * HOUR,
        open: d(close),
        high: d(high),
        low: d(low),
        close: d(close),
        volume: d(12.0),
        close_time: BEGIN + (i + 1) * HOUR - 1,
    }
}

fn wish(accion: &str, cerrar: bool) -> BoxAction {
    BoxAction { accion: accion.to_string(), cerrar, apalancamiento: None, stop_loss: None }
}

fn answer(lt: BoxAction, st: BoxAction) -> GemmaResponse {
    GemmaResponse { analisis: None, lt_box: lt, st_box: st }
}

fn rules() -> Rules {
    Rules::new(d(10.0), d(100.0), false)
}

#[test]
fn trading_starts_with_the_first_candle_in_time() {
    let candles: Vec<Candle> = (0..5).map(|i| candle(i, 1.0, 1.0, 1.0)).collect();
    assert_eq!(start_index(&candles, 0), 0);
    assert_eq!(start_index(&candles, BEGIN + 1), 1);
    assert_eq!(start_index(&candles, BEGIN + 2 * HOUR), 2);
    assert_eq!(start_index(&candles, BEGIN + 99 * HOUR), 0);
    assert_eq!(start_index(&vec![], 7), 0);
}

#[test]
fn trend_follows_the_averages() {
    let rising: Vec<Candle> = (0..120).map(|i| candle(i, 1.0, 1.0, 100.0 + i as f64)).collect();
    assert_eq!(trend_at(&rising, 119), PositionType::Long);
    let falling: Vec<Candle> = (0..120).map(|i| candle(i, 1.0, 1.0, 500.0 - i as f64)).collect();
    assert_eq!(trend_at(&falling, 119), PositionType::Short);
    assert_eq!(trend_at(&rising, 0), PositionType::Long);
}

#[test]
fn simulation_begins_with_its_balance() {
    let candles = vec![candle(0, 20100.0, 19900.0, 20000.0)];
    let simulation = Simulation::new(&candles, "1h", 0, rules()).unwrap();
    assert_eq!(f(simulation.ledger.saldo_usdt), 10000.0);
    assert_eq!(simulation.curve.len(), 1);
    assert_eq!(simulation.curve[0].time, "2020-04-20 00:00:00 (Inicio)");
    assert_eq!(f(simulation.curve[0].equity), 10000.0);
    assert_eq!(f(simulation.curve[0].buy_and_hold), 10000.0);
    let daily = Simulation::new(&candles, "1d", 0, rules()).unwrap();
    assert_eq!(daily.curve[0].time, "2020-04-20 (Inicio)");
    let lost = vec![Candle { open_time: i64::MAX, ..candles[0] }];
    assert!(Simulation::new(&lost, "1h", 0, rules()).is_none());
}

#[test]
fn both_boxes_act_on_one_answer() {
    let candles = vec![
        candle(0, 20100.0, 19900.0, 20000.0),
        candle(1, 20600.0, 19900.0, 20500.0),
        candle(2, 20500.0, 20400.0, 20450.0),
    ];
    let mut simulation = Simulation::new(&candles, "1h", 0, rules()).unwrap();

    let worth = simulation.open_step(&candles[0]);
    assert_eq!(f(worth.equity), 10000.0);
    let (lt, st) = simulation.apply(
        &answer(wish("LONG", false), wish("SHORT", false)),
        &candles,
        0,
        worth.equity,
    );
    let lt = match lt {
        BoxOutcome::Opened { position } => position,
        other => panic!("{:?}", other),
    };
    assert_eq!(lt.box_type, BoxType::LT);
    assert_eq!(f(lt.margin), 8000.0);
    // The rest of the balance covers less than the share of the short-term box.
    let left = 10000.0 - (8000.0 + 80000.0 * 0.0005);
    let margin: f64 = (left / (1.0 + 10.0 * 0.0005)) - 0.05;
    match st {
        BoxOutcome::Opened { position } => {
            assert_eq!(position.margin.bits, margin.to_bits());
            assert_eq!(position.position_type, PositionType::Short);
        }
        other => panic!("{:?}", other),
    }
    assert!(simulation.close_step(&candles[0], "1h"));
    assert_eq!(simulation.curve.len(), 2);
    assert_eq!(simulation.curve[1].time, "2020-04-20 00:00:00");
    assert_eq!(simulation.curve[1].actions, "ABRIR_LT_Long; ABRIR_ST_Short");
    assert_eq!(simulation.curve[1].prices, "20000.00; 20000.00");
    let saldo = left - (margin + margin * 10.0 * 0.0005);
    assert_eq!(simulation.curve[1].equity.bits, f64::to_bits(saldo + (0.0 + 8000.0 + margin) + 0.0));

    simulation.open_step(&candles[1]);
    let (lt, st) = simulation.apply(
        &answer(wish("HOLD", false), wish("FLAT", true)),
        &candles,
        1,
        d(10000.0),
    );
    assert_eq!(lt, BoxOutcome::Nothing);
    assert_eq!(st, BoxOutcome::Nothing);
    assert_eq!(simulation.ledger.active_positions.len(), 1);
    assert_eq!(simulation.ledger.directional_score, -10);
    assert!(simulation.close_step(&candles[1], "1h"));
    // The long-term box is not part of the log of the actions, so it is written down.
    assert_eq!(simulation.ledger.step_positions_log.len(), 2);
    assert!(simulation.ledger.step_positions_log[1].starts_with("LT: Long\n"));
    assert_eq!(f(simulation.curve[2].buy_and_hold), 10250.0);

    let worth = simulation.open_step(&candles[2]);
    assert!(simulation.ledger.step_positions_log.is_empty());
    let (lt, _) =
        simulation.apply(&answer(wish("SHORT", false), wish("HOLD", false)), &candles, 2, worth.equity);
    assert_eq!(lt, BoxOutcome::AgainstTrend { wanted: PositionType::Short });
    assert!(simulation.close_step(&candles[2], "1h"));

    let summary = simulation.finish(&candles[2], "1h");
    assert_eq!(simulation.ledger.trade_pnls.len(), 2);
    assert_eq!(summary.total_trades, 2);
    assert_eq!(summary.actions_sequence, "ABRIR_LT_Long; ABRIR_ST_Short|CERRAR_ST_Short|");
    assert_eq!(summary.final_equity.bits, simulation.curve[3].equity.bits);
    assert_eq!(f(summary.winrate), 50.0);
    assert_eq!(simulation.figures("1h").winrate.bits, summary.winrate.bits);
}

#[test]
fn same_answers_give_the_same_run() {
    let candles: Vec<Candle> =
        (0..6).map(|i| candle(i, 20600.0, 19400.0, 20000.0 + (i % 3) as f64 * 100.0)).collect();
    let mut summaries = Vec::new();
    for _ in 0..2 {
        let mut simulation = Simulation::new(&candles, "1h", 1, rules()).unwrap();
        for i in 1..candles.len() {
            let worth = simulation.open_step(&candles[i]);
            let reply = answer(wish("LONG", i == 4), wish("SHORT", i == 3));
            simulation.apply(&reply, &candles, i, worth.equity);
            assert!(simulation.close_step(&candles[i], "1h"));
        }
        summaries.push(simulation.finish(&candles[5], "1h"));
    }
    assert_eq!(summaries[0].final_equity.bits, summaries[1].final_equity.bits);
    assert_eq!(summaries[0].actions_sequence, summaries[1].actions_sequence);
}

#[test]
fn boxes_never_hold_more_than_two_of_a_direction() {
    let candles: Vec<Candle> = (0..12)
        .map(|i| candle(i, 20000.0 + 9000.0 * i as f64, 20000.0 + 9000.0 * i as f64, 20000.0 + 9000.0 * i as f64))
        .collect();
    let mut simulation = Simulation::new(&candles, "1h", 0, Rules::new(d(10.0), d(1.0), false)).unwrap();
    for i in 0..candles.len() {
        let worth = simulation.open_step(&candles[i]);
        simulation.apply(&answer(wish("LONG", false), wish("LONG", false)), &candles, i, worth.equity);
        assert!(simulation.close_step(&candles[i], "1h"));
        for b in [BoxType::LT, BoxType::ST] {
            let count = simulation.ledger.active_positions.iter().filter(|p| p.box_type == b).count();
            assert!(count <= 2);
        }
    }
    assert_eq!(simulation.ledger.active_positions.len(), 4);
}

#[test]
fn question_reports_the_market_and_the_account() {
    let candles = vec![
        candle(0, 20100.0, 19900.0, 20000.0),
        candle(1, 20600.0, 19900.0, 20500.0),
    ];
    let mut simulation = Simulation::new(&candles, "1h", 0, rules()).unwrap();
    let worth = simulation.open_step(&candles[0]);
    simulation.apply(&answer(wish("LONG", false), wish("HOLD", false)), &candles, 0, worth.equity);
    assert!(simulation.close_step(&candles[0], "1h"));
    let worth = simulation.open_step(&candles[1]);
    let question = simulation.user_prompt(&candles, 1, worth.equity, "100", "[]");
    let lines: Vec<&str> = question.lines().collect();
    assert_eq!(lines[0], "DATA (Recent)");
    assert_eq!(lines[1], "Current BTC Price (Close): 20500.00 USDT");
    assert_eq!(lines[2], "Last 20 candles history:");
    assert_eq!(lines[3], "- t-1: O:20000.0, H:20100.0, L:19900.0, C:20000.0, V:12");
    assert_eq!(lines[4], "- t-0: O:20500.0, H:20600.0, L:19900.0, C:20500.0, V:12 (Current)");
    assert_eq!(lines[5], "");
    assert_eq!(lines[6], "Liquidations in this simulation: 0");
    assert_eq!(lines[8], "TECHNICAL INDICATORS");
    assert!(lines[9].starts_with("- t-1: EMA9:20000.0 "));
    assert!(lines[10].starts_with("- t-0 (Current): EMA9:20100.0 "));
    assert!(question.contains("\nACCOUNT STATUS\nFree balance (not in margin): 1960.00 USDT\nTotal Equity: 11960.00 USDT\nLeverage: 10.0x\nRisk parameters: Max % risk per trade: 100%\nDirectional Accuracy Score: 0\nActive Positions & Pending Orders (SL):\n- Position #1: Long | Box: LT | Entry: 20000.00 USDT | Margin: 8000.00 USDT | Size: 4.000000 BTC | Liq: 18169.00 USDT | SL: None | Floating PnL: 2000.00 USDT (ROE: 25.00%)\n"));
    assert!(question.ends_with("\nRecent trades history (Realized PnLs of closed trades):\n[]\n\nWhat action do you take? Respond strictly in JSON format"));
}

#[test]
fn question_remembers_the_trades_of_the_window() {
    let candles: Vec<Candle> = (0..30).map(|i| candle(i, 20000.0, 20000.0, 20000.0)).collect();
    let mut simulation = Simulation::new(&candles, "1h", 0, rules()).unwrap();
    for i in 0..29 {
        let worth = simulation.open_step(&candles[i]);
        let wish_now = if i == 20 { "LONG" } else { "HOLD" };
        simulation.apply(&answer(wish(wish_now, false), wish("HOLD", false)), &candles, i, worth.equity);
        assert!(simulation.close_step(&candles[i], "1h"));
    }
    let worth = simulation.open_step(&candles[29]);
    let question = simulation.user_prompt(&candles, 29, worth.equity, "1", "[]");
    assert_eq!(question.matches("\n- t-").count(), 40);
    assert!(question.contains("- t-19: "));
    assert!(!question.contains("- t-20"));
    assert!(question.contains(" [Trade: ABRIR_LT_Long at 20000.00]\n"));
    assert!(question.contains(" | Trade: ABRIR_LT_Long at 20000.00\n"));
    // The trade of candle 20 is noted one candle later, eight before the current one.
    let noted: Vec<&str> = question.lines().filter(|l| l.contains("Trade: ")).collect();
    assert_eq!(noted.len(), 2);
    assert!(noted[0].starts_with("- t-8: O:"));
    assert!(noted[1].starts_with("- t-8: EMA9:"));
}

#[test]
fn last_results_come_newest_first() {
    let candles = vec![candle(0, 1.0, 1.0, 1.0)];
    let mut simulation = Simulation::new(&candles, "1h", 0, rules()).unwrap();
    assert!(simulation.recent_results().is_empty());
    simulation.ledger.trade_pnls = (1..=7).map(|i| d(i as f64)).collect();
    let recent: Vec<f64> = simulation.recent_results().iter().map(|x| f(*x)).collect();
    assert_eq!(recent, vec![7.0, 6.0, 5.0, 4.0, 3.0]);
}

#[test]
fn status_reports_the_step() {
    let candles = vec![candle(0, 20100.0, 19900.0, 20000.0), candle(1, 22000.0, 21000.0, 22000.0)];
    let mut simulation = Simulation::new(&candles, "1h", 0, rules()).unwrap();
    let worth = simulation.open_step(&candles[1]);
    assert_eq!(
        simulation.status_text(&candles, 1, "2020-04-20 01:00:00", &worth),
        "\nPaso 1/2 - 2020-04-20 - 01:00:00\nPrecio Actual: 22000.00 USDT\nBuy & Hold ($10k): 11000.00 USDT\n\nStatus:\nEquity: 10000.00 USDT\nSaldo: 10000.00 USDT\nMargen Total: 0.00 USDT\nPosiciones Activas: 0\nPnL Flotante: 0.00 USDT\n\nPosition:\nNo active positions."
    );
    simulation.ledger.step_positions_log = vec!["a".to_string(), "b".to_string()];
    assert!(simulation.status_text(&candles, 1, "t", &worth).ends_with("Position:\na\n\nb"));
}

#[test]
fn run_asks_until_the_attempts_are_spent() {
    let candles: Vec<Candle> = (0..4).map(|i| candle(i, 20500.0, 19500.0, 20000.0)).collect();
    let mut run = Backtest::begin(candles, "1h", Some("2020-04-20"), rules()).unwrap();
    assert_eq!(run.place, 0);
    assert!(run.next_step());
    assert_eq!(run.left, 3);
    assert!(run.question("100", "[]").starts_with("DATA (Recent)"));
    assert_eq!(run.take_reply(None), Reply::Again);
    assert_eq!(run.take_reply(None), Reply::Again);
    assert_eq!(run.simulation.curve.len(), 1);
    assert_eq!(run.take_reply(None), Reply::GivenUp);
    assert_eq!(run.simulation.curve.len(), 2);
    assert_eq!(run.place, 1);
    assert!(run.last_status().contains("Paso 0/4 - 2020-04-20 - 00:00:00"));

    assert!(run.next_step());
    assert_eq!(run.take_reply(None), Reply::Again);
    let reply = run.take_reply(Some(&answer(wish("LONG", false), wish("HOLD", false))));
    match reply {
        Reply::CarriedOut { lt: BoxOutcome::Opened { position }, st: BoxOutcome::Nothing } => {
            assert_eq!(f(position.margin), 8000.0)
        }
        other => panic!("{:?}", other),
    }
    assert_eq!(run.simulation.curve[2].actions, "ABRIR_LT_Long");
    while run.next_step() {
        run.take_reply(Some(&answer(wish("HOLD", false), wish("HOLD", false))));
    }
    assert_eq!(run.place, 4);
    assert_eq!(run.simulation.curve.len(), 5);
    let summary = run.finish();
    assert_eq!(summary.total_trades, 1);
    assert_eq!(summary.actions_sequence, "ABRIR_LT_Long|");
}

#[test]
fn run_needs_candles_in_the_calendar() {
    assert_eq!(Backtest::begin(vec![], "1h", None, rules()).err(), Some(StartError::NoCandles));
    let lost = Candle { open_time: i64::MAX, ..candle(0, 1.0, 1.0, 1.0) };
    let candles = vec![candle(0, 1.0, 1.0, 1.0), lost];
    assert_eq!(
        Backtest::begin(candles.clone(), "1h", None, rules()).err(),
        Some(StartError::OutsideCalendar)
    );
    let early = Candle { open_time: i64::MIN, ..candle(0, 1.0, 1.0, 1.0) };
    let run = Backtest::begin(vec![early, candle(0, 1.0, 1.0, 1.0)], "1h", Some("2020-04-20"), rules()).unwrap();
    assert_eq!(run.place, 1);
}
