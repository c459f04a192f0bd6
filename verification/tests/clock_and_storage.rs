use gemma_trading::clock::{candle_time, first_download, midnight_or_zero, start_timestamp};
use gemma_trading::db::{
    candles_query, default_llm_config, is_testnet, klines_url, latest_query, needs_migration,
    next_start, oldest_first, read_batch, read_klines, start_time, stored_candle, stored_time,
    testnet_flag, Batch,
};
use gemma_trading::double::Double;
use gemma_trading::types::Candle;

fn d(x: f64) -> Double {
    Double { bits: x.to_bits() }
}

fn f(x: Double) -> f64 {
    f64::from_bits(x.bits)
}

fn candle(open_time: i64) -> Candle {
    Candle {
        open_time,
        open: d(1.0),
        high: d(2.0),
        low: d(0.5),
        close: d(1.5),
        volume: d(9.0),
        close_time: open_time + 1,
    }
}

#[test]
fn days_begin_at_midnight() {
    assert_eq!(start_timestamp(Some("1970-01-01")), 0);
    assert_eq!(start_timestamp(Some("1970-01-02")), 86_400_000);
    assert_eq!(start_timestamp(Some("2000-02-29")), 951_782_400_000);
    assert_eq!(start_timestamp(Some("2020-04-20")), 1_587_340_800_000);
    assert_eq!(start_timestamp(Some("0000-01-01")), -62_167_219_200_000);
    assert_eq!(first_download(), 1_587_340_800_000);
    assert_eq!(midnight_or_zero(Some((1970, 1, 3))), 172_800_000);
    assert_eq!(midnight_or_zero(Some((2023, 2, 29))), 0);
    assert_eq!(midnight_or_zero(None), 0);
}

#[test]
fn unreadable_days_begin_with_time() {
    for text in ["", "yesterday", "2021-02-29", "2021-13-01", "20/04/2020"] {
        assert_eq!(start_timestamp(Some(text)), 0);
    }
    assert_eq!(start_timestamp(None), 0);
}

#[test]
fn times_are_shown_by_timeframe() {
    assert_eq!(candle_time("1h", 1_587_388_923_456), Some("2020-04-20 13:22:03".to_string()));
    assert_eq!(candle_time("1d", 1_587_388_923_456), Some("2020-04-20".to_string()));
    assert_eq!(candle_time("4h", -1), Some("1969-12-31 23:59:59".to_string()));
    assert_eq!(candle_time("1h", i64::MAX), None);
    assert_eq!(candle_time("1h", i64::MIN), None);
}

#[test]
fn days_are_read_back_from_their_midnight() {
    for day in ["0000-01-01", "1600-02-29", "1970-01-01", "2023-12-31", "9999-12-31"] {
        assert_eq!(candle_time("1d", start_timestamp(Some(day))), Some(day.to_string()));
    }
}

#[test]
fn days_follow_one_another_by_the_calendar() {
    for (day, next) in [("2023-02-28", "2023-03-01"), ("2024-02-29", "2024-03-01"), ("2023-12-31", "2024-01-01")] {
        assert_eq!(start_timestamp(Some(next)) - start_timestamp(Some(day)), 86_400_000);
    }
}

#[test]
fn calendar_ends_somewhere() {
    let last = 8_210_266_876_799_999;
    assert_eq!(candle_time("1d", last), Some("+262142-12-31".to_string()));
    assert_eq!(candle_time("1d", last + 1), None);
    let first = -8_334_601_228_800_000;
    assert_eq!(candle_time("1d", first), Some("-262143-01-01".to_string()));
    assert_eq!(candle_time("1d", first - 1), None);
}

#[test]
fn download_resumes_behind_the_last_candle() {
    assert_eq!(start_time(Some(41)), 42);
    assert_eq!(start_time(None), 1_587_340_800_000);
    assert_eq!(next_start(&vec![candle(7), candle(9)]), 10);
    assert_eq!(
        klines_url("4h", 42),
        "https://api.binance.com/api/v3/klines?symbol=BTCUSDT&interval=4h&startTime=42&limit=1000"
    );
}

#[test]
fn stored_times_come_back() {
    for t in [0, 1, -1, 1_700_000_000_123, (1 << 53) - 1, 1 << 53, -(1 << 53), 3 << 60] {
        let row = stored_candle(stored_time(t), d(1.0), d(2.0), d(3.0), d(4.0), d(5.0), stored_time(t));
        assert_eq!(row.open_time, t);
        assert_eq!(row.close_time, t);
        assert_eq!(f(row.volume), 5.0);
    }
    // A time of more than 53 binary digits comes back as its nearest neighbour.
    let t: i64 = (1 << 53) + 1;
    assert_eq!(stored_candle(stored_time(t), d(0.0), d(0.0), d(0.0), d(0.0), d(0.0), d(0.0)).open_time, 1 << 53);
    assert_eq!(stored_candle(d(f64::NAN), d(0.0), d(0.0), d(0.0), d(0.0), d(0.0), d(1e300)).close_time, i64::MAX);
}

#[test]
fn candles_are_read_from_an_answer() {
    let text = "[[1,\"10.5\",\"11\",\"9\",\"10\",\"3.25\",2,\"x\"],[1,2],[\"t\",10,null,\"?\",\"4\",\"5\",7]]";
    let candles = match read_klines(text) {
        Batch::Candles { candles } => candles,
        other => panic!("{:?}", other),
    };
    assert_eq!(candles.len(), 2);
    assert_eq!(candles[0].open_time, 1);
    assert_eq!(f(candles[0].open), 10.5);
    assert_eq!(f(candles[0].high), 11.0);
    assert_eq!(f(candles[0].low), 9.0);
    assert_eq!(f(candles[0].close), 10.0);
    assert_eq!(f(candles[0].volume), 3.25);
    assert_eq!(candles[0].close_time, 2);
    assert_eq!(candles[1].open_time, 0);
    assert_eq!(f(candles[1].open), 0.0);
    assert_eq!(f(candles[1].low), 0.0);
    assert_eq!(f(candles[1].close), 4.0);
    assert_eq!(candles[1].close_time, 7);
}

#[test]
fn answers_without_candles_end_the_download() {
    assert!(matches!(read_klines("[]"), Batch::Finished));
    assert!(matches!(read_klines("[[1],[]]"), Batch::Unusable));
    assert!(matches!(read_klines("[1]"), Batch::Unreadable));
    assert!(matches!(read_klines("{\"code\":1}"), Batch::Unreadable));
    assert!(matches!(read_klines("<"), Batch::Unreadable));
    let document: serde_json::Value = serde_json::from_str("[[]]").unwrap();
    assert!(matches!(read_batch(&document), Batch::Unusable));
}

#[test]
fn queries_name_their_limit() {
    let columns = "SELECT open_time, open, high, low, close, volume, close_time FROM candles WHERE timeframe = ?1";
    assert_eq!(candles_query(None), format!("{} ORDER BY open_time ASC", columns));
    assert_eq!(candles_query(Some(50)), format!("{} ORDER BY open_time ASC LIMIT 50", columns));
    assert_eq!(latest_query(500), format!("{} ORDER BY open_time DESC LIMIT 500", columns));
}

#[test]
fn newest_first_becomes_oldest_first() {
    let newest_first = vec![candle(3), candle(2), candle(1)];
    let turned = oldest_first(&newest_first);
    assert_eq!(turned, vec![candle(1), candle(2), candle(3)]);
    assert_eq!(oldest_first(&turned), newest_first);
    assert!(oldest_first(&vec![]).is_empty());
}

#[test]
fn settings_have_defaults() {
    let (url, token) = default_llm_config();
    assert_eq!(url, "http://127.0.0.1:5508/v1/chat/completions");
    assert_eq!(token, "lm-studio");
    assert!(is_testnet(testnet_flag(true)));
    assert!(!is_testnet(testnet_flag(false)));
    assert!(!is_testnet(2));
    assert!(needs_migration(true, false));
    assert!(!needs_migration(true, true));
    assert!(!needs_migration(false, false));
}
