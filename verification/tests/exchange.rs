use gemma_trading::bingx::{
    balance_url, base_url, calculate_signature, leverage_url, normalize_symbol, order_url,
    positions_url, price_url, signed_with, too_small_text,
};
use gemma_trading::bingx_answers::{
    account_of, average_price_in, check_code, positions_of, price_of, read_account,
    read_acknowledgement, read_order, read_positions, read_price, report_of, stable_balance,
    ApiError, ReportedPosition, Request,
};
use gemma_trading::double::Double;

fn d(x: f64) -> Double {
    Double { bits: x.to_bits() }
}

fn f(x: Double) -> f64 {
    f64::from_bits(x.bits)
}

fn json(text: &str) -> serde_json::Value {
    serde_json::from_str(text).unwrap()
}

fn message<T>(r: Result<T, ApiError>) -> String {
    match r {
        Err(ApiError::Failed { message }) => message,
        Err(ApiError::NotJson) => "not json".to_string(),
        Err(ApiError::NotANumber) => "not a number".to_string(),
        Ok(_) => panic!("no error"),
    }
}

#[test]
fn symbols_get_their_dash() {
    assert_eq!(normalize_symbol("BTCUSDT"), "BTC-USDT");
    assert_eq!(normalize_symbol("BTC-USDT"), "BTC-USDT");
    assert_eq!(normalize_symbol(&normalize_symbol("ETHUSDT")), "ETH-USDT");
    assert_eq!(normalize_symbol("USDTUSDT"), "-USDT-USDT");
    assert_eq!(normalize_symbol("USD"), "USD");
    assert_eq!(normalize_symbol(""), "");
}

#[test]
fn signatures_are_codes_in_hexadecimal() {
    assert_eq!(
        calculate_signature("Jefe", "what do ya want for nothing?"),
        "5bdcc146bf60754e6a042426089575c75a003f089d2739839dec58b964ec3843"
    );
    assert_eq!(calculate_signature("", "").len(), 64);
    assert_ne!(calculate_signature("a", "query"), calculate_signature("b", "query"));
}

#[test]
fn requests_are_signed() {
    let signature = calculate_signature("secret", "timestamp=1700000000000");
    assert_eq!(
        balance_url("secret", 1700000000000, false),
        format!("https://open-api.bingx.com/openApi/swap/v2/user/balance?timestamp=1700000000000&signature={}", signature)
    );
    let query = "leverage=7&side=LONG&symbol=BTC-USDT&timestamp=5";
    assert_eq!(
        leverage_url("secret", "BTCUSDT", 7, "LONG", 5, true),
        format!(
            "https://open-api-vst.bingx.com/openApi/swap/v2/trade/leverage?{}&signature={}",
            query,
            calculate_signature("secret", query)
        )
    );
    let query = "symbol=BTC-USDT&timestamp=-3";
    assert_eq!(
        positions_url("k", "BTC-USDT", -3, false),
        format!(
            "https://open-api.bingx.com/openApi/swap/v2/user/positions?{}&signature={}",
            query,
            calculate_signature("k", query)
        )
    );
    assert_eq!(
        price_url("BTCUSDT", true),
        "https://open-api-vst.bingx.com/openApi/swap/v2/quote/price?symbol=BTC-USDT"
    );
    assert_eq!(base_url(false), "https://open-api.bingx.com");
    assert_eq!(
        signed_with(false, "/p", "q=1", "ff"),
        "https://open-api.bingx.com/p?q=1&signature=ff"
    );
}

#[test]
fn orders_name_their_quantity_with_four_decimals() {
    let query = "positionSide=LONG&quantity=0.1235&side=BUY&symbol=BTC-USDT&timestamp=9&type=MARKET";
    assert_eq!(
        order_url("s", "BTCUSDT", "BUY", "LONG", d(0.12345678), None, 9, false),
        Some(format!(
            "https://open-api.bingx.com/openApi/swap/v2/trade/order?{}&signature={}",
            query,
            calculate_signature("s", query)
        ))
    );
    let query = "clientOrderID=abc&positionSide=SHORT&quantity=1.0000&side=SELL&symbol=BTC-USDT&timestamp=9&type=MARKET";
    assert_eq!(
        order_url("s", "BTC-USDT", "SELL", "SHORT", d(1.0), Some("abc"), 9, false),
        Some(format!(
            "https://open-api.bingx.com/openApi/swap/v2/trade/order?{}&signature={}",
            query,
            calculate_signature("s", query)
        ))
    );
}

#[test]
fn orders_for_nothing_are_refused() {
    for quantity in [0.0, -0.0, 0.00004, -1.0, f64::NEG_INFINITY] {
        assert_eq!(order_url("s", "BTC-USDT", "BUY", "LONG", d(quantity), None, 9, false), None);
    }
    for quantity in [0.00006, 1.0, f64::INFINITY, f64::NAN] {
        assert!(order_url("s", "BTC-USDT", "BUY", "LONG", d(quantity), None, 9, false).is_some());
    }
    assert!(too_small_text().contains("0.0001 BTC"));
}

#[test]
fn codes_decide_on_an_answer() {
    assert!(read_acknowledgement(true, "{\"code\":0}", Request::Connection).is_ok());
    assert_eq!(
        message(read_acknowledgement(true, "{\"code\":100,\"msg\":\"bad key\"}", Request::Connection)),
        "Error BingX (código 100): bad key"
    );
    assert_eq!(
        message(read_acknowledgement(true, "{\"code\":-1}", Request::Connection)),
        "Error BingX (código -1): Error desconocido"
    );
    assert_eq!(
        message(read_acknowledgement(true, "{\"code\":-1}", Request::Leverage)),
        "Error BingX (código -1): Error"
    );
    assert_eq!(
        message(read_acknowledgement(true, "{}", Request::Connection)),
        "Formato de respuesta de BingX no válido"
    );
    assert_eq!(message(read_acknowledgement(true, "[0]", Request::Leverage)), "Respuesta no válida");
    assert_eq!(message(read_acknowledgement(true, "{\"code\":0.5}", Request::Leverage)), "Respuesta no válida");
    assert_eq!(message(read_acknowledgement(true, "nope", Request::Leverage)), "not json");
    assert_eq!(
        message(read_acknowledgement(false, "{\"code\":0}", Request::Connection)),
        "Error HTTP en BingX: {\"code\":0}"
    );
    assert_eq!(message(read_acknowledgement(false, "x", Request::Leverage)), "Error HTTP: x");
    assert!(check_code(&json("{\"code\":0}"), Request::Order).is_ok());
}

#[test]
fn orders_report_their_average_price() {
    assert_eq!(
        read_order(true, "{\"code\":0,\"data\":{\"avgPrice\":\"20001.5\"}}").unwrap(),
        Some("20001.5".to_string())
    );
    assert_eq!(
        read_order(true, "{\"code\":0,\"avgPrice\":\"7\"}").unwrap(),
        Some("7".to_string())
    );
    assert_eq!(read_order(true, "{\"code\":0,\"data\":null,\"avgPrice\":\"7\"}").unwrap(), None);
    assert_eq!(
        message(read_order(true, "{\"code\":3,\"msg\":\"m\"}")),
        "Error BingX al colocar orden (código 3): m"
    );
    assert_eq!(message(read_order(true, "{}")), "Respuesta no válida de BingX");
    assert_eq!(message(read_order(false, "x")), "Error HTTP: x");
    assert_eq!(message(read_order(true, "{")), "not json");
    assert_eq!(average_price_in(&json("{\"data\":{\"avgPrice\":5}}")), None);
}

#[test]
fn prices_are_read_from_text() {
    assert_eq!(f(read_price(true, "{\"data\":{\"price\":\"20123.45\"}}").unwrap()), 20123.45);
    assert_eq!(message(read_price(true, "{\"data\":{\"price\":\"x\"}}")), "not a number");
    assert_eq!(
        message(read_price(true, "{\"data\":{\"price\":1}}")),
        "Formato de precio no encontrado en BingX"
    );
    assert_eq!(message(read_price(true, "")), "not json");
    assert_eq!(message(read_price(false, "down")), "Error obteniendo precio: down");
    assert_eq!(f(price_of(&json("{\"data\":{\"price\":\"1e3\"}}")).unwrap()), 1000.0);
}

#[test]
fn accounts_are_read_from_text() {
    let account = read_account(
        true,
        "{\"data\":{\"balance\":{\"balance\":\"100.5\",\"availableMargin\":\"80.25\",\"userId\":\"u1\"}}}",
    )
    .unwrap();
    assert_eq!(f(account.wallet_balance), 100.5);
    assert_eq!(f(account.available_margin), 80.25);
    assert_eq!(account.user_id, "u1");
    let empty = account_of(&json("{\"data\":{\"balance\":{\"balance\":\"?\"}}}")).unwrap();
    assert_eq!(empty.wallet_balance.bits, 0);
    assert_eq!(empty.available_margin.bits, 0);
    assert_eq!(empty.user_id, "");
    assert_eq!(
        message(read_account(true, "{\"data\":{}}")),
        "No se pudo obtener la información de balance/userId en la respuesta de BingX"
    );
    assert_eq!(message(read_account(true, "-")), "not json");
    assert_eq!(message(read_account(false, "e")), "Error HTTP al obtener balances: e");
}

#[test]
fn positions_are_read_with_their_defaults() {
    let list = read_positions(
        true,
        "{\"code\":0,\"data\":[{\"positionAmt\":\"-0.5\",\"positionSide\":\"SHORT\",\"entryPrice\":\"20000\",\"unrealizedProfit\":\"12.5\",\"leverage\":\"5\"},{}]}",
    )
    .unwrap();
    assert_eq!(list.len(), 2);
    assert_eq!(f(list[0].held()), 0.5);
    assert!(list[0].holds_any());
    assert_eq!(f(list[0].margin_bound().unwrap()), 2000.0);
    assert_eq!(
        list[0].line_text(),
        "• Lado: SHORT | Cantidad: -0.5000 | Entrada: $20000 | PnL No Realizado: $12.5 | Apalancamiento: 5x"
    );
    assert_eq!(list[1].amount, "0");
    assert_eq!(list[1].side, "LONG");
    assert_eq!(list[1].entry_price, "0");
    assert_eq!(list[1].unrealized_profit, "0");
    assert_eq!(list[1].leverage, "10");
    assert!(!list[1].holds_any());
    assert!(list[1].margin_bound().is_none());
    assert!(read_positions(true, "{\"code\":0}").unwrap().is_empty());
    assert!(positions_of(&json("{\"data\":{}}")).is_empty());
    assert_eq!(report_of(&json("5")).side, "LONG");
    assert_eq!(
        message(read_positions(true, "{\"code\":8}")),
        "Error BingX al consultar posiciones (código 8): Error"
    );
    assert_eq!(message(read_positions(true, "{}")), "Respuesta no válida de BingX");
    assert_eq!(message(read_positions(true, "x")), "not json");
    assert_eq!(message(read_positions(false, "x")), "Error HTTP al obtener posiciones: x");
}

fn report(amount: &str, entry: &str, leverage: &str) -> ReportedPosition {
    ReportedPosition {
        amount: amount.to_string(),
        side: "LONG".to_string(),
        entry_price: entry.to_string(),
        unrealized_profit: "0".to_string(),
        leverage: leverage.to_string(),
    }
}

#[test]
fn stable_balance_adds_the_margins() {
    assert_eq!(f(stable_balance(d(50.0), &vec![])), 50.0);
    let positions = vec![
        report("0.1", "20000", "10"),
        report("-0.2", "10000", "4"),
        report("0", "1", "1"),
        report("1", "1", "0"),
        report("0.3", "100", "?"),
    ];
    assert_eq!(
        stable_balance(d(50.0), &positions).bits,
        f64::to_bits(50.0 + (0.0 + 0.1 * 20000.0 / 10.0 + 0.2 * 10000.0 / 4.0 + 0.3 * 100.0 / 10.0))
    );
}
