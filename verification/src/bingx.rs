//! Requests to the exchange.

use crate::decimal;
use crate::decimal::{fixed_text, integer_text, numeral_text};
use crate::decimal_reader;
use crate::decimal_reader::parse_double;
use crate::double::Double;
use crate::text;
use crate::text::chars_of;
use hmac::{Hmac, Mac};
use sha2::Sha256;
use vstd::prelude::*;
use vstd::string::*;

verus! {

/// `s` with every occurrence of `USDT`, taken from left to right, led by a dash.
pub open spec fn dashed(s: Seq<char>) -> Seq<char>
    decreases s.len(),
{
    if s.len() < 4 {
        s
    } else if s.take(4) == seq!['U', 'S', 'D', 'T'] {
        seq!['-', 'U', 'S', 'D', 'T'] + dashed(s.skip(4))
    } else {
        seq![s[0]] + dashed(s.skip(1))
    }
}

/// The symbol as the exchange writes it: left alone where it has a dash, else with one before
/// the quote currency.
pub open spec fn normalized(s: Seq<char>) -> Seq<char> {
    if s.contains('-') {
        s
    } else {
        dashed(s)
    }
}

proof fn lemma_dashed(s: Seq<char>)
    ensures
        dashed(s) == s || dashed(s).contains('-'),
    decreases s.len(),
{
    if s.len() >= 4 {
        if s.take(4) == seq!['U', 'S', 'D', 'T'] {
            assert(dashed(s)[0] == '-');
        } else {
            lemma_dashed(s.skip(1));
            let rest = dashed(s.skip(1));
            if rest.contains('-') {
                let k = choose|k: int| 0 <= k < rest.len() && rest[k] == '-';
                assert(dashed(s)[k + 1] == '-');
            } else {
                assert(seq![s[0]] + s.skip(1) =~= s);
            }
        }
    }
}

/// A symbol that is written as the exchange writes it is left as it is.
pub proof fn normalizing_once_is_enough(symbol: Seq<char>)
    ensures
        normalized(normalized(symbol)) == normalized(symbol),
{
    lemma_dashed(symbol);
}

/// The symbol as the exchange writes it.
pub fn normalize_symbol(symbol: &str) -> (r: String)
    ensures
        r@ == normalized(symbol@),
{
    let s = chars_of(symbol);
    let mut has_dash = false;
    let mut i: usize = 0;
    while i < s.len()
        invariant
            i <= s@.len(),
            has_dash == s@.take(i as int).contains('-'),
        decreases s@.len() - i,
    {
        if s[i] == '-' {
            has_dash = true;
        }
        proof {
            let next = s@.take(i + 1);
            assert(next =~= s@.take(i as int).push(s@[i as int]));
            if s@[i as int] == '-' {
                assert(next[i as int] == '-');
            }
            if s@.take(i as int).contains('-') {
                let k = choose|k: int| 0 <= k < i && s@.take(i as int)[k] == '-';
                assert(next[k] == '-');
            }
            if next.contains('-') && s@[i as int] != '-' {
                let k = choose|k: int| 0 <= k < i + 1 && next[k] == '-';
                assert(s@.take(i as int)[k] == '-');
            }
        }
        i = i + 1;
    }
    assert(s@.take(s@.len() as int) =~= s@);
    if has_dash {
        return symbol.to_owned();
    }
    let mut out = String::new();
    let mut j: usize = 0;
    assert(s@.skip(0) =~= s@);
    assert(out@ + dashed(s@.skip(0)) =~= dashed(s@));
    while j < s.len()
        invariant
            j <= s@.len(),
            out@ + dashed(s@.skip(j as int)) == dashed(s@),
        decreases s@.len() - j,
    {
        let ghost rest = s@.skip(j as int);
        if s.len() - j >= 4 && s[j] == 'U' && s[j + 1] == 'S' && s[j + 2] == 'D' && s[j + 3] == 'T' {
            proof {
                assert(rest.take(4) =~= seq!['U', 'S', 'D', 'T']);
                assert(rest.skip(4) =~= s@.skip(j + 4));
                reveal_strlit("-USDT");
                assert("-USDT"@ =~= seq!['-', 'U', 'S', 'D', 'T']);
                assert((out@ + "-USDT"@) + dashed(rest.skip(4)) =~= out@ + dashed(rest));
            }
            out.append("-USDT");
            j = j + 4;
        } else {
            proof {
                if rest.len() >= 4 && rest.take(4) == seq!['U', 'S', 'D', 'T'] {
                    assert(rest.take(4)[0] == 'U' && rest.take(4)[1] == 'S' && rest.take(4)[2] == 'D'
                        && rest.take(4)[3] == 'T');
                }
                assert(rest.skip(1) =~= s@.skip(j + 1));
                if rest.len() < 4 {
                    assert(dashed(rest) == rest);
                    assert(dashed(rest.skip(1)) == rest.skip(1));
                    assert(rest =~= seq![rest[0]] + rest.skip(1));
                }
                assert(out@.push(rest[0]) + dashed(rest.skip(1)) =~= out@ + dashed(rest));
            }
            out.push(s[j]);
            j = j + 1;
        }
    }
    assert(s@.skip(j as int) =~= Seq::empty());
    assert(out@ + Seq::<char>::empty() =~= out@);
    out
}

/// The HMAC-SHA256 code of a message under a key, both as UTF-8.
pub uninterp spec fn hmac_sha256_of(key: Seq<char>, message: Seq<char>) -> Seq<u8>;

/// `hmac::Hmac` over `sha2::Sha256`, made from a key of any length, fed with the message and
/// finished: the code depends on the key and the message alone and has 32 bytes.
#[verifier::external_body]
fn hmac_sha256(key: &str, message: &str) -> (r: Vec<u8>)
    ensures
        r@ == hmac_sha256_of(key@, message@),
        r@.len() == 32,
{
    let mut mac = Hmac::<Sha256>::new_from_slice(key.as_bytes()).expect("any key length fits");
    mac.update(message.as_bytes());
    mac.finalize().into_bytes().to_vec()
}

/// Bytes in hexadecimal, two digits each.
pub open spec fn hex_text(bytes: Seq<u8>) -> Seq<char> {
    Seq::new(
        2 * bytes.len(),
        |i: int| text::hex_digit(if i % 2 == 0 { bytes[i / 2] / 16 } else { bytes[i / 2] % 16 } as int),
    )
}

/// `hex::encode`: two hexadecimal digits in small letters for each byte, the high one first.
#[verifier::external_body]
fn hex_encoded(bytes: &Vec<u8>) -> (r: String)
    ensures
        r@ == hex_text(bytes@),
{
    hex::encode(bytes)
}

/// The signature of a query.
pub open spec fn signature(secret: Seq<char>, query: Seq<char>) -> Seq<char> {
    hex_text(hmac_sha256_of(secret, query))
}

/// The signature of a query: its HMAC-SHA256 code under the secret, in hexadecimal.
pub fn calculate_signature(secret: &str, query: &str) -> (r: String)
    ensures
        r@ == signature(secret@, query@),
        r@.len() == 64,
{
    let code = hmac_sha256(secret, query);
    hex_encoded(&code)
}

/// The address of the exchange, real or for demonstration.
pub open spec fn base(use_testnet: bool) -> Seq<char> {
    if use_testnet {
        "https://open-api-vst.bingx.com"@
    } else {
        "https://open-api.bingx.com"@
    }
}

/// The address of the exchange, real or for demonstration.
pub fn base_url(use_testnet: bool) -> (r: &'static str)
    ensures
        r@ == base(use_testnet),
{
    if use_testnet {
        "https://open-api-vst.bingx.com"
    } else {
        "https://open-api.bingx.com"
    }
}

/// The address of a signed request.
pub open spec fn signed(
    use_testnet: bool,
    path: Seq<char>,
    query: Seq<char>,
    secret: Seq<char>,
) -> Seq<char> {
    base(use_testnet) + path + "?"@ + query + "&signature="@ + signature(secret, query)
}

/// The address of a request with its signature.
pub fn signed_with(use_testnet: bool, path: &str, query: &str, code: &str) -> (r: String)
    ensures
        r@ == base(use_testnet) + path@ + "?"@ + query@ + "&signature="@ + code@,
{
    let mut url = base_url(use_testnet).to_owned();
    url.append(path);
    url.append("?");
    url.append(query);
    url.append("&signature=");
    url.append(code);
    url
}

fn signed_url(use_testnet: bool, path: &str, query: &str, secret: &str) -> (r: String)
    ensures
        r@ == signed(use_testnet, path@, query@, secret@),
{
    let code = calculate_signature(secret, query);
    signed_with(use_testnet, path, query, code.as_str())
}

/// The query for the balance.
pub open spec fn balance_query(timestamp: i64) -> Seq<char> {
    "timestamp="@ + decimal::signed_numeral(timestamp as int)
}

/// The address that asks for the balance, which also tests the connection.
pub fn balance_url(api_secret: &str, timestamp: i64, use_testnet: bool) -> (r: String)
    ensures
        r@ == signed(
            use_testnet,
            "/openApi/swap/v2/user/balance"@,
            balance_query(timestamp),
            api_secret@,
        ),
{
    let mut query = "timestamp=".to_owned();
    let time = integer_text(timestamp as i128);
    query.append(time.as_str());
    signed_url(use_testnet, "/openApi/swap/v2/user/balance", query.as_str(), api_secret)
}

/// The query that sets the leverage of one side.
pub open spec fn leverage_query(
    symbol: Seq<char>,
    leverage: u32,
    position_side: Seq<char>,
    timestamp: i64,
) -> Seq<char> {
    "leverage="@ + decimal::numeral(leverage as nat) + "&side="@ + position_side + "&symbol="@
        + normalized(symbol) + "&timestamp="@ + decimal::signed_numeral(timestamp as int)
}

/// The address that sets the leverage of one side.
pub fn leverage_url(
    api_secret: &str,
    symbol: &str,
    leverage: u32,
    position_side: &str,
    timestamp: i64,
    use_testnet: bool,
) -> (r: String)
    ensures
        r@ == signed(
            use_testnet,
            "/openApi/swap/v2/trade/leverage"@,
            leverage_query(symbol@, leverage, position_side@, timestamp),
            api_secret@,
        ),
{
    let mut query = "leverage=".to_owned();
    let times = numeral_text(leverage as u128);
    query.append(times.as_str());
    query.append("&side=");
    query.append(position_side);
    query.append("&symbol=");
    let name = normalize_symbol(symbol);
    query.append(name.as_str());
    query.append("&timestamp=");
    let time = integer_text(timestamp as i128);
    query.append(time.as_str());
    signed_url(use_testnet, "/openApi/swap/v2/trade/leverage", query.as_str(), api_secret)
}

/// The address that asks for the price of a symbol.
pub fn price_url(symbol: &str, use_testnet: bool) -> (r: String)
    ensures
        r@ == base(use_testnet) + "/openApi/swap/v2/quote/price?symbol="@ + normalized(symbol@),
{
    let mut url = base_url(use_testnet).to_owned();
    url.append("/openApi/swap/v2/quote/price?symbol=");
    let name = normalize_symbol(symbol);
    url.append(name.as_str());
    url
}

/// Whether a quantity, written with four decimals, is too small for an order.
pub open spec fn too_small(quantity: Double) -> bool {
    match decimal_reader::read_double(decimal::fixed(quantity, 4)) {
        Some(x) => x.at_most(Double::zero()),
        None => true,
    }
}

/// The query of a market order.
pub open spec fn order_query(
    symbol: Seq<char>,
    side: Seq<char>,
    position_side: Seq<char>,
    quantity: Double,
    client_order_id: Option<Seq<char>>,
    timestamp: i64,
) -> Seq<char> {
    let order = "positionSide="@ + position_side + "&quantity="@ + decimal::fixed(quantity, 4)
        + "&side="@ + side + "&symbol="@ + normalized(symbol) + "&timestamp="@
        + decimal::signed_numeral(timestamp as int) + "&type=MARKET"@;
    match client_order_id {
        Some(id) => "clientOrderID="@ + id + "&"@ + order,
        None => order,
    }
}

/// The address of a market order; none where the quantity is too small.
pub fn order_url(
    api_secret: &str,
    symbol: &str,
    side: &str,
    position_side: &str,
    quantity: Double,
    client_order_id: Option<&str>,
    timestamp: i64,
    use_testnet: bool,
) -> (r: Option<String>)
    ensures
        match r {
            None => too_small(quantity),
            Some(url) => !too_small(quantity) && url@ == signed(
                use_testnet,
                "/openApi/swap/v2/trade/order"@,
                order_query(
                    symbol@,
                    side@,
                    position_side@,
                    quantity,
                    match client_order_id {
                        Some(id) => Some(id@),
                        None => None,
                    },
                    timestamp,
                ),
                api_secret@,
            ),
        },
{
    let amount = fixed_text(quantity, 4);
    let zero = Double { bits: 0 };
    match parse_double(amount.as_str()) {
        Some(x) => {
            if x.le(zero) {
                return None;
            }
        },
        None => {
            return None;
        },
    }
    let mut order = "positionSide=".to_owned();
    order.append(position_side);
    order.append("&quantity=");
    order.append(amount.as_str());
    order.append("&side=");
    order.append(side);
    order.append("&symbol=");
    let name = normalize_symbol(symbol);
    order.append(name.as_str());
    order.append("&timestamp=");
    let time = integer_text(timestamp as i128);
    order.append(time.as_str());
    order.append("&type=MARKET");
    let query = match client_order_id {
        Some(id) => {
            let mut named = "clientOrderID=".to_owned();
            named.append(id);
            named.append("&");
            named.append(order.as_str());
            named
        },
        None => order,
    };
    Some(signed_url(use_testnet, "/openApi/swap/v2/trade/order", query.as_str(), api_secret))
}

/// What is said of a quantity that is too small.
pub fn too_small_text() -> (r: &'static str)
    ensures
        r@
            == "La cantidad calculada es menor que el mínimo permitido por el exchange (0.0001 BTC)."@,
{
    "La cantidad calculada es menor que el mínimo permitido por el exchange (0.0001 BTC)."
}

/// The query for the open positions of a symbol.
pub open spec fn positions_query(symbol: Seq<char>, timestamp: i64) -> Seq<char> {
    "symbol="@ + normalized(symbol) + "&timestamp="@ + decimal::signed_numeral(timestamp as int)
}

/// The address that asks for the open positions of a symbol.
pub fn positions_url(api_secret: &str, symbol: &str, timestamp: i64, use_testnet: bool) -> (r:
    String)
    ensures
        r@ == signed(
            use_testnet,
            "/openApi/swap/v2/user/positions"@,
            positions_query(symbol@, timestamp),
            api_secret@,
        ),
{
    let mut query = "symbol=".to_owned();
    let name = normalize_symbol(symbol);
    query.append(name.as_str());
    query.append("&timestamp=");
    let time = integer_text(timestamp as i128);
    query.append(time.as_str());
    signed_url(use_testnet, "/openApi/swap/v2/user/positions", query.as_str(), api_secret)
}

} // verus!
