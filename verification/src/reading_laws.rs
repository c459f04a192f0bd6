//! What is written in a document is what is read from it.

use crate::bingx_answers;
use crate::bingx_answers::{Fault, Report, Request};
use crate::db;
use crate::decimal_reader;
use crate::double::Double;
use crate::error_laws;
use crate::json::Json;
use crate::llm;
use crate::llm::BoxOrder;
use vstd::arithmetic::power2::*;
use vstd::prelude::*;

verus! {

/// A document that holds an order under its four keys.
pub open spec fn holds_order(b: Json, order: BoxOrder) -> bool {
    &&& b.at("accion"@) == Some(Json::Text(order.accion))
    &&& b.at("cerrar"@) == Some(Json::Bool(order.cerrar))
    &&& match order.apalancamiento {
        Some(x) => b.at("apalancamiento"@) matches Some(Json::Number { double, .. }) && double == x,
        None => b.at("apalancamiento"@) == Some(Json::Null),
    }
    &&& match order.stop_loss {
        Some(x) => b.at("stop_loss"@) matches Some(Json::Number { double, .. }) && double == x,
        None => b.at("stop_loss"@) == Some(Json::Null),
    }
}

/// An answer is read as it was written: each box under its own key, each field from its own place.
pub proof fn written_answers_are_read_back(
    document: Json,
    remark: Seq<char>,
    lt: Json,
    st: Json,
    long_term: BoxOrder,
    short_term: BoxOrder,
)
    requires
        document.at("analisis"@) == Some(Json::Text(remark)),
        document.at("lt_box"@) == Some(lt),
        document.at("st_box"@) == Some(st),
        holds_order(lt, long_term),
        holds_order(st, short_term),
    ensures
        llm::answer_in(document).analisis == Some(remark),
        llm::answer_in(document).lt_box == long_term,
        llm::answer_in(document).st_box == short_term,
{
}

/// A box is found under each of its three names, the first of them first; a box that is missing
/// asks for nothing.
pub proof fn boxes_are_found_by_their_names(document: Json)
    ensures
        ({
            let found = llm::answer_in(document);
            let nothing = BoxOrder {
                accion: "FLAT"@,
                cerrar: false,
                apalancamiento: None,
                stop_loss: None,
            };
            &&& document.at("lt_box"@) is None && document.at("LT_BOX"@) is Some ==> found.lt_box
                == llm::order_in(document.at("LT_BOX"@))
            &&& document.at("lt_box"@) is None && document.at("LT_BOX"@) is None ==> found.lt_box
                == llm::order_in(document.at("ltbox"@))
            &&& document.at("st_box"@) is None && document.at("ST_BOX"@) is Some ==> found.st_box
                == llm::order_in(document.at("ST_BOX"@))
            &&& document.at("st_box"@) is None && document.at("ST_BOX"@) is None ==> found.st_box
                == llm::order_in(document.at("stbox"@))
            &&& llm::order_in(None) == nothing
        }),
{
}

/// What a box does not say has its default: no action but to stay out, no closing, no leverage and
/// no stop loss of its own.
pub proof fn missing_fields_have_their_defaults(b: Json)
    ensures
        ({
            let order = llm::order_in(Some(b));
            &&& b.text_at("accion"@) is None ==> order.accion == "FLAT"@
            &&& b.at("cerrar"@) is None ==> !order.cerrar
            &&& b.at("apalancamiento"@) is None ==> order.apalancamiento is None
            &&& b.at("stop_loss"@) is None ==> order.stop_loss is None
        }),
{
}

/// A box is closed for true, for the word in any case, for the text of one and for the number one,
/// and for nothing else.
pub proof fn closing_has_four_shapes(v: Json)
    ensures
        llm::affirmed(v) <==> {
            ||| v == Json::Bool(true)
            ||| v.text() is Some && decimal_reader::spells(v.text()->Some_0, "true"@)
            ||| v.text() == Some("1"@)
            ||| v.integer() == Some(1i64)
        },
{
}

/// The message of a reply is the content of its first choice.
pub proof fn replies_hold_the_first_message(
    reply: Json,
    choices: Seq<Json>,
    message: Json,
    content: Seq<char>,
)
    requires
        reply.at("choices"@) == Some(Json::List(choices)),
        choices.len() > 0,
        choices[0].at("message"@) == Some(message),
        message.at("content"@) == Some(Json::Text(content)),
    ensures
        llm::content_in(reply) == Some(content),
{
}

/// A candle is read from its entry field by field: when it opened, its four prices and its volume in
/// the order of the market, and when it closed.
pub proof fn entries_are_read_field_by_field(
    opened: i64,
    numbers: Seq<Double>,
    texts: Seq<Seq<char>>,
    closed: i64,
    rest: Seq<Json>,
)
    requires
        numbers.len() == 5,
        texts.len() == 5,
        forall|k: int|
            0 <= k < 5 ==> #[trigger] decimal_reader::read_double(texts[k]) == Some(numbers[k]),
    ensures
        ({
            let first = Json::Number { integer: Some(opened), double: Double::of(opened as int) };
            let last = Json::Number { integer: Some(closed), double: Double::of(closed as int) };
            let entry = seq![
                first,
                Json::Text(texts[0]),
                Json::Text(texts[1]),
                Json::Text(texts[2]),
                Json::Text(texts[3]),
                Json::Text(texts[4]),
                last,
            ] + rest;
            let candle = db::candle_in(entry);
            &&& candle.open_time == opened
            &&& candle.open == numbers[0]
            &&& candle.high == numbers[1]
            &&& candle.low == numbers[2]
            &&& candle.close == numbers[3]
            &&& candle.volume == numbers[4]
            &&& candle.close_time == closed
            &&& db::candles_in(seq![entry], 1) == seq![candle]
        }),
{
    assert(decimal_reader::read_double(texts[0]) == Some(numbers[0]));
    assert(decimal_reader::read_double(texts[1]) == Some(numbers[1]));
    assert(decimal_reader::read_double(texts[2]) == Some(numbers[2]));
    assert(decimal_reader::read_double(texts[3]) == Some(numbers[3]));
    assert(decimal_reader::read_double(texts[4]) == Some(numbers[4]));
    let first = Json::Number { integer: Some(opened), double: Double::of(opened as int) };
    let last = Json::Number { integer: Some(closed), double: Double::of(closed as int) };
    let entry = seq![
        first,
        Json::Text(texts[0]),
        Json::Text(texts[1]),
        Json::Text(texts[2]),
        Json::Text(texts[3]),
        Json::Text(texts[4]),
        last,
    ] + rest;
    reveal_with_fuel(db::candles_in, 2);
    assert(db::candles_in(seq![entry], 1) =~= seq![db::candle_in(entry)]);
}

/// An entry with fewer than seven fields is passed over, and the candles around it are kept.
pub proof fn short_entries_are_passed_over(entries: Seq<Seq<Json>>, short: Seq<Json>)
    requires
        short.len() < 7,
    ensures
        db::candles_in(entries.push(short), entries.len() + 1) == db::candles_in(
            entries,
            entries.len(),
        ),
{
    lemma_entries_prefix(entries, short, entries.len());
}

proof fn lemma_entries_prefix(entries: Seq<Seq<Json>>, more: Seq<Json>, n: nat)
    requires
        n <= entries.len(),
    ensures
        db::candles_in(entries.push(more), n) == db::candles_in(entries, n),
    decreases n,
{
    if n > 0 {
        lemma_entries_prefix(entries, more, (n - 1) as nat);
        assert(entries.push(more)[n - 1] == entries[n - 1]);
    }
}

/// An answer of the exchange is accepted exactly where its code is zero.
pub proof fn only_code_zero_is_accepted(answer: Json, request: Request)
    ensures
        bingx_answers::fault_in(answer, request) is None <==> bingx_answers::code_in(answer)
            == Some(0i64),
        answer.at("code"@) matches Some(Json::Number { integer, .. }) ==> bingx_answers::code_in(
            answer,
        ) == integer,
{
}

/// The account is read as it was written.
pub proof fn written_accounts_are_read_back(
    answer: Json,
    data: Json,
    balance: Json,
    wallet: Seq<char>,
    available: Seq<char>,
    user: Seq<char>,
    x: Double,
    y: Double,
)
    requires
        answer.at("data"@) == Some(data),
        data.at("balance"@) == Some(balance),
        balance.at("balance"@) == Some(Json::Text(wallet)),
        balance.at("availableMargin"@) == Some(Json::Text(available)),
        balance.at("userId"@) == Some(Json::Text(user)),
        decimal_reader::read_double(wallet) == Some(x),
        decimal_reader::read_double(available) == Some(y),
    ensures
        bingx_answers::account_in(answer) matches Ok(account) && account.wallet_balance == x
            && account.available_margin == y && account.user_id == user,
{
}

/// The price is read as it was written, and is asked for nowhere else.
pub proof fn written_prices_are_read_back(answer: Json, data: Json, text: Seq<char>)
    requires
        answer.at("data"@) == Some(data),
        data.at("price"@) == Some(Json::Text(text)),
    ensures
        match decimal_reader::read_double(text) {
            Some(x) => bingx_answers::price_in(answer) == Ok::<Double, Fault>(x),
            None => bingx_answers::price_in(answer) == Err::<Double, Fault>(Fault::NotANumber),
        },
{
}

/// A reported position is read as it was written, each field from its own key.
pub proof fn written_positions_are_read_back(v: Json, report: Report)
    requires
        v.at("positionAmt"@) == Some(Json::Text(report.amount)),
        v.at("positionSide"@) == Some(Json::Text(report.side)),
        v.at("entryPrice"@) == Some(Json::Text(report.entry_price)),
        v.at("unrealizedProfit"@) == Some(Json::Text(report.unrealized_profit)),
        v.at("leverage"@) == Some(Json::Text(report.leverage)),
    ensures
        bingx_answers::report_in(v) == report,
{
    assert(bingx_answers::report_in(v) =~= report);
}

/// Every entry of an accepted answer is a position, in the order of the answer.
pub proof fn every_entry_is_a_position(answer: Json, list: Seq<Json>, k: int)
    requires
        answer.at("data"@) == Some(Json::List(list)),
        0 <= k < list.len(),
    ensures
        bingx_answers::positions_in(answer).len() == list.len(),
        bingx_answers::positions_in(answer)[k] == bingx_answers::report_in(list[k]),
{
}

/// The margin behind an open position, times its leverage, is its size at the entry price, up to
/// rounding; a position that holds nothing binds nothing.
pub proof fn bound_margins_are_values_over_leverages(
    report: Report,
    size: Double,
    entry: Double,
    leverage: Double,
)
    requires
        decimal_reader::read_double(report.amount) == Some(size),
        decimal_reader::read_double(report.entry_price) == Some(entry),
        decimal_reader::read_double(report.leverage) == Some(leverage),
        error_laws::moderate(size),
        error_laws::moderate(entry),
        error_laws::moderate(leverage),
    ensures
        report.bound_margin() matches Some(margin) && error_laws::near(
            margin.units() * leverage.units(),
            size.units() * entry.units(),
            50,
        ),
{
    lemma_pow2_pos(974);
    assert(0nat * pow2(0) == 0);
    assert(size.absolute() == size);
    crate::liquidation_laws::lemma_size(size, entry, leverage);
}

/// A position that holds nothing is not open and binds no margin.
pub proof fn nothing_held_is_not_open(report: Report)
    requires
        bingx_answers::number_or(report.amount, Double::zero()).equals(Double::zero()),
    ensures
        !report.is_open(),
        report.bound_margin() is None,
{
    assert(0nat * pow2(0) == 0);
}

} // verus!
