//! Every report shows each figure behind its own label.

use crate::backtest;
use crate::bingx;
use crate::bingx_answers;
use crate::bingx_answers::Report;
use crate::dashboard;
use crate::decimal;
use crate::double::Double;
use crate::indicators;
use crate::live;
use crate::live::LivePosition;
use crate::llm;
use crate::metrics::{AdvancedMetrics, CurvePoint};
use crate::positions;
use crate::positions::EntryFigures;
use crate::prompts;
use crate::prompts::TradeRecord;
use crate::simulation::{Simulation, Worth};
use crate::text;
use crate::types::{Candle, Position};
use vstd::prelude::*;

verus! {

spec fn entry_of(g: Seq<Seq<char>>) -> Seq<char> {
    g[0]
        + ": "@
        + g[1]
        + "\nEntry Price: "@
        + g[2]
        + " USDT\nClose Price: "@
        + g[3]
        + " USDT"@
        + g[4]
        + "\nMargin: "@
        + g[5]
        + " USDT\nVolume: "@
        + g[6]
        + " BTC ($"@
        + g[7]
        + ")\nPNL: "@
        + g[8]
        + " USDT (ROE: "@
        + g[9]
        + "%)\nStop Loss: "@
        + g[10]
        + "\nFee: "@
        + g[11]
        + " USDT"@
}

proof fn lemma_entry_parts(g: Seq<Seq<char>>) -> (parts: Seq<Seq<char>>)
    ensures
        entry_of(g) == text::row(parts, 24),
        parts.len() == 24,
        parts[0] == g[0],
        parts[1] == ": "@,
        parts[2] == g[1],
        parts[3] == "\nEntry Price: "@,
        parts[4] == g[2],
        parts[5] == " USDT\nClose Price: "@,
        parts[6] == g[3],
        parts[7] == " USDT"@,
        parts[8] == g[4],
        parts[9] == "\nMargin: "@,
        parts[10] == g[5],
        parts[11] == " USDT\nVolume: "@,
        parts[12] == g[6],
        parts[13] == " BTC ($"@,
        parts[14] == g[7],
        parts[15] == ")\nPNL: "@,
        parts[16] == g[8],
        parts[17] == " USDT (ROE: "@,
        parts[18] == g[9],
        parts[19] == "%)\nStop Loss: "@,
        parts[20] == g[10],
        parts[21] == "\nFee: "@,
        parts[22] == g[11],
        parts[23] == " USDT"@,
{
    let parts = seq![
        g[0],
        ": "@,
        g[1],
        "\nEntry Price: "@,
        g[2],
        " USDT\nClose Price: "@,
        g[3],
        " USDT"@,
        g[4],
        "\nMargin: "@,
        g[5],
        " USDT\nVolume: "@,
        g[6],
        " BTC ($"@,
        g[7],
        ")\nPNL: "@,
        g[8],
        " USDT (ROE: "@,
        g[9],
        "%)\nStop Loss: "@,
        g[10],
        "\nFee: "@,
        g[11],
        " USDT"@,
    ];
    reveal_with_fuel(text::row, 25);
    parts
}

proof fn lemma_entry_shows(g: Seq<Seq<char>>)
    ensures
        text::shows(entry_of(g), ": "@, g[1], "\nEntry Price: "@),
        text::shows(entry_of(g), "\nEntry Price: "@, g[2], " USDT\nClose Price: "@),
        text::shows(entry_of(g), " USDT\nClose Price: "@, g[3], " USDT"@),
        text::shows(entry_of(g), " USDT"@, g[4], "\nMargin: "@),
        text::shows(entry_of(g), "\nMargin: "@, g[5], " USDT\nVolume: "@),
        text::shows(entry_of(g), " USDT\nVolume: "@, g[6], " BTC ($"@),
        text::shows(entry_of(g), " BTC ($"@, g[7], ")\nPNL: "@),
        text::shows(entry_of(g), ")\nPNL: "@, g[8], " USDT (ROE: "@),
        text::shows(entry_of(g), " USDT (ROE: "@, g[9], "%)\nStop Loss: "@),
        text::shows(entry_of(g), "%)\nStop Loss: "@, g[10], "\nFee: "@),
        text::shows(entry_of(g), "\nFee: "@, g[11], " USDT"@),
{
    let parts = lemma_entry_parts(g);
    text::lemma_row_shows(parts, 24, 1);
    text::lemma_row_shows(parts, 24, 3);
    text::lemma_row_shows(parts, 24, 5);
    text::lemma_row_shows(parts, 24, 7);
    text::lemma_row_shows(parts, 24, 9);
    text::lemma_row_shows(parts, 24, 11);
    text::lemma_row_shows(parts, 24, 13);
    text::lemma_row_shows(parts, 24, 15);
    text::lemma_row_shows(parts, 24, 17);
    text::lemma_row_shows(parts, 24, 19);
    text::lemma_row_shows(parts, 24, 21);
}

/// An entry of the log shows every figure of its position behind its label.
#[verifier::rlimit(40)]
pub proof fn entries_show_their_figures(pos: Position, ending: Seq<char>, stop: Option<Double>, figures: EntryFigures)
    ensures
        ({
            let shown = positions::entry(pos, ending, stop, figures);
            &&& text::shows(shown, ": "@, positions::direction_name(pos.position_type), "\nEntry Price: "@)
            &&& text::shows(shown, "\nEntry Price: "@, decimal::fixed(pos.entry_price, 2), " USDT\nClose Price: "@)
            &&& text::shows(shown, " USDT\nClose Price: "@, decimal::fixed(figures.close, 2), " USDT"@)
            &&& text::shows(shown, " USDT"@, ending, "\nMargin: "@)
            &&& text::shows(shown, "\nMargin: "@, decimal::fixed(pos.margin, 2), " USDT\nVolume: "@)
            &&& text::shows(shown, " USDT\nVolume: "@, decimal::fixed(pos.size_btc, 6), " BTC ($"@)
            &&& text::shows(shown, " BTC ($"@, decimal::fixed(figures.volume, 2), ")\nPNL: "@)
            &&& text::shows(shown, ")\nPNL: "@, decimal::fixed(figures.pnl, 2), " USDT (ROE: "@)
            &&& text::shows(shown, " USDT (ROE: "@, decimal::fixed(figures.roe, 2), "%)\nStop Loss: "@)
            &&& text::shows(shown, "%)\nStop Loss: "@, positions::stop_text(stop), "\nFee: "@)
            &&& text::shows(shown, "\nFee: "@, decimal::fixed(figures.fee, 2), " USDT"@)
        }),
{
    reveal(positions::entry);
    let g = seq![
        positions::box_name(pos.box_type),
        positions::direction_name(pos.position_type),
        decimal::fixed(pos.entry_price, 2),
        decimal::fixed(figures.close, 2),
        ending,
        decimal::fixed(pos.margin, 2),
        decimal::fixed(pos.size_btc, 6),
        decimal::fixed(figures.volume, 2),
        decimal::fixed(figures.pnl, 2),
        decimal::fixed(figures.roe, 2),
        positions::stop_text(stop),
        decimal::fixed(figures.fee, 2),
    ];
    assert(positions::entry(pos, ending, stop, figures) == entry_of(g));
    lemma_entry_shows(g);
}

/// An entry of the log begins with the name of its box.
#[verifier::rlimit(40)]
pub proof fn entries_begin_with_their_box(pos: Position, ending: Seq<char>, stop: Option<Double>, figures: EntryFigures)
    ensures
        text::begins_with(
            positions::entry(pos, ending, stop, figures),
            positions::box_name(pos.box_type) + ":"@,
        ),
{
    reveal(positions::entry);
    reveal_strlit(":");
    reveal_strlit(": ");
    let name = positions::box_name(pos.box_type);
    let g = seq![
        name,
        positions::direction_name(pos.position_type),
        decimal::fixed(pos.entry_price, 2),
        decimal::fixed(figures.close, 2),
        ending,
        decimal::fixed(pos.margin, 2),
        decimal::fixed(pos.size_btc, 6),
        decimal::fixed(figures.volume, 2),
        decimal::fixed(figures.pnl, 2),
        decimal::fixed(figures.roe, 2),
        positions::stop_text(stop),
        decimal::fixed(figures.fee, 2),
    ];
    assert(positions::entry(pos, ending, stop, figures) == entry_of(g));
    let parts = lemma_entry_parts(g);
    let head = name + ": "@;
    assert(parts[0] == name);
    assert(head.subrange(0, name.len() as int + 1) =~= name + ":"@);
    text::lemma_row_begins(parts, 24, name + ":"@);
}

spec fn candle_of(g: Seq<Seq<char>>) -> Seq<char> {
    "- t-"@
        + g[0]
        + ": O:"@
        + g[1]
        + ", H:"@
        + g[2]
        + ", L:"@
        + g[3]
        + ", C:"@
        + g[4]
        + ", V:"@
        + g[5]
        + g[6]
        + g[7]
        + "\n"@
}

proof fn lemma_candle_parts(g: Seq<Seq<char>>) -> (parts: Seq<Seq<char>>)
    ensures
        candle_of(g) == text::row(parts, 15),
        parts.len() == 15,
        parts[0] == "- t-"@,
        parts[1] == g[0],
        parts[2] == ": O:"@,
        parts[3] == g[1],
        parts[4] == ", H:"@,
        parts[5] == g[2],
        parts[6] == ", L:"@,
        parts[7] == g[3],
        parts[8] == ", C:"@,
        parts[9] == g[4],
        parts[10] == ", V:"@,
        parts[11] == g[5],
        parts[12] == g[6],
        parts[13] == g[7],
        parts[14] == "\n"@,
{
    let parts = seq![
        "- t-"@,
        g[0],
        ": O:"@,
        g[1],
        ", H:"@,
        g[2],
        ", L:"@,
        g[3],
        ", C:"@,
        g[4],
        ", V:"@,
        g[5],
        g[6],
        g[7],
        "\n"@,
    ];
    reveal_with_fuel(text::row, 16);
    parts
}

proof fn lemma_candle_shows(g: Seq<Seq<char>>)
    ensures
        text::shows(candle_of(g), "- t-"@, g[0], ": O:"@),
        text::shows(candle_of(g), ": O:"@, g[1], ", H:"@),
        text::shows(candle_of(g), ", H:"@, g[2], ", L:"@),
        text::shows(candle_of(g), ", L:"@, g[3], ", C:"@),
        text::shows(candle_of(g), ", C:"@, g[4], ", V:"@),
        text::shows(candle_of(g), ", V:"@, g[5], g[6]),
{
    let parts = lemma_candle_parts(g);
    text::lemma_row_shows(parts, 15, 0);
    text::lemma_row_shows(parts, 15, 2);
    text::lemma_row_shows(parts, 15, 4);
    text::lemma_row_shows(parts, 15, 6);
    text::lemma_row_shows(parts, 15, 8);
    text::lemma_row_shows(parts, 15, 10);
}

/// The line of a candle shows how long ago it was, its prices and its volume behind their labels.
#[verifier::rlimit(40)]
pub proof fn candles_show_their_prices(c: Candle, i: int, k: int, note: Seq<char>)
    ensures
        ({
            let shown = prompts::candle_line(c, i, k, note);
            &&& text::shows(shown, "- t-"@, decimal::numeral((i - k) as nat), ": O:"@)
            &&& text::shows(shown, ": O:"@, decimal::fixed(c.open, 1), ", H:"@)
            &&& text::shows(shown, ", H:"@, decimal::fixed(c.high, 1), ", L:"@)
            &&& text::shows(shown, ", L:"@, decimal::fixed(c.low, 1), ", C:"@)
            &&& text::shows(shown, ", C:"@, decimal::fixed(c.close, 1), ", V:"@)
            &&& text::shows(shown, ", V:"@, decimal::fixed(c.volume, 0), prompts::current_mark(i, k))
        }),
{
    let g = seq![
        decimal::numeral((i - k) as nat),
        decimal::fixed(c.open, 1),
        decimal::fixed(c.high, 1),
        decimal::fixed(c.low, 1),
        decimal::fixed(c.close, 1),
        decimal::fixed(c.volume, 0),
        prompts::current_mark(i, k),
        note,
    ];
    assert(prompts::candle_line(c, i, k, note) == candle_of(g));
    lemma_candle_shows(g);
}

spec fn position_of(g: Seq<Seq<char>>) -> Seq<char> {
    "- Position #"@
        + g[0]
        + ": "@
        + g[1]
        + " | Box: "@
        + g[2]
        + " | Entry: "@
        + g[3]
        + " USDT | Margin: "@
        + g[4]
        + " USDT | Size: "@
        + g[5]
        + " BTC | Liq: "@
        + g[6]
        + " USDT | SL: "@
        + g[7]
        + " | Floating PnL: "@
        + g[8]
        + " USDT (ROE: "@
        + g[9]
        + "%)\n"@
}

proof fn lemma_position_parts(g: Seq<Seq<char>>) -> (parts: Seq<Seq<char>>)
    ensures
        position_of(g) == text::row(parts, 21),
        parts.len() == 21,
        parts[0] == "- Position #"@,
        parts[1] == g[0],
        parts[2] == ": "@,
        parts[3] == g[1],
        parts[4] == " | Box: "@,
        parts[5] == g[2],
        parts[6] == " | Entry: "@,
        parts[7] == g[3],
        parts[8] == " USDT | Margin: "@,
        parts[9] == g[4],
        parts[10] == " USDT | Size: "@,
        parts[11] == g[5],
        parts[12] == " BTC | Liq: "@,
        parts[13] == g[6],
        parts[14] == " USDT | SL: "@,
        parts[15] == g[7],
        parts[16] == " | Floating PnL: "@,
        parts[17] == g[8],
        parts[18] == " USDT (ROE: "@,
        parts[19] == g[9],
        parts[20] == "%)\n"@,
{
    let parts = seq![
        "- Position #"@,
        g[0],
        ": "@,
        g[1],
        " | Box: "@,
        g[2],
        " | Entry: "@,
        g[3],
        " USDT | Margin: "@,
        g[4],
        " USDT | Size: "@,
        g[5],
        " BTC | Liq: "@,
        g[6],
        " USDT | SL: "@,
        g[7],
        " | Floating PnL: "@,
        g[8],
        " USDT (ROE: "@,
        g[9],
        "%)\n"@,
    ];
    reveal_with_fuel(text::row, 22);
    parts
}

proof fn lemma_position_shows(g: Seq<Seq<char>>)
    ensures
        text::shows(position_of(g), "- Position #"@, g[0], ": "@),
        text::shows(position_of(g), ": "@, g[1], " | Box: "@),
        text::shows(position_of(g), " | Box: "@, g[2], " | Entry: "@),
        text::shows(position_of(g), " | Entry: "@, g[3], " USDT | Margin: "@),
        text::shows(position_of(g), " USDT | Margin: "@, g[4], " USDT | Size: "@),
        text::shows(position_of(g), " USDT | Size: "@, g[5], " BTC | Liq: "@),
        text::shows(position_of(g), " BTC | Liq: "@, g[6], " USDT | SL: "@),
        text::shows(position_of(g), " USDT | SL: "@, g[7], " | Floating PnL: "@),
        text::shows(position_of(g), " | Floating PnL: "@, g[8], " USDT (ROE: "@),
        text::shows(position_of(g), " USDT (ROE: "@, g[9], "%)\n"@),
{
    let parts = lemma_position_parts(g);
    text::lemma_row_shows(parts, 21, 0);
    text::lemma_row_shows(parts, 21, 2);
    text::lemma_row_shows(parts, 21, 4);
    text::lemma_row_shows(parts, 21, 6);
    text::lemma_row_shows(parts, 21, 8);
    text::lemma_row_shows(parts, 21, 10);
    text::lemma_row_shows(parts, 21, 12);
    text::lemma_row_shows(parts, 21, 14);
    text::lemma_row_shows(parts, 21, 16);
    text::lemma_row_shows(parts, 21, 18);
}

/// The line of an open position shows every figure behind its label.
#[verifier::rlimit(40)]
pub proof fn positions_show_their_figures(pos: Position, n: nat, price: Double)
    ensures
        ({
            let shown = prompts::position_line(pos, n, price);
            &&& text::shows(shown, "- Position #"@, decimal::numeral(n), ": "@)
            &&& text::shows(shown, ": "@, positions::direction_name(pos.position_type), " | Box: "@)
            &&& text::shows(shown, " | Box: "@, positions::box_name(pos.box_type), " | Entry: "@)
            &&& text::shows(shown, " | Entry: "@, decimal::fixed(pos.entry_price, 2), " USDT | Margin: "@)
            &&& text::shows(shown, " USDT | Margin: "@, decimal::fixed(pos.margin, 2), " USDT | Size: "@)
            &&& text::shows(shown, " USDT | Size: "@, decimal::fixed(pos.size_btc, 6), " BTC | Liq: "@)
            &&& text::shows(shown, " BTC | Liq: "@, decimal::fixed(pos.liquidation_price, 2), " USDT | SL: "@)
            &&& text::shows(shown, " USDT | SL: "@, positions::stop_text(pos.stop_loss), " | Floating PnL: "@)
            &&& text::shows(shown, " | Floating PnL: "@, decimal::fixed(pos.pnl(price), 2), " USDT (ROE: "@)
            &&& text::shows(shown, " USDT (ROE: "@, decimal::fixed(pos.roe(price), 2), "%)\n"@)
        }),
{
    let g = seq![
        decimal::numeral(n),
        positions::direction_name(pos.position_type),
        positions::box_name(pos.box_type),
        decimal::fixed(pos.entry_price, 2),
        decimal::fixed(pos.margin, 2),
        decimal::fixed(pos.size_btc, 6),
        decimal::fixed(pos.liquidation_price, 2),
        positions::stop_text(pos.stop_loss),
        decimal::fixed(pos.pnl(price), 2),
        decimal::fixed(pos.roe(price), 2),
    ];
    assert(prompts::position_line(pos, n, price) == position_of(g));
    lemma_position_shows(g);
}

spec fn question_of(g: Seq<Seq<char>>) -> Seq<char> {
    "DATA (Recent)\nCurrent BTC Price (Close): "@
        + g[0]
        + " USDT\nLast 20 candles history:\n"@
        + g[1]
        + "\nLiquidations in this simulation: "@
        + g[2]
        + "\n\nTECHNICAL INDICATORS\n"@
        + g[3]
        + "\n\nACCOUNT STATUS\nFree balance (not in margin): "@
        + g[4]
        + " USDT\nTotal Equity: "@
        + g[5]
        + " USDT\nLeverage: "@
        + g[6]
        + "x\nRisk parameters: Max % risk per trade: "@
        + g[7]
        + "%\nDirectional Accuracy Score: "@
        + g[8]
        + "\nActive Positions & Pending Orders (SL):\n"@
        + g[9]
        + "\nRecent trades history (Realized PnLs of closed trades):\n"@
        + g[10]
        + "\n\nWhat action do you take? Respond strictly in JSON format"@
}

proof fn lemma_question_parts(g: Seq<Seq<char>>) -> (parts: Seq<Seq<char>>)
    ensures
        question_of(g) == text::row(parts, 23),
        parts.len() == 23,
        parts[0] == "DATA (Recent)\nCurrent BTC Price (Close): "@,
        parts[1] == g[0],
        parts[2] == " USDT\nLast 20 candles history:\n"@,
        parts[3] == g[1],
        parts[4] == "\nLiquidations in this simulation: "@,
        parts[5] == g[2],
        parts[6] == "\n\nTECHNICAL INDICATORS\n"@,
        parts[7] == g[3],
        parts[8] == "\n\nACCOUNT STATUS\nFree balance (not in margin): "@,
        parts[9] == g[4],
        parts[10] == " USDT\nTotal Equity: "@,
        parts[11] == g[5],
        parts[12] == " USDT\nLeverage: "@,
        parts[13] == g[6],
        parts[14] == "x\nRisk parameters: Max % risk per trade: "@,
        parts[15] == g[7],
        parts[16] == "%\nDirectional Accuracy Score: "@,
        parts[17] == g[8],
        parts[18] == "\nActive Positions & Pending Orders (SL):\n"@,
        parts[19] == g[9],
        parts[20] == "\nRecent trades history (Realized PnLs of closed trades):\n"@,
        parts[21] == g[10],
        parts[22] == "\n\nWhat action do you take? Respond strictly in JSON format"@,
{
    let parts = seq![
        "DATA (Recent)\nCurrent BTC Price (Close): "@,
        g[0],
        " USDT\nLast 20 candles history:\n"@,
        g[1],
        "\nLiquidations in this simulation: "@,
        g[2],
        "\n\nTECHNICAL INDICATORS\n"@,
        g[3],
        "\n\nACCOUNT STATUS\nFree balance (not in margin): "@,
        g[4],
        " USDT\nTotal Equity: "@,
        g[5],
        " USDT\nLeverage: "@,
        g[6],
        "x\nRisk parameters: Max % risk per trade: "@,
        g[7],
        "%\nDirectional Accuracy Score: "@,
        g[8],
        "\nActive Positions & Pending Orders (SL):\n"@,
        g[9],
        "\nRecent trades history (Realized PnLs of closed trades):\n"@,
        g[10],
        "\n\nWhat action do you take? Respond strictly in JSON format"@,
    ];
    reveal_with_fuel(text::row, 24);
    parts
}

proof fn lemma_question_shows(g: Seq<Seq<char>>)
    ensures
        text::shows(question_of(g), "DATA (Recent)\nCurrent BTC Price (Close): "@, g[0], " USDT\nLast 20 candles history:\n"@),
        text::shows(question_of(g), " USDT\nLast 20 candles history:\n"@, g[1], "\nLiquidations in this simulation: "@),
        text::shows(question_of(g), "\nLiquidations in this simulation: "@, g[2], "\n\nTECHNICAL INDICATORS\n"@),
        text::shows(question_of(g), "\n\nTECHNICAL INDICATORS\n"@, g[3], "\n\nACCOUNT STATUS\nFree balance (not in margin): "@),
        text::shows(question_of(g), "\n\nACCOUNT STATUS\nFree balance (not in margin): "@, g[4], " USDT\nTotal Equity: "@),
        text::shows(question_of(g), " USDT\nTotal Equity: "@, g[5], " USDT\nLeverage: "@),
        text::shows(question_of(g), " USDT\nLeverage: "@, g[6], "x\nRisk parameters: Max % risk per trade: "@),
        text::shows(question_of(g), "x\nRisk parameters: Max % risk per trade: "@, g[7], "%\nDirectional Accuracy Score: "@),
        text::shows(question_of(g), "%\nDirectional Accuracy Score: "@, g[8], "\nActive Positions & Pending Orders (SL):\n"@),
        text::shows(question_of(g), "\nActive Positions & Pending Orders (SL):\n"@, g[9], "\nRecent trades history (Realized PnLs of closed trades):\n"@),
        text::shows(question_of(g), "\nRecent trades history (Realized PnLs of closed trades):\n"@, g[10], "\n\nWhat action do you take? Respond strictly in JSON format"@),
{
    let parts = lemma_question_parts(g);
    text::lemma_row_shows(parts, 23, 0);
    text::lemma_row_shows(parts, 23, 2);
    text::lemma_row_shows(parts, 23, 4);
    text::lemma_row_shows(parts, 23, 6);
    text::lemma_row_shows(parts, 23, 8);
    text::lemma_row_shows(parts, 23, 10);
    text::lemma_row_shows(parts, 23, 12);
    text::lemma_row_shows(parts, 23, 14);
    text::lemma_row_shows(parts, 23, 16);
    text::lemma_row_shows(parts, 23, 18);
    text::lemma_row_shows(parts, 23, 20);
}

/// The question of a simulated step shows the market and the account, each behind its label.
#[verifier::rlimit(40)]
pub proof fn questions_show_the_account(s: Simulation, candles: Seq<Candle>, i: int, equity: Double, risk: Seq<char>, recent: Seq<char>)
    ensures
        ({
            let shown = s.question(candles, i, equity, risk, recent);
            &&& text::shows(shown, "DATA (Recent)\nCurrent BTC Price (Close): "@, decimal::fixed(candles[i].close, 2), " USDT\nLast 20 candles history:\n"@)
            &&& text::shows(shown, " USDT\nLast 20 candles history:\n"@, prompts::history_upto(candles, i, None, s.trades(), i + 1), "\nLiquidations in this simulation: "@)
            &&& text::shows(shown, "\nLiquidations in this simulation: "@, decimal::numeral(s.ledger@.liquidaciones as nat), "\n\nTECHNICAL INDICATORS\n"@)
            &&& text::shows(shown, "\n\nTECHNICAL INDICATORS\n"@, prompts::progression_upto(candles, i, None, s.trades(), i + 1), "\n\nACCOUNT STATUS\nFree balance (not in margin): "@)
            &&& text::shows(shown, "\n\nACCOUNT STATUS\nFree balance (not in margin): "@, decimal::fixed(s.ledger@.saldo, 2), " USDT\nTotal Equity: "@)
            &&& text::shows(shown, " USDT\nTotal Equity: "@, decimal::fixed(equity, 2), " USDT\nLeverage: "@)
            &&& text::shows(shown, " USDT\nLeverage: "@, decimal::fixed(s.rules.leverage, 1), "x\nRisk parameters: Max % risk per trade: "@)
            &&& text::shows(shown, "x\nRisk parameters: Max % risk per trade: "@, risk, "%\nDirectional Accuracy Score: "@)
            &&& text::shows(shown, "%\nDirectional Accuracy Score: "@, decimal::signed_numeral(s.ledger@.score), "\nActive Positions & Pending Orders (SL):\n"@)
            &&& text::shows(shown, "\nActive Positions & Pending Orders (SL):\n"@, prompts::position_report(s.ledger@.positions, candles[i].close), "\nRecent trades history (Realized PnLs of closed trades):\n"@)
            &&& text::shows(shown, "\nRecent trades history (Realized PnLs of closed trades):\n"@, recent, "\n\nWhat action do you take? Respond strictly in JSON format"@)
        }),
{
    let g = seq![
        decimal::fixed(candles[i].close, 2),
        prompts::history_upto(candles, i, None, s.trades(), i + 1),
        decimal::numeral(s.ledger@.liquidaciones as nat),
        prompts::progression_upto(candles, i, None, s.trades(), i + 1),
        decimal::fixed(s.ledger@.saldo, 2),
        decimal::fixed(equity, 2),
        decimal::fixed(s.rules.leverage, 1),
        risk,
        decimal::signed_numeral(s.ledger@.score),
        prompts::position_report(s.ledger@.positions, candles[i].close),
        recent,
    ];
    assert(s.question(candles, i, equity, risk, recent) == question_of(g));
    lemma_question_shows(g);
}

spec fn status_of(g: Seq<Seq<char>>) -> Seq<char> {
    "\nPaso "@
        + g[0]
        + "/"@
        + g[1]
        + " - "@
        + g[2]
        + "\nPrecio Actual: "@
        + g[3]
        + " USDT\nBuy & Hold ($10k): "@
        + g[4]
        + " USDT\n\nStatus:\nEquity: "@
        + g[5]
        + " USDT\nSaldo: "@
        + g[6]
        + " USDT\nMargen Total: "@
        + g[7]
        + " USDT\nPosiciones Activas: "@
        + g[8]
        + "\nPnL Flotante: "@
        + g[9]
        + " USDT\n\nPosition:\n"@
        + g[10]
}

proof fn lemma_status_parts(g: Seq<Seq<char>>) -> (parts: Seq<Seq<char>>)
    ensures
        status_of(g) == text::row(parts, 22),
        parts.len() == 22,
        parts[0] == "\nPaso "@,
        parts[1] == g[0],
        parts[2] == "/"@,
        parts[3] == g[1],
        parts[4] == " - "@,
        parts[5] == g[2],
        parts[6] == "\nPrecio Actual: "@,
        parts[7] == g[3],
        parts[8] == " USDT\nBuy & Hold ($10k): "@,
        parts[9] == g[4],
        parts[10] == " USDT\n\nStatus:\nEquity: "@,
        parts[11] == g[5],
        parts[12] == " USDT\nSaldo: "@,
        parts[13] == g[6],
        parts[14] == " USDT\nMargen Total: "@,
        parts[15] == g[7],
        parts[16] == " USDT\nPosiciones Activas: "@,
        parts[17] == g[8],
        parts[18] == "\nPnL Flotante: "@,
        parts[19] == g[9],
        parts[20] == " USDT\n\nPosition:\n"@,
        parts[21] == g[10],
{
    let parts = seq![
        "\nPaso "@,
        g[0],
        "/"@,
        g[1],
        " - "@,
        g[2],
        "\nPrecio Actual: "@,
        g[3],
        " USDT\nBuy & Hold ($10k): "@,
        g[4],
        " USDT\n\nStatus:\nEquity: "@,
        g[5],
        " USDT\nSaldo: "@,
        g[6],
        " USDT\nMargen Total: "@,
        g[7],
        " USDT\nPosiciones Activas: "@,
        g[8],
        "\nPnL Flotante: "@,
        g[9],
        " USDT\n\nPosition:\n"@,
        g[10],
    ];
    reveal_with_fuel(text::row, 23);
    parts
}

proof fn lemma_status_shows(g: Seq<Seq<char>>)
    ensures
        text::shows(status_of(g), "\nPaso "@, g[0], "/"@),
        text::shows(status_of(g), "/"@, g[1], " - "@),
        text::shows(status_of(g), " - "@, g[2], "\nPrecio Actual: "@),
        text::shows(status_of(g), "\nPrecio Actual: "@, g[3], " USDT\nBuy & Hold ($10k): "@),
        text::shows(status_of(g), " USDT\nBuy & Hold ($10k): "@, g[4], " USDT\n\nStatus:\nEquity: "@),
        text::shows(status_of(g), " USDT\n\nStatus:\nEquity: "@, g[5], " USDT\nSaldo: "@),
        text::shows(status_of(g), " USDT\nSaldo: "@, g[6], " USDT\nMargen Total: "@),
        text::shows(status_of(g), " USDT\nMargen Total: "@, g[7], " USDT\nPosiciones Activas: "@),
        text::shows(status_of(g), " USDT\nPosiciones Activas: "@, g[8], "\nPnL Flotante: "@),
        text::shows(status_of(g), "\nPnL Flotante: "@, g[9], " USDT\n\nPosition:\n"@),
        text::ends_in(status_of(g), " USDT\n\nPosition:\n"@ + g[10]),
{
    let parts = lemma_status_parts(g);
    text::lemma_row_shows(parts, 22, 0);
    text::lemma_row_shows(parts, 22, 2);
    text::lemma_row_shows(parts, 22, 4);
    text::lemma_row_shows(parts, 22, 6);
    text::lemma_row_shows(parts, 22, 8);
    text::lemma_row_shows(parts, 22, 10);
    text::lemma_row_shows(parts, 22, 12);
    text::lemma_row_shows(parts, 22, 14);
    text::lemma_row_shows(parts, 22, 16);
    text::lemma_row_shows(parts, 22, 18);
    let before = text::row(parts, 20);
    assert(status_of(g) =~= before + (" USDT\n\nPosition:\n"@ + g[10])) by {
        reveal_with_fuel(text::row, 3);
    }
    text::lemma_ends(before, " USDT\n\nPosition:\n"@ + g[10]);
}

/// The report of a step shows its place, the prices and the account, each behind its label.
#[verifier::rlimit(40)]
pub proof fn statuses_show_the_step(s: Simulation, candles: Seq<Candle>, i: int, time: Seq<char>, worth: Worth)
    ensures
        ({
            let shown = s.status(candles, i, time, worth);
            &&& text::shows(shown, "\nPaso "@, decimal::numeral((i - s.start) as nat), "/"@)
            &&& text::shows(shown, "/"@, decimal::numeral((candles.len() - s.start) as nat), " - "@)
            &&& text::shows(shown, " - "@, text::replaced(time, ' ', " - "@, time.len()), "\nPrecio Actual: "@)
            &&& text::shows(shown, "\nPrecio Actual: "@, decimal::fixed(candles[i].close, 2), " USDT\nBuy & Hold ($10k): "@)
            &&& text::shows(shown, " USDT\nBuy & Hold ($10k): "@, decimal::fixed(s.held(candles[i].close), 2), " USDT\n\nStatus:\nEquity: "@)
            &&& text::shows(shown, " USDT\n\nStatus:\nEquity: "@, decimal::fixed(worth.equity, 2), " USDT\nSaldo: "@)
            &&& text::shows(shown, " USDT\nSaldo: "@, decimal::fixed(s.ledger@.saldo, 2), " USDT\nMargen Total: "@)
            &&& text::shows(shown, " USDT\nMargen Total: "@, decimal::fixed(worth.margins, 2), " USDT\nPosiciones Activas: "@)
            &&& text::shows(shown, " USDT\nPosiciones Activas: "@, decimal::numeral(s.ledger@.positions.len()), "\nPnL Flotante: "@)
            &&& text::shows(shown, "\nPnL Flotante: "@, decimal::fixed(worth.floating, 2), " USDT\n\nPosition:\n"@)
            &&& text::ends_in(shown, " USDT\n\nPosition:\n"@ + (if s.ledger@.entries.len() == 0 {
                "No active positions."@
            } else {
                text::joined(s.ledger@.entries, "\n\n"@)
            }))
        }),
{
    let g = seq![
        decimal::numeral((i - s.start) as nat),
        decimal::numeral((candles.len() - s.start) as nat),
        text::replaced(time, ' ', " - "@, time.len()),
        decimal::fixed(candles[i].close, 2),
        decimal::fixed(s.held(candles[i].close), 2),
        decimal::fixed(worth.equity, 2),
        decimal::fixed(s.ledger@.saldo, 2),
        decimal::fixed(worth.margins, 2),
        decimal::numeral(s.ledger@.positions.len()),
        decimal::fixed(worth.floating, 2),
        (if s.ledger@.entries.len() == 0 {
                "No active positions."@
            } else {
                text::joined(s.ledger@.entries, "\n\n"@)
            }),
    ];
    assert(s.status(candles, i, time, worth) == status_of(g));
    lemma_status_shows(g);
}

spec fn live_of(g: Seq<Seq<char>>) -> Seq<char> {
    "DATA (Recent)\nCurrent BTC Price (Close): "@
        + g[0]
        + " USDT\nLast 20 candles history:\n"@
        + g[1]
        + "\n\nTECHNICAL INDICATORS\n"@
        + g[2]
        + "\n\nACCOUNT STATUS\nFree balance (not in margin): "@
        + g[3]
        + " USDT\nTotal Equity: "@
        + g[4]
        + " USDT\nLeverage: "@
        + g[5]
        + "x\nRisk parameters: Max % risk per trade: 10%\nActive position: "@
        + g[6]
        + "\nPosition Margin: "@
        + g[7]
        + " USDT (Isolated Mode)\nPosition size: "@
        + g[8]
        + " BTC ($"@
        + g[9]
        + ")\nEntry price: "@
        + g[10]
        + " USDT\nLiquidation price: "@
        + g[11]
        + " USDT (If it moves "@
        + g[12]
        + "% against)\nFloating PnL: "@
        + g[13]
        + " USDT\nWhat action do you take? Respond strictly in JSON format"@
}

proof fn lemma_live_parts(g: Seq<Seq<char>>) -> (parts: Seq<Seq<char>>)
    ensures
        live_of(g) == text::row(parts, 29),
        parts.len() == 29,
        parts[0] == "DATA (Recent)\nCurrent BTC Price (Close): "@,
        parts[1] == g[0],
        parts[2] == " USDT\nLast 20 candles history:\n"@,
        parts[3] == g[1],
        parts[4] == "\n\nTECHNICAL INDICATORS\n"@,
        parts[5] == g[2],
        parts[6] == "\n\nACCOUNT STATUS\nFree balance (not in margin): "@,
        parts[7] == g[3],
        parts[8] == " USDT\nTotal Equity: "@,
        parts[9] == g[4],
        parts[10] == " USDT\nLeverage: "@,
        parts[11] == g[5],
        parts[12] == "x\nRisk parameters: Max % risk per trade: 10%\nActive position: "@,
        parts[13] == g[6],
        parts[14] == "\nPosition Margin: "@,
        parts[15] == g[7],
        parts[16] == " USDT (Isolated Mode)\nPosition size: "@,
        parts[17] == g[8],
        parts[18] == " BTC ($"@,
        parts[19] == g[9],
        parts[20] == ")\nEntry price: "@,
        parts[21] == g[10],
        parts[22] == " USDT\nLiquidation price: "@,
        parts[23] == g[11],
        parts[24] == " USDT (If it moves "@,
        parts[25] == g[12],
        parts[26] == "% against)\nFloating PnL: "@,
        parts[27] == g[13],
        parts[28] == " USDT\nWhat action do you take? Respond strictly in JSON format"@,
{
    let parts = seq![
        "DATA (Recent)\nCurrent BTC Price (Close): "@,
        g[0],
        " USDT\nLast 20 candles history:\n"@,
        g[1],
        "\n\nTECHNICAL INDICATORS\n"@,
        g[2],
        "\n\nACCOUNT STATUS\nFree balance (not in margin): "@,
        g[3],
        " USDT\nTotal Equity: "@,
        g[4],
        " USDT\nLeverage: "@,
        g[5],
        "x\nRisk parameters: Max % risk per trade: 10%\nActive position: "@,
        g[6],
        "\nPosition Margin: "@,
        g[7],
        " USDT (Isolated Mode)\nPosition size: "@,
        g[8],
        " BTC ($"@,
        g[9],
        ")\nEntry price: "@,
        g[10],
        " USDT\nLiquidation price: "@,
        g[11],
        " USDT (If it moves "@,
        g[12],
        "% against)\nFloating PnL: "@,
        g[13],
        " USDT\nWhat action do you take? Respond strictly in JSON format"@,
    ];
    reveal_with_fuel(text::row, 30);
    parts
}

proof fn lemma_live_shows(g: Seq<Seq<char>>)
    ensures
        text::shows(live_of(g), "DATA (Recent)\nCurrent BTC Price (Close): "@, g[0], " USDT\nLast 20 candles history:\n"@),
        text::shows(live_of(g), " USDT\nLast 20 candles history:\n"@, g[1], "\n\nTECHNICAL INDICATORS\n"@),
        text::shows(live_of(g), "\n\nTECHNICAL INDICATORS\n"@, g[2], "\n\nACCOUNT STATUS\nFree balance (not in margin): "@),
        text::shows(live_of(g), "\n\nACCOUNT STATUS\nFree balance (not in margin): "@, g[3], " USDT\nTotal Equity: "@),
        text::shows(live_of(g), " USDT\nTotal Equity: "@, g[4], " USDT\nLeverage: "@),
        text::shows(live_of(g), " USDT\nLeverage: "@, g[5], "x\nRisk parameters: Max % risk per trade: 10%\nActive position: "@),
        text::shows(live_of(g), "x\nRisk parameters: Max % risk per trade: 10%\nActive position: "@, g[6], "\nPosition Margin: "@),
        text::shows(live_of(g), "\nPosition Margin: "@, g[7], " USDT (Isolated Mode)\nPosition size: "@),
        text::shows(live_of(g), " USDT (Isolated Mode)\nPosition size: "@, g[8], " BTC ($"@),
        text::shows(live_of(g), " BTC ($"@, g[9], ")\nEntry price: "@),
        text::shows(live_of(g), ")\nEntry price: "@, g[10], " USDT\nLiquidation price: "@),
        text::shows(live_of(g), " USDT\nLiquidation price: "@, g[11], " USDT (If it moves "@),
        text::shows(live_of(g), " USDT (If it moves "@, g[12], "% against)\nFloating PnL: "@),
        text::shows(live_of(g), "% against)\nFloating PnL: "@, g[13], " USDT\nWhat action do you take? Respond strictly in JSON format"@),
{
    let parts = lemma_live_parts(g);
    text::lemma_row_shows(parts, 29, 0);
    text::lemma_row_shows(parts, 29, 2);
    text::lemma_row_shows(parts, 29, 4);
    text::lemma_row_shows(parts, 29, 6);
    text::lemma_row_shows(parts, 29, 8);
    text::lemma_row_shows(parts, 29, 10);
    text::lemma_row_shows(parts, 29, 12);
    text::lemma_row_shows(parts, 29, 14);
    text::lemma_row_shows(parts, 29, 16);
    text::lemma_row_shows(parts, 29, 18);
    text::lemma_row_shows(parts, 29, 20);
    text::lemma_row_shows(parts, 29, 22);
    text::lemma_row_shows(parts, 29, 24);
    text::lemma_row_shows(parts, 29, 26);
}

/// The question of live trading shows the market, the account and the open position, each behind its label.
#[verifier::rlimit(40)]
pub proof fn live_questions_show_the_account(candles: Seq<Candle>, price: Double, available: Double, leverage: u32, pos: LivePosition)
    ensures
        ({
            let shown = live::question(candles, price, available, leverage, pos);
            &&& text::shows(shown, "DATA (Recent)\nCurrent BTC Price (Close): "@, decimal::fixed(price, 2), " USDT\nLast 20 candles history:\n"@)
            &&& text::shows(shown, " USDT\nLast 20 candles history:\n"@, prompts::history_upto(candles, candles.len() - 1, Some(price), TradeRecord::none(), candles.len() as int), "\n\nTECHNICAL INDICATORS\n"@)
            &&& text::shows(shown, "\n\nTECHNICAL INDICATORS\n"@, prompts::progression_upto(candles, candles.len() - 1, Some(price), TradeRecord::none(), candles.len() as int), "\n\nACCOUNT STATUS\nFree balance (not in margin): "@)
            &&& text::shows(shown, "\n\nACCOUNT STATUS\nFree balance (not in margin): "@, decimal::fixed(available, 2), " USDT\nTotal Equity: "@)
            &&& text::shows(shown, " USDT\nTotal Equity: "@, decimal::fixed(pos.worth(available), 2), " USDT\nLeverage: "@)
            &&& text::shows(shown, " USDT\nLeverage: "@, decimal::fixed(Double::of(leverage as int), 1), "x\nRisk parameters: Max % risk per trade: 10%\nActive position: "@)
            &&& text::shows(shown, "x\nRisk parameters: Max % risk per trade: 10%\nActive position: "@, positions::direction_name(pos.position_type), "\nPosition Margin: "@)
            &&& text::shows(shown, "\nPosition Margin: "@, decimal::fixed(pos.margin, 2), " USDT (Isolated Mode)\nPosition size: "@)
            &&& text::shows(shown, " USDT (Isolated Mode)\nPosition size: "@, decimal::fixed(pos.size_btc, 6), " BTC ($"@)
            &&& text::shows(shown, " BTC ($"@, decimal::fixed(pos.size_btc.times(price), 2), ")\nEntry price: "@)
            &&& text::shows(shown, ")\nEntry price: "@, decimal::fixed(pos.entry_price, 2), " USDT\nLiquidation price: "@)
            &&& text::shows(shown, " USDT\nLiquidation price: "@, decimal::fixed(backtest::liquidation_price(pos.position_type, pos.entry_price, backtest::liquidation_percentage(Double::of(leverage as int))), 2), " USDT (If it moves "@)
            &&& text::shows(shown, " USDT (If it moves "@, decimal::fixed(backtest::liquidation_percentage(Double::of(leverage as int)), 3), "% against)\nFloating PnL: "@)
            &&& text::shows(shown, "% against)\nFloating PnL: "@, decimal::fixed(pos.floating_pnl, 2), " USDT\nWhat action do you take? Respond strictly in JSON format"@)
        }),
{
    let g = seq![
        decimal::fixed(price, 2),
        prompts::history_upto(candles, candles.len() - 1, Some(price), TradeRecord::none(), candles.len() as int),
        prompts::progression_upto(candles, candles.len() - 1, Some(price), TradeRecord::none(), candles.len() as int),
        decimal::fixed(available, 2),
        decimal::fixed(pos.worth(available), 2),
        decimal::fixed(Double::of(leverage as int), 1),
        positions::direction_name(pos.position_type),
        decimal::fixed(pos.margin, 2),
        decimal::fixed(pos.size_btc, 6),
        decimal::fixed(pos.size_btc.times(price), 2),
        decimal::fixed(pos.entry_price, 2),
        decimal::fixed(backtest::liquidation_price(pos.position_type, pos.entry_price, backtest::liquidation_percentage(Double::of(leverage as int))), 2),
        decimal::fixed(backtest::liquidation_percentage(Double::of(leverage as int)), 3),
        decimal::fixed(pos.floating_pnl, 2),
    ];
    assert(live::question(candles, price, available, leverage, pos) == live_of(g));
    lemma_live_shows(g);
}

spec fn report_of(g: Seq<Seq<char>>) -> Seq<char> {
    "• Lado: "@
        + g[0]
        + " | Cantidad: "@
        + g[1]
        + " | Entrada: $"@
        + g[2]
        + " | PnL No Realizado: $"@
        + g[3]
        + " | Apalancamiento: "@
        + g[4]
        + "x"@
}

proof fn lemma_report_parts(g: Seq<Seq<char>>) -> (parts: Seq<Seq<char>>)
    ensures
        report_of(g) == text::row(parts, 11),
        parts.len() == 11,
        parts[0] == "• Lado: "@,
        parts[1] == g[0],
        parts[2] == " | Cantidad: "@,
        parts[3] == g[1],
        parts[4] == " | Entrada: $"@,
        parts[5] == g[2],
        parts[6] == " | PnL No Realizado: $"@,
        parts[7] == g[3],
        parts[8] == " | Apalancamiento: "@,
        parts[9] == g[4],
        parts[10] == "x"@,
{
    let parts = seq![
        "• Lado: "@,
        g[0],
        " | Cantidad: "@,
        g[1],
        " | Entrada: $"@,
        g[2],
        " | PnL No Realizado: $"@,
        g[3],
        " | Apalancamiento: "@,
        g[4],
        "x"@,
    ];
    reveal_with_fuel(text::row, 12);
    parts
}

proof fn lemma_report_shows(g: Seq<Seq<char>>)
    ensures
        text::shows(report_of(g), "• Lado: "@, g[0], " | Cantidad: "@),
        text::shows(report_of(g), " | Cantidad: "@, g[1], " | Entrada: $"@),
        text::shows(report_of(g), " | Entrada: $"@, g[2], " | PnL No Realizado: $"@),
        text::shows(report_of(g), " | PnL No Realizado: $"@, g[3], " | Apalancamiento: "@),
        text::shows(report_of(g), " | Apalancamiento: "@, g[4], "x"@),
{
    let parts = lemma_report_parts(g);
    text::lemma_row_shows(parts, 11, 0);
    text::lemma_row_shows(parts, 11, 2);
    text::lemma_row_shows(parts, 11, 4);
    text::lemma_row_shows(parts, 11, 6);
    text::lemma_row_shows(parts, 11, 8);
}

/// The line of a position at the exchange shows what is reported behind each label.
#[verifier::rlimit(40)]
pub proof fn reported_positions_show_their_words(r: Report)
    ensures
        ({
            let shown = r.line();
            &&& text::shows(shown, "• Lado: "@, r.side, " | Cantidad: "@)
            &&& text::shows(shown, " | Cantidad: "@, decimal::fixed(bingx_answers::number_or(r.amount, Double::zero()), 4), " | Entrada: $"@)
            &&& text::shows(shown, " | Entrada: $"@, r.entry_price, " | PnL No Realizado: $"@)
            &&& text::shows(shown, " | PnL No Realizado: $"@, r.unrealized_profit, " | Apalancamiento: "@)
            &&& text::shows(shown, " | Apalancamiento: "@, r.leverage, "x"@)
        }),
{
    let g = seq![
        r.side,
        decimal::fixed(bingx_answers::number_or(r.amount, Double::zero()), 4),
        r.entry_price,
        r.unrealized_profit,
        r.leverage,
    ];
    assert(r.line() == report_of(g));
    lemma_report_shows(g);
}

spec fn page_of(g: Seq<Seq<char>>) -> Seq<char> {
    dashboard::HEAD@
        + g[0]
        + dashboard::TO_FINAL_BALANCE@
        + g[1]
        + dashboard::TO_ROI_COLOR@
        + g[2]
        + dashboard::TO_ROI@
        + g[3]
        + dashboard::TO_SHARPE@
        + g[4]
        + dashboard::TO_RECOVERY@
        + g[5]
        + dashboard::TO_CORRELATION@
        + g[6]
        + dashboard::TO_DRAWDOWN@
        + g[7]
        + dashboard::TO_TRADES@
        + g[8]
        + dashboard::TO_BUYS@
        + g[9]
        + dashboard::TO_SELLS@
        + g[10]
        + dashboard::TO_WINRATE@
        + g[11]
        + dashboard::TO_PROFIT_FACTOR@
        + g[12]
        + dashboard::TO_LIQUIDATION_COLOR@
        + g[13]
        + dashboard::TO_LIQUIDATIONS@
        + g[14]
        + dashboard::TO_STAGNATION@
        + g[15]
        + dashboard::TO_AVERAGE@
        + g[16]
        + dashboard::TO_LABELS@
        + g[17]
        + dashboard::TO_DATA@
        + g[18]
        + dashboard::TO_MARKET_DATA@
        + g[19]
        + dashboard::TAIL@
}

proof fn lemma_page_parts(g: Seq<Seq<char>>) -> (parts: Seq<Seq<char>>)
    ensures
        page_of(g) == text::row(parts, 41),
        parts.len() == 41,
        parts[0] == dashboard::HEAD@,
        parts[1] == g[0],
        parts[2] == dashboard::TO_FINAL_BALANCE@,
        parts[3] == g[1],
        parts[4] == dashboard::TO_ROI_COLOR@,
        parts[5] == g[2],
        parts[6] == dashboard::TO_ROI@,
        parts[7] == g[3],
        parts[8] == dashboard::TO_SHARPE@,
        parts[9] == g[4],
        parts[10] == dashboard::TO_RECOVERY@,
        parts[11] == g[5],
        parts[12] == dashboard::TO_CORRELATION@,
        parts[13] == g[6],
        parts[14] == dashboard::TO_DRAWDOWN@,
        parts[15] == g[7],
        parts[16] == dashboard::TO_TRADES@,
        parts[17] == g[8],
        parts[18] == dashboard::TO_BUYS@,
        parts[19] == g[9],
        parts[20] == dashboard::TO_SELLS@,
        parts[21] == g[10],
        parts[22] == dashboard::TO_WINRATE@,
        parts[23] == g[11],
        parts[24] == dashboard::TO_PROFIT_FACTOR@,
        parts[25] == g[12],
        parts[26] == dashboard::TO_LIQUIDATION_COLOR@,
        parts[27] == g[13],
        parts[28] == dashboard::TO_LIQUIDATIONS@,
        parts[29] == g[14],
        parts[30] == dashboard::TO_STAGNATION@,
        parts[31] == g[15],
        parts[32] == dashboard::TO_AVERAGE@,
        parts[33] == g[16],
        parts[34] == dashboard::TO_LABELS@,
        parts[35] == g[17],
        parts[36] == dashboard::TO_DATA@,
        parts[37] == g[18],
        parts[38] == dashboard::TO_MARKET_DATA@,
        parts[39] == g[19],
        parts[40] == dashboard::TAIL@,
{
    let parts = seq![
        dashboard::HEAD@,
        g[0],
        dashboard::TO_FINAL_BALANCE@,
        g[1],
        dashboard::TO_ROI_COLOR@,
        g[2],
        dashboard::TO_ROI@,
        g[3],
        dashboard::TO_SHARPE@,
        g[4],
        dashboard::TO_RECOVERY@,
        g[5],
        dashboard::TO_CORRELATION@,
        g[6],
        dashboard::TO_DRAWDOWN@,
        g[7],
        dashboard::TO_TRADES@,
        g[8],
        dashboard::TO_BUYS@,
        g[9],
        dashboard::TO_SELLS@,
        g[10],
        dashboard::TO_WINRATE@,
        g[11],
        dashboard::TO_PROFIT_FACTOR@,
        g[12],
        dashboard::TO_LIQUIDATION_COLOR@,
        g[13],
        dashboard::TO_LIQUIDATIONS@,
        g[14],
        dashboard::TO_STAGNATION@,
        g[15],
        dashboard::TO_AVERAGE@,
        g[16],
        dashboard::TO_LABELS@,
        g[17],
        dashboard::TO_DATA@,
        g[18],
        dashboard::TO_MARKET_DATA@,
        g[19],
        dashboard::TAIL@,
    ];
    reveal_with_fuel(text::row, 42);
    parts
}

proof fn lemma_page_shows(g: Seq<Seq<char>>)
    ensures
        text::shows(page_of(g), dashboard::HEAD@, g[0], dashboard::TO_FINAL_BALANCE@),
        text::shows(page_of(g), dashboard::TO_FINAL_BALANCE@, g[1], dashboard::TO_ROI_COLOR@),
        text::shows(page_of(g), dashboard::TO_ROI_COLOR@, g[2], dashboard::TO_ROI@),
        text::shows(page_of(g), dashboard::TO_ROI@, g[3], dashboard::TO_SHARPE@),
        text::shows(page_of(g), dashboard::TO_SHARPE@, g[4], dashboard::TO_RECOVERY@),
        text::shows(page_of(g), dashboard::TO_RECOVERY@, g[5], dashboard::TO_CORRELATION@),
        text::shows(page_of(g), dashboard::TO_CORRELATION@, g[6], dashboard::TO_DRAWDOWN@),
        text::shows(page_of(g), dashboard::TO_DRAWDOWN@, g[7], dashboard::TO_TRADES@),
        text::shows(page_of(g), dashboard::TO_TRADES@, g[8], dashboard::TO_BUYS@),
        text::shows(page_of(g), dashboard::TO_BUYS@, g[9], dashboard::TO_SELLS@),
        text::shows(page_of(g), dashboard::TO_SELLS@, g[10], dashboard::TO_WINRATE@),
        text::shows(page_of(g), dashboard::TO_WINRATE@, g[11], dashboard::TO_PROFIT_FACTOR@),
        text::shows(page_of(g), dashboard::TO_PROFIT_FACTOR@, g[12], dashboard::TO_LIQUIDATION_COLOR@),
        text::shows(page_of(g), dashboard::TO_LIQUIDATION_COLOR@, g[13], dashboard::TO_LIQUIDATIONS@),
        text::shows(page_of(g), dashboard::TO_LIQUIDATIONS@, g[14], dashboard::TO_STAGNATION@),
        text::shows(page_of(g), dashboard::TO_STAGNATION@, g[15], dashboard::TO_AVERAGE@),
        text::shows(page_of(g), dashboard::TO_AVERAGE@, g[16], dashboard::TO_LABELS@),
        text::shows(page_of(g), dashboard::TO_LABELS@, g[17], dashboard::TO_DATA@),
        text::shows(page_of(g), dashboard::TO_DATA@, g[18], dashboard::TO_MARKET_DATA@),
        text::shows(page_of(g), dashboard::TO_MARKET_DATA@, g[19], dashboard::TAIL@),
{
    let parts = lemma_page_parts(g);
    text::lemma_row_shows(parts, 41, 0);
    text::lemma_row_shows(parts, 41, 2);
    text::lemma_row_shows(parts, 41, 4);
    text::lemma_row_shows(parts, 41, 6);
    text::lemma_row_shows(parts, 41, 8);
    text::lemma_row_shows(parts, 41, 10);
    text::lemma_row_shows(parts, 41, 12);
    text::lemma_row_shows(parts, 41, 14);
    text::lemma_row_shows(parts, 41, 16);
    text::lemma_row_shows(parts, 41, 18);
    text::lemma_row_shows(parts, 41, 20);
    text::lemma_row_shows(parts, 41, 22);
    text::lemma_row_shows(parts, 41, 24);
    text::lemma_row_shows(parts, 41, 26);
    text::lemma_row_shows(parts, 41, 28);
    text::lemma_row_shows(parts, 41, 30);
    text::lemma_row_shows(parts, 41, 32);
    text::lemma_row_shows(parts, 41, 34);
    text::lemma_row_shows(parts, 41, 36);
    text::lemma_row_shows(parts, 41, 38);
}

/// The page of a simulation shows every figure at its own place.
#[verifier::rlimit(40)]
pub proof fn pages_show_their_figures(curve: Seq<CurvePoint>, num_compras: u128, num_ventas: u128, num_liquidaciones: u128, figures: AdvancedMetrics, times: Seq<char>, data: Seq<char>, market_data: Seq<char>)
    ensures
        ({
            let shown = dashboard::page(curve, num_compras, num_ventas, num_liquidaciones, figures, times, data, market_data);
            &&& text::shows(shown, dashboard::HEAD@, decimal::fixed(dashboard::balances(curve).0, 2), dashboard::TO_FINAL_BALANCE@)
            &&& text::shows(shown, dashboard::TO_FINAL_BALANCE@, decimal::fixed(dashboard::balances(curve).1, 2), dashboard::TO_ROI_COLOR@)
            &&& text::shows(shown, dashboard::TO_ROI_COLOR@, dashboard::roi_color(dashboard::roi(dashboard::balances(curve).0, dashboard::balances(curve).1)), dashboard::TO_ROI@)
            &&& text::shows(shown, dashboard::TO_ROI@, decimal::fixed_signed(dashboard::roi(dashboard::balances(curve).0, dashboard::balances(curve).1), 2), dashboard::TO_SHARPE@)
            &&& text::shows(shown, dashboard::TO_SHARPE@, decimal::fixed(figures.sortino_ratio, 2), dashboard::TO_RECOVERY@)
            &&& text::shows(shown, dashboard::TO_RECOVERY@, decimal::fixed(figures.recovery_factor, 2), dashboard::TO_CORRELATION@)
            &&& text::shows(shown, dashboard::TO_CORRELATION@, decimal::fixed_signed(figures.correlation, 4), dashboard::TO_DRAWDOWN@)
            &&& text::shows(shown, dashboard::TO_DRAWDOWN@, decimal::fixed(figures.max_drawdown.times(Double::of(100)), 2), dashboard::TO_TRADES@)
            &&& text::shows(shown, dashboard::TO_TRADES@, decimal::numeral((num_compras + num_ventas) as nat), dashboard::TO_BUYS@)
            &&& text::shows(shown, dashboard::TO_BUYS@, decimal::numeral(num_compras as nat), dashboard::TO_SELLS@)
            &&& text::shows(shown, dashboard::TO_SELLS@, decimal::numeral(num_ventas as nat), dashboard::TO_WINRATE@)
            &&& text::shows(shown, dashboard::TO_WINRATE@, decimal::fixed(figures.winrate, 2), dashboard::TO_PROFIT_FACTOR@)
            &&& text::shows(shown, dashboard::TO_PROFIT_FACTOR@, decimal::fixed(figures.profit_factor, 2), dashboard::TO_LIQUIDATION_COLOR@)
            &&& text::shows(shown, dashboard::TO_LIQUIDATION_COLOR@, dashboard::liquidation_color(num_liquidaciones as nat), dashboard::TO_LIQUIDATIONS@)
            &&& text::shows(shown, dashboard::TO_LIQUIDATIONS@, decimal::numeral(num_liquidaciones as nat), dashboard::TO_STAGNATION@)
            &&& text::shows(shown, dashboard::TO_STAGNATION@, decimal::numeral(figures.max_stagnation as nat), dashboard::TO_AVERAGE@)
            &&& text::shows(shown, dashboard::TO_AVERAGE@, decimal::fixed(figures.avg_stagnation, 1), dashboard::TO_LABELS@)
            &&& text::shows(shown, dashboard::TO_LABELS@, times, dashboard::TO_DATA@)
            &&& text::shows(shown, dashboard::TO_DATA@, data, dashboard::TO_MARKET_DATA@)
            &&& text::shows(shown, dashboard::TO_MARKET_DATA@, market_data, dashboard::TAIL@)
        }),
{
    reveal(dashboard::page);
    let g = seq![
        decimal::fixed(dashboard::balances(curve).0, 2),
        decimal::fixed(dashboard::balances(curve).1, 2),
        dashboard::roi_color(dashboard::roi(dashboard::balances(curve).0, dashboard::balances(curve).1)),
        decimal::fixed_signed(dashboard::roi(dashboard::balances(curve).0, dashboard::balances(curve).1), 2),
        decimal::fixed(figures.sortino_ratio, 2),
        decimal::fixed(figures.recovery_factor, 2),
        decimal::fixed_signed(figures.correlation, 4),
        decimal::fixed(figures.max_drawdown.times(Double::of(100)), 2),
        decimal::numeral((num_compras + num_ventas) as nat),
        decimal::numeral(num_compras as nat),
        decimal::numeral(num_ventas as nat),
        decimal::fixed(figures.winrate, 2),
        decimal::fixed(figures.profit_factor, 2),
        dashboard::liquidation_color(num_liquidaciones as nat),
        decimal::numeral(num_liquidaciones as nat),
        decimal::numeral(figures.max_stagnation as nat),
        decimal::fixed(figures.avg_stagnation, 1),
        times,
        data,
        market_data,
    ];
    assert(dashboard::page(curve, num_compras, num_ventas, num_liquidaciones, figures, times, data, market_data) == page_of(g));
    lemma_page_shows(g);
}

spec fn signed_of(g: Seq<Seq<char>>) -> Seq<char> {
    g[0]
        + g[1]
        + "?"@
        + g[2]
        + "&signature="@
        + g[3]
}

proof fn lemma_signed_parts(g: Seq<Seq<char>>) -> (parts: Seq<Seq<char>>)
    ensures
        signed_of(g) == text::row(parts, 6),
        parts.len() == 6,
        parts[0] == g[0],
        parts[1] == g[1],
        parts[2] == "?"@,
        parts[3] == g[2],
        parts[4] == "&signature="@,
        parts[5] == g[3],
{
    let parts = seq![
        g[0],
        g[1],
        "?"@,
        g[2],
        "&signature="@,
        g[3],
    ];
    reveal_with_fuel(text::row, 7);
    parts
}

proof fn lemma_signed_shows(g: Seq<Seq<char>>)
    ensures
        text::shows(signed_of(g), "?"@, g[2], "&signature="@),
        text::ends_in(signed_of(g), "&signature="@ + g[3]),
{
    let parts = lemma_signed_parts(g);
    text::lemma_row_shows(parts, 6, 2);
    let before = text::row(parts, 4);
    assert(signed_of(g) =~= before + ("&signature="@ + g[3])) by {
        reveal_with_fuel(text::row, 3);
    }
    text::lemma_ends(before, "&signature="@ + g[3]);
}

/// A signed address carries its query between the question mark and the signature, which is that of this query.
#[verifier::rlimit(40)]
pub proof fn signed_addresses_carry_their_query(use_testnet: bool, path: Seq<char>, query: Seq<char>, secret: Seq<char>)
    ensures
        ({
            let shown = bingx::signed(use_testnet, path, query, secret);
            &&& text::shows(shown, "?"@, query, "&signature="@)
            &&& text::ends_in(shown, "&signature="@ + bingx::signature(secret, query))
        }),
{
    let g = seq![
        bingx::base(use_testnet),
        path,
        query,
        bingx::signature(secret, query),
    ];
    assert(bingx::signed(use_testnet, path, query, secret) == signed_of(g));
    lemma_signed_shows(g);
}

spec fn leverage_of(g: Seq<Seq<char>>) -> Seq<char> {
    "leverage="@
        + g[0]
        + "&side="@
        + g[1]
        + "&symbol="@
        + g[2]
        + "&timestamp="@
        + g[3]
}

proof fn lemma_leverage_parts(g: Seq<Seq<char>>) -> (parts: Seq<Seq<char>>)
    ensures
        leverage_of(g) == text::row(parts, 8),
        parts.len() == 8,
        parts[0] == "leverage="@,
        parts[1] == g[0],
        parts[2] == "&side="@,
        parts[3] == g[1],
        parts[4] == "&symbol="@,
        parts[5] == g[2],
        parts[6] == "&timestamp="@,
        parts[7] == g[3],
{
    let parts = seq![
        "leverage="@,
        g[0],
        "&side="@,
        g[1],
        "&symbol="@,
        g[2],
        "&timestamp="@,
        g[3],
    ];
    reveal_with_fuel(text::row, 9);
    parts
}

proof fn lemma_leverage_shows(g: Seq<Seq<char>>)
    ensures
        text::shows(leverage_of(g), "leverage="@, g[0], "&side="@),
        text::shows(leverage_of(g), "&side="@, g[1], "&symbol="@),
        text::shows(leverage_of(g), "&symbol="@, g[2], "&timestamp="@),
        text::ends_in(leverage_of(g), "&timestamp="@ + g[3]),
{
    let parts = lemma_leverage_parts(g);
    text::lemma_row_shows(parts, 8, 0);
    text::lemma_row_shows(parts, 8, 2);
    text::lemma_row_shows(parts, 8, 4);
    let before = text::row(parts, 6);
    assert(leverage_of(g) =~= before + ("&timestamp="@ + g[3])) by {
        reveal_with_fuel(text::row, 3);
    }
    text::lemma_ends(before, "&timestamp="@ + g[3]);
}

/// The query that sets a leverage names the leverage, the side, the symbol and the time, each behind its key.
#[verifier::rlimit(40)]
pub proof fn leverage_queries_name_their_terms(symbol: Seq<char>, leverage: u32, side: Seq<char>, timestamp: i64)
    ensures
        ({
            let shown = bingx::leverage_query(symbol, leverage, side, timestamp);
            &&& text::shows(shown, "leverage="@, decimal::numeral(leverage as nat), "&side="@)
            &&& text::shows(shown, "&side="@, side, "&symbol="@)
            &&& text::shows(shown, "&symbol="@, bingx::normalized(symbol), "&timestamp="@)
            &&& text::ends_in(shown, "&timestamp="@ + decimal::signed_numeral(timestamp as int))
        }),
{
    let g = seq![
        decimal::numeral(leverage as nat),
        side,
        bingx::normalized(symbol),
        decimal::signed_numeral(timestamp as int),
    ];
    assert(bingx::leverage_query(symbol, leverage, side, timestamp) == leverage_of(g));
    lemma_leverage_shows(g);
}

spec fn order_of(g: Seq<Seq<char>>) -> Seq<char> {
    "positionSide="@
        + g[0]
        + "&quantity="@
        + g[1]
        + "&side="@
        + g[2]
        + "&symbol="@
        + g[3]
        + "&timestamp="@
        + g[4]
        + "&type=MARKET"@
}

proof fn lemma_order_parts(g: Seq<Seq<char>>) -> (parts: Seq<Seq<char>>)
    ensures
        order_of(g) == text::row(parts, 11),
        parts.len() == 11,
        parts[0] == "positionSide="@,
        parts[1] == g[0],
        parts[2] == "&quantity="@,
        parts[3] == g[1],
        parts[4] == "&side="@,
        parts[5] == g[2],
        parts[6] == "&symbol="@,
        parts[7] == g[3],
        parts[8] == "&timestamp="@,
        parts[9] == g[4],
        parts[10] == "&type=MARKET"@,
{
    let parts = seq![
        "positionSide="@,
        g[0],
        "&quantity="@,
        g[1],
        "&side="@,
        g[2],
        "&symbol="@,
        g[3],
        "&timestamp="@,
        g[4],
        "&type=MARKET"@,
    ];
    reveal_with_fuel(text::row, 12);
    parts
}

proof fn lemma_order_shows(g: Seq<Seq<char>>)
    ensures
        text::shows(order_of(g), "positionSide="@, g[0], "&quantity="@),
        text::shows(order_of(g), "&quantity="@, g[1], "&side="@),
        text::shows(order_of(g), "&side="@, g[2], "&symbol="@),
        text::shows(order_of(g), "&symbol="@, g[3], "&timestamp="@),
        text::shows(order_of(g), "&timestamp="@, g[4], "&type=MARKET"@),
{
    let parts = lemma_order_parts(g);
    text::lemma_row_shows(parts, 11, 0);
    text::lemma_row_shows(parts, 11, 2);
    text::lemma_row_shows(parts, 11, 4);
    text::lemma_row_shows(parts, 11, 6);
    text::lemma_row_shows(parts, 11, 8);
}

/// The query of an order names the position, the quantity, the side, the symbol and the time, each behind its key.
#[verifier::rlimit(40)]
pub proof fn order_queries_name_their_terms(symbol: Seq<char>, side: Seq<char>, position_side: Seq<char>, quantity: Double, timestamp: i64)
    ensures
        ({
            let shown = bingx::order_query(symbol, side, position_side, quantity, None, timestamp);
            &&& text::shows(shown, "positionSide="@, position_side, "&quantity="@)
            &&& text::shows(shown, "&quantity="@, decimal::fixed(quantity, 4), "&side="@)
            &&& text::shows(shown, "&side="@, side, "&symbol="@)
            &&& text::shows(shown, "&symbol="@, bingx::normalized(symbol), "&timestamp="@)
            &&& text::shows(shown, "&timestamp="@, decimal::signed_numeral(timestamp as int), "&type=MARKET"@)
        }),
{
    let g = seq![
        position_side,
        decimal::fixed(quantity, 4),
        side,
        bingx::normalized(symbol),
        decimal::signed_numeral(timestamp as int),
    ];
    assert(bingx::order_query(symbol, side, position_side, quantity, None, timestamp) == order_of(g));
    lemma_order_shows(g);
}

spec fn positions_of(g: Seq<Seq<char>>) -> Seq<char> {
    "symbol="@
        + g[0]
        + "&timestamp="@
        + g[1]
}

proof fn lemma_positions_parts(g: Seq<Seq<char>>) -> (parts: Seq<Seq<char>>)
    ensures
        positions_of(g) == text::row(parts, 4),
        parts.len() == 4,
        parts[0] == "symbol="@,
        parts[1] == g[0],
        parts[2] == "&timestamp="@,
        parts[3] == g[1],
{
    let parts = seq![
        "symbol="@,
        g[0],
        "&timestamp="@,
        g[1],
    ];
    reveal_with_fuel(text::row, 5);
    parts
}

proof fn lemma_positions_shows(g: Seq<Seq<char>>)
    ensures
        text::shows(positions_of(g), "symbol="@, g[0], "&timestamp="@),
        text::ends_in(positions_of(g), "&timestamp="@ + g[1]),
{
    let parts = lemma_positions_parts(g);
    text::lemma_row_shows(parts, 4, 0);
    let before = text::row(parts, 2);
    assert(positions_of(g) =~= before + ("&timestamp="@ + g[1])) by {
        reveal_with_fuel(text::row, 3);
    }
    text::lemma_ends(before, "&timestamp="@ + g[1]);
}

/// The query for open positions names the symbol and the time, each behind its key.
#[verifier::rlimit(40)]
pub proof fn position_queries_name_their_terms(symbol: Seq<char>, timestamp: i64)
    ensures
        ({
            let shown = bingx::positions_query(symbol, timestamp);
            &&& text::shows(shown, "symbol="@, bingx::normalized(symbol), "&timestamp="@)
            &&& text::ends_in(shown, "&timestamp="@ + decimal::signed_numeral(timestamp as int))
        }),
{
    let g = seq![
        bingx::normalized(symbol),
        decimal::signed_numeral(timestamp as int),
    ];
    assert(bingx::positions_query(symbol, timestamp) == positions_of(g));
    lemma_positions_shows(g);
}

spec fn request_of(g: Seq<Seq<char>>) -> Seq<char> {
    "{\"frequency_penalty\":0.5,\"max_tokens\":1000,\"messages\":[{\"content\":"@
        + g[0]
        + ",\"role\":\"system\"},{\"content\":"@
        + g[1]
        + ",\"role\":\"user\"}],\"model\":\"local-model\",\"presence_penalty\":0.5,\"stop\":[\"<think>\",\"\\n*\"],\"temperature\":0.1,\"thinking_budget\":150}"@
}

proof fn lemma_request_parts(g: Seq<Seq<char>>) -> (parts: Seq<Seq<char>>)
    ensures
        request_of(g) == text::row(parts, 5),
        parts.len() == 5,
        parts[0] == "{\"frequency_penalty\":0.5,\"max_tokens\":1000,\"messages\":[{\"content\":"@,
        parts[1] == g[0],
        parts[2] == ",\"role\":\"system\"},{\"content\":"@,
        parts[3] == g[1],
        parts[4] == ",\"role\":\"user\"}],\"model\":\"local-model\",\"presence_penalty\":0.5,\"stop\":[\"<think>\",\"\\n*\"],\"temperature\":0.1,\"thinking_budget\":150}"@,
{
    let parts = seq![
        "{\"frequency_penalty\":0.5,\"max_tokens\":1000,\"messages\":[{\"content\":"@,
        g[0],
        ",\"role\":\"system\"},{\"content\":"@,
        g[1],
        ",\"role\":\"user\"}],\"model\":\"local-model\",\"presence_penalty\":0.5,\"stop\":[\"<think>\",\"\\n*\"],\"temperature\":0.1,\"thinking_budget\":150}"@,
    ];
    reveal_with_fuel(text::row, 6);
    parts
}

proof fn lemma_request_shows(g: Seq<Seq<char>>)
    ensures
        text::shows(request_of(g), "{\"frequency_penalty\":0.5,\"max_tokens\":1000,\"messages\":[{\"content\":"@, g[0], ",\"role\":\"system\"},{\"content\":"@),
        text::shows(request_of(g), ",\"role\":\"system\"},{\"content\":"@, g[1], ",\"role\":\"user\"}],\"model\":\"local-model\",\"presence_penalty\":0.5,\"stop\":[\"<think>\",\"\\n*\"],\"temperature\":0.1,\"thinking_budget\":150}"@),
{
    let parts = lemma_request_parts(g);
    text::lemma_row_shows(parts, 5, 0);
    text::lemma_row_shows(parts, 5, 2);
}

/// The body of a request carries the instructions as the system's words and the question as the user's.
#[verifier::rlimit(40)]
pub proof fn requests_carry_the_prompts(system_json: Seq<char>, user_json: Seq<char>)
    ensures
        ({
            let shown = llm::request(system_json, user_json);
            &&& text::shows(shown, "{\"frequency_penalty\":0.5,\"max_tokens\":1000,\"messages\":[{\"content\":"@, system_json, ",\"role\":\"system\"},{\"content\":"@)
            &&& text::shows(shown, ",\"role\":\"system\"},{\"content\":"@, user_json, ",\"role\":\"user\"}],\"model\":\"local-model\",\"presence_penalty\":0.5,\"stop\":[\"<think>\",\"\\n*\"],\"temperature\":0.1,\"thinking_budget\":150}"@)
        }),
{
    let g = seq![
        system_json,
        user_json,
    ];
    assert(llm::request(system_json, user_json) == request_of(g));
    lemma_request_shows(g);
}

/// A part that a text holds it also holds with more text behind it.
proof fn lemma_holds_more(s: Seq<char>, rest: Seq<char>, part: Seq<char>)
    requires
        text::holds(s, part),
    ensures
        text::holds(s + rest, part),
{
    let i = choose|i: int| text::stands_at(s, part, i);
    assert((s + rest).subrange(i, i + part.len() as int) =~= s.subrange(i, i + part.len() as int));
    assert(text::stands_at(s + rest, part, i));
}

proof fn lemma_holds_end(s: Seq<char>, part: Seq<char>)
    ensures
        text::holds(s + part, part),
{
    assert((s + part).subrange(s.len() as int, (s + part).len() as int) =~= part);
    assert(text::stands_at(s + part, part, s.len() as int));
}

/// The report reaches back twenty candles, or to the first one.
pub proof fn reports_reach_back_twenty_candles(i: int)
    requires
        i >= 0,
    ensures
        0 <= prompts::report_start(i) <= i,
        i - prompts::report_start(i) < 20,
        prompts::report_start(i) == 0 || i - prompts::report_start(i) == 19,
{
}

/// The history holds the line of every candle of its window, with the note on its trades, and ends
/// with the line of the current one.
pub proof fn histories_hold_every_candle(
    candles: Seq<Candle>,
    i: int,
    live: Option<Double>,
    trades: TradeRecord,
    k: int,
)
    requires
        prompts::report_start(i) <= k <= i,
    ensures
        ({
            let whole = prompts::history_upto(candles, i, live, trades, i + 1);
            let line = prompts::candle_line(
                prompts::reported(candles, i, live, k),
                i,
                k,
                trades.note(i, k, " [Trade: "@, "]"@),
            );
            &&& text::holds(whole, line)
            &&& k == i ==> text::ends_in(whole, line)
        }),
{
    lemma_history(candles, i, live, trades, k, i + 1);
}

proof fn lemma_history(
    candles: Seq<Candle>,
    i: int,
    live: Option<Double>,
    trades: TradeRecord,
    k: int,
    n: int,
)
    requires
        prompts::report_start(i) <= k < n,
    ensures
        ({
            let whole = prompts::history_upto(candles, i, live, trades, n);
            let line = prompts::candle_line(
                prompts::reported(candles, i, live, k),
                i,
                k,
                trades.note(i, k, " [Trade: "@, "]"@),
            );
            &&& text::holds(whole, line)
            &&& k == n - 1 ==> text::ends_in(whole, line)
        }),
    decreases n,
{
    let before = prompts::history_upto(candles, i, live, trades, n - 1);
    let last = prompts::candle_line(
        prompts::reported(candles, i, live, n - 1),
        i,
        n - 1,
        trades.note(i, n - 1, " [Trade: "@, "]"@),
    );
    assert(prompts::history_upto(candles, i, live, trades, n) == before + last);
    if k == n - 1 {
        lemma_holds_end(before, last);
        text::lemma_ends(before, last);
    } else {
        lemma_history(candles, i, live, trades, k, n - 1);
        lemma_holds_more(
            before,
            last,
            prompts::candle_line(
                prompts::reported(candles, i, live, k),
                i,
                k,
                trades.note(i, k, " [Trade: "@, "]"@),
            ),
        );
    }
}

/// The progression holds the indicators of every candle of its window.
pub proof fn progressions_hold_every_candle(
    candles: Seq<Candle>,
    i: int,
    live: Option<Double>,
    trades: TradeRecord,
    k: int,
)
    requires
        prompts::report_start(i) <= k <= i,
    ensures
        text::holds(
            prompts::progression_upto(candles, i, live, trades, i + 1),
            progression_line(candles, i, live, trades, k),
        ),
{
    lemma_progression(candles, i, live, trades, k, i + 1);
}

/// How long ago a candle was, its indicators at its close, and the note on its trades.
pub open spec fn progression_line(
    candles: Seq<Candle>,
    i: int,
    live: Option<Double>,
    trades: TradeRecord,
    k: int,
) -> Seq<char> {
    "- t-"@ + decimal::numeral((i - k) as nat) + prompts::current_mark(i, k) + ": "@
        + indicators::indicators_line(candles, k, prompts::reported(candles, i, live, k).close)
        + trades.note(i, k, " | Trade: "@, ""@) + "\n"@
}

proof fn lemma_progression(
    candles: Seq<Candle>,
    i: int,
    live: Option<Double>,
    trades: TradeRecord,
    k: int,
    n: int,
)
    requires
        prompts::report_start(i) <= k < n,
    ensures
        text::holds(
            prompts::progression_upto(candles, i, live, trades, n),
            progression_line(candles, i, live, trades, k),
        ),
    decreases n,
{
    let before = prompts::progression_upto(candles, i, live, trades, n - 1);
    let last = progression_line(candles, i, live, trades, n - 1);
    assert((i - n + 1) as nat == (i - (n - 1)) as nat);
    assert(prompts::progression_upto(candles, i, live, trades, n) =~= before + last);
    if k == n - 1 {
        lemma_holds_end(before, last);
    } else {
        lemma_progression(candles, i, live, trades, k, n - 1);
        lemma_holds_more(before, last, progression_line(candles, i, live, trades, k));
    }
}

/// The candle that is still open is reported with the live price as its close, between its low and
/// its high; the closed ones are reported as they are.
pub proof fn only_the_open_candle_follows_the_price(
    candles: Seq<Candle>,
    i: int,
    price: Double,
    k: int,
)
    requires
        !price.is_nan(),
        !candles[i].high.is_nan(),
        !candles[i].low.is_nan(),
    ensures
        k != i ==> prompts::reported(candles, i, Some(price), k) == candles[k],
        prompts::reported(candles, i, None, k) == candles[k],
        ({
            let shown = prompts::reported(candles, i, Some(price), i);
            &&& shown.close == price
            &&& price.at_most(shown.high) && candles[i].high.at_most(shown.high)
            &&& shown.high == price || shown.high == candles[i].high
            &&& shown.low.at_most(price) && shown.low.at_most(candles[i].low)
            &&& shown.low == price || shown.low == candles[i].low
            &&& shown.open == candles[i].open && shown.volume == candles[i].volume
        }),
{
}

/// The report of the open positions holds the line of every one, numbered from one.
pub proof fn every_position_is_reported(list: Seq<Position>, price: Double, k: int)
    requires
        0 <= k < list.len(),
    ensures
        text::holds(
            prompts::position_report(list, price),
            prompts::position_line(list[k], (k + 1) as nat, price),
        ),
{
    lemma_position_lines(list, price, k, list.len());
}

proof fn lemma_position_lines(list: Seq<Position>, price: Double, k: int, n: nat)
    requires
        0 <= k < n <= list.len(),
    ensures
        text::holds(
            prompts::position_lines(list, price, n),
            prompts::position_line(list[k], (k + 1) as nat, price),
        ),
    decreases n,
{
    let before = prompts::position_lines(list, price, (n - 1) as nat);
    let last = prompts::position_line(list[n - 1], n, price);
    if k == n - 1 {
        lemma_holds_end(before, last);
    } else {
        lemma_position_lines(list, price, k, (n - 1) as nat);
        lemma_holds_more(before, last, prompts::position_line(list[k], (k + 1) as nat, price));
    }
}

} // verus!
