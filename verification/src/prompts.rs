//! The instructions and the market report for the model.

use crate::decimal;
use crate::decimal::{fixed_text, numeral_text};
use crate::double::Double;
use crate::indicators;
use crate::indicators::calculate_indicators;
use crate::metrics::CurvePoint;
use crate::positions;
use crate::positions::{box_text, direction_text, stop_as_text};
use crate::text;
use crate::text::join;
use crate::types::{Candle, Position};
use vstd::prelude::*;
use vstd::string::*;

verus! {

/// The instructions up to the leverage.
pub const RULES_HEAD: &'static str = "CRITICAL: DO NOT use any <think> tags. You are strictly FORBIDDEN from reasoning, explaining, or writing thoughts. You must immediately output raw JSON. Your response MUST start with the character '{' and end with '}'.\n\nINSTRUCTIONS:\n\nStrategy & Capital Allocation (Base Leverage: ";

/// The instructions behind the leverage.
pub const RULES_BODY: &'static str = "X):\n- Two boxes: 80 percent Long-Term (LT) and 20 percent Short-Term (ST) of the total account equity. This proportion represents the max margin limit of the boxes, not the volume/size.\n- Box Independence: The LT and ST boxes are independent trading modules. You can, and should, hold positions in BOTH boxes simultaneously if conditions allow. Do not wait for one box to close or be empty before trading in the other.\n- Leverage: Select between 5.0 and 10.0 for any position (include \"apalancamiento\": X in the box JSON).\n- Add position per Box: You are authorized to open your first position in any box freely. You are authorized to open an ADDITIONAL/SECOND position in the same box ONLY if the existing position in that box has a profit of >= 200 percent ROI (measured relative to its initial MARGIN). Additional positions in a box will always have the exact same size/margin as the first position.\n\nTrend Priority:\n- Long-Term (LT) Box: Trade ONLY in the direction of the long-term trend (EMA50 and EMA100).\n- Short-Term (ST) Box: Authorized to trade against the macro trend based on short-term fluctuations.\n\nPosition Actions & Stop Loss Rules per Box:\n- To open a new trade: set \"accion\" to \"LONG\" or \"SHORT\" and \"cerrar\" to false.\n- To maintain an active trade without changes: set \"accion\" to \"HOLD\" and \"cerrar\" to false.\n- To close an active trade completely: set \"accion\" to \"FLAT\" and \"cerrar\" to true.\n- If a box has no active position and you do not want to open one: set \"accion\" to \"HOLD\", \"cerrar\" to false, and \"stop_loss\" to null.\n- Stop Loss (SL) Rules:\n  * LT Box (Long-Term): Set a wider stop loss below/above EMA100, or use EMA50 as a trailing stop to protect long-term trends.\n  * ST Box (Short-Term): Set a very tight stop loss. You MUST set it at a maximum of 2% distance from the entry price (using EMA15 or similar). Never set a deep/wide stop loss for ST.\n- Trailing Stop: ONLY when you have guaranteed profit (position is strictly in profit compared to the entry price), set the \"stop_loss\" as a Trailing Stop and update it dynamically to the current EMA50 or EMA100 to lock in profits. Do not start trailing or moving the Stop Loss if the position is not in profit.\n\n";

/// The instructions on the score of the simulation.
pub const RULES_SCORE: &'static str = "Scoring System (Directional Accuracy):\n- Tu objetivo principal es maximizar tu \"Directional Accuracy Score\". Cada operación que se cierre en la dirección correcta te sumará +10 puntos. Cada operación que se cierre en la dirección incorrecta te restará -10 puntos. Utiliza este feedback para corregir tus predicciones direccionales.\n\n";

/// The instructions on the answer.
pub const RULES_TAIL: &'static str = "CRITICAL EXECUTION RULES:\n1. DO NOT use any <think> tags. Do not think, do not reason, do not explain, and do not write any prose.\n2. Go directly from the market data to the raw JSON output.\n3. Output: Respond ONLY with a raw JSON matching the structure below. No markdown (```json), no extra fields.\n\nExample:\n{\n  \"lt_box\": {\n    \"accion\": \"HOLD\",\n    \"cerrar\": false,\n    \"apalancamiento\": 5.0,\n    \"stop_loss\": null\n  },\n  \"st_box\": {\n    \"accion\": \"HOLD\",\n    \"cerrar\": false,\n    \"apalancamiento\": 5.0,\n    \"stop_loss\": null\n  }\n}";

/// The instructions for the model with the leverage; the simulation also explains its score.
pub open spec fn instructions(leverage: Seq<char>, scored: bool) -> Seq<char> {
    if scored {
        RULES_HEAD@ + leverage + RULES_BODY@ + RULES_SCORE@ + RULES_TAIL@
    } else {
        RULES_HEAD@ + leverage + RULES_BODY@ + RULES_TAIL@
    }
}

/// The instructions for the model.
pub fn system_prompt(leverage: &str, scored: bool) -> (r: String)
    ensures
        r@ == instructions(leverage@, scored),
{
    let mut out = RULES_HEAD.to_owned();
    out.append(leverage);
    out.append(RULES_BODY);
    if scored {
        out.append(RULES_SCORE);
    }
    out.append(RULES_TAIL);
    out
}

/// The first of up to twenty candles that end with the `i`-th.
pub open spec fn report_start(i: int) -> int {
    if i < 19 {
        0
    } else {
        i - 19
    }
}

/// The candle that is still open, at a price.
pub open spec fn open_candle(c: Candle, price: Double) -> Candle {
    Candle { high: c.high.larger(price), low: c.low.smaller(price), close: price, ..c }
}

/// The `k`-th candle as it is reported at the `i`-th: the last one at the live price, if there is
/// one.
pub open spec fn reported(candles: Seq<Candle>, i: int, live: Option<Double>, k: int) -> Candle {
    if k == i && live is Some {
        open_candle(candles[k], live->Some_0)
    } else {
        candles[k]
    }
}

/// The trades of a simulation up to now: those of the steps behind, and those of the current step.
/// The first point of the curve stands for the beginning, the next one for the candle with which
/// trading began.
pub struct Trades<'a> {
    pub start: usize,
    pub curve: &'a Vec<CurvePoint>,
    pub acciones: &'a Vec<String>,
    pub precios: &'a Vec<String>,
}

/// What the trades of a simulation say.
#[verifier::ext_equal]
pub struct TradeRecord {
    pub start: int,
    /// The actions and the prices of the steps behind, led by an entry for the beginning.
    pub steps: Seq<(Seq<char>, Seq<char>)>,
    pub acciones: Seq<Seq<char>>,
    pub precios: Seq<Seq<char>>,
}

impl<'a> View for Trades<'a> {
    type V = TradeRecord;

    open spec fn view(&self) -> TradeRecord {
        TradeRecord {
            start: self.start as int,
            steps: self.curve@.map_values(|p: CurvePoint| (p.actions@, p.prices@)),
            acciones: text::views(self.acciones@),
            precios: text::views(self.precios@),
        }
    }
}

impl TradeRecord {
    /// No trades at all.
    pub open spec fn none() -> TradeRecord {
        TradeRecord {
            start: 0,
            steps: Seq::empty(),
            acciones: Seq::empty(),
            precios: Seq::empty(),
        }
    }

    /// The note at the `k`-th candle while the `i`-th is the current one. The current candle shows
    /// the trades of the current step. An earlier one shows the point of the curve with its number,
    /// counted from the candle with which trading began; as the curve begins with a point of its
    /// own, these are the trades at the candle before.
    pub open spec fn note(self, i: int, k: int, lead: Seq<char>, tail: Seq<char>) -> Seq<char> {
        if k == i {
            if self.acciones.len() == 0 {
                Seq::empty()
            } else {
                lead + text::joined(self.acciones, "; "@) + " at "@ + text::joined(
                    self.precios,
                    "; "@,
                ) + tail
            }
        } else if self.start <= k < self.start + self.steps.len() && self.steps[k
            - self.start].0.len() > 0 {
            let step = self.steps[k - self.start];
            lead + step.0 + " at "@ + step.1 + tail
        } else {
            Seq::empty()
        }
    }
}

impl<'a> Trades<'a> {
    fn note_text(&self, i: usize, k: usize, lead: &str, tail: &str) -> (r: String)
        ensures
            r@ == self@.note(i as int, k as int, lead@, tail@),
    {
        let mut out = String::new();
        if k == i {
            if self.acciones.len() > 0 {
                out = lead.to_owned();
                let actions = join(self.acciones, "; ");
                out.append(actions.as_str());
                out.append(" at ");
                let prices = join(self.precios, "; ");
                out.append(prices.as_str());
                out.append(tail);
            }
        } else if k >= self.start && k - self.start < self.curve.len() {
            let point = &self.curve[k - self.start];
            if text::chars_of(point.actions.as_str()).len() > 0 {
                out = lead.to_owned();
                out.append(point.actions.as_str());
                out.append(" at ");
                out.append(point.prices.as_str());
                out.append(tail);
            }
        }
        out
    }
}

/// What marks the current candle.
pub open spec fn current_mark(i: int, k: int) -> Seq<char> {
    if k == i {
        " (Current)"@
    } else {
        ""@
    }
}

fn mark_text(i: usize, k: usize) -> (r: &'static str)
    ensures
        r@ == current_mark(i as int, k as int),
{
    if k == i {
        " (Current)"
    } else {
        ""
    }
}

/// The line of one candle.
pub open spec fn candle_line(c: Candle, i: int, k: int, note: Seq<char>) -> Seq<char> {
    "- t-"@ + decimal::numeral((i - k) as nat) + ": O:"@ + decimal::fixed(c.open, 1) + ", H:"@
        + decimal::fixed(c.high, 1) + ", L:"@ + decimal::fixed(c.low, 1) + ", C:"@ + decimal::fixed(
        c.close,
        1,
    ) + ", V:"@ + decimal::fixed(c.volume, 0) + current_mark(i, k) + note + "\n"@
}

fn candle_line_text(c: &Candle, i: usize, k: usize, note: &str) -> (r: String)
    requires
        k <= i,
    ensures
        r@ == candle_line(*c, i as int, k as int, note@),
{
    let mut out = "- t-".to_owned();
    let offset = numeral_text((i - k) as u128);
    out.append(offset.as_str());
    out.append(": O:");
    let open = fixed_text(c.open, 1);
    out.append(open.as_str());
    out.append(", H:");
    let high = fixed_text(c.high, 1);
    out.append(high.as_str());
    out.append(", L:");
    let low = fixed_text(c.low, 1);
    out.append(low.as_str());
    out.append(", C:");
    let close = fixed_text(c.close, 1);
    out.append(close.as_str());
    out.append(", V:");
    let volume = fixed_text(c.volume, 0);
    out.append(volume.as_str());
    out.append(mark_text(i, k));
    out.append(note);
    out.append("\n");
    out
}

/// The lines of the candles `report_start(i)..k`.
pub open spec fn history_upto(
    candles: Seq<Candle>,
    i: int,
    live: Option<Double>,
    trades: TradeRecord,
    k: int,
) -> Seq<char>
    decreases k,
{
    if k <= report_start(i) {
        Seq::empty()
    } else {
        history_upto(candles, i, live, trades, k - 1) + candle_line(
            reported(candles, i, live, k - 1),
            i,
            k - 1,
            trades.note(i, k - 1, " [Trade: "@, "]"@),
        )
    }
}

/// The lines of up to twenty candles that end with the `i`-th.
pub fn history(candles: &Vec<Candle>, i: usize, live: Option<Double>, trades: &Trades) -> (r:
    String)
    requires
        i < candles@.len(),
    ensures
        r@ == history_upto(candles@, i as int, live, trades@, i + 1),
{
    let mut out = String::new();
    let start: usize = if i < 19 {
        0
    } else {
        i - 19
    };
    let mut k: usize = start;
    while k <= i
        invariant
            start == report_start(i as int),
            start <= k <= i + 1,
            i < candles@.len(),
            candles.len() <= usize::MAX,
            out@ == history_upto(candles@, i as int, live, trades@, k as int),
        decreases i + 1 - k,
    {
        let mut c = candles[k];
        match live {
            Some(price) => {
                if k == i {
                    c = Candle {
                        open_time: c.open_time,
                        open: c.open,
                        high: c.high.max(price),
                        low: c.low.min(price),
                        close: price,
                        volume: c.volume,
                        close_time: c.close_time,
                    };
                }
            },
            None => {},
        }
        let note = trades.note_text(i, k, " [Trade: ", "]");
        let line = candle_line_text(&c, i, k, note.as_str());
        out.append(line.as_str());
        k = k + 1;
    }
    out
}

/// The lines of the indicators at the candles `report_start(i)..k`.
pub open spec fn progression_upto(
    candles: Seq<Candle>,
    i: int,
    live: Option<Double>,
    trades: TradeRecord,
    k: int,
) -> Seq<char>
    decreases k,
{
    if k <= report_start(i) {
        Seq::empty()
    } else {
        progression_upto(candles, i, live, trades, k - 1) + "- t-"@ + decimal::numeral(
            (i - k + 1) as nat,
        ) + current_mark(i, k - 1) + ": "@ + indicators::indicators_line(
            candles,
            k - 1,
            reported(candles, i, live, k - 1).close,
        ) + trades.note(i, k - 1, " | Trade: "@, ""@) + "\n"@
    }
}

/// The lines of the indicators at up to twenty candles that end with the `i`-th.
pub fn progression(candles: &Vec<Candle>, i: usize, live: Option<Double>, trades: &Trades) -> (r:
    String)
    requires
        i < candles@.len(),
    ensures
        r@ == progression_upto(candles@, i as int, live, trades@, i + 1),
{
    let mut out = String::new();
    let start: usize = if i < 19 {
        0
    } else {
        i - 19
    };
    let mut k: usize = start;
    while k <= i
        invariant
            start == report_start(i as int),
            start <= k <= i + 1,
            i < candles@.len(),
            candles.len() <= usize::MAX,
            out@ == progression_upto(candles@, i as int, live, trades@, k as int),
        decreases i + 1 - k,
    {
        let mut price = candles[k].close;
        match live {
            Some(now) => {
                if k == i {
                    price = now;
                }
            },
            None => {},
        }
        out.append("- t-");
        let offset = numeral_text((i - k) as u128);
        out.append(offset.as_str());
        out.append(mark_text(i, k));
        out.append(": ");
        let line = calculate_indicators(candles.as_slice(), k, price);
        out.append(line.as_str());
        let note = trades.note_text(i, k, " | Trade: ", "");
        out.append(note.as_str());
        out.append("\n");
        k = k + 1;
    }
    out
}

/// The line of the `n`-th open position.
pub open spec fn position_line(pos: Position, n: nat, price: Double) -> Seq<char> {
    "- Position #"@ + decimal::numeral(n) + ": "@ + positions::direction_name(pos.position_type)
        + " | Box: "@ + positions::box_name(pos.box_type) + " | Entry: "@ + decimal::fixed(
        pos.entry_price,
        2,
    ) + " USDT | Margin: "@ + decimal::fixed(pos.margin, 2) + " USDT | Size: "@ + decimal::fixed(
        pos.size_btc,
        6,
    ) + " BTC | Liq: "@ + decimal::fixed(pos.liquidation_price, 2) + " USDT | SL: "@
        + positions::stop_text(pos.stop_loss) + " | Floating PnL: "@ + decimal::fixed(
        pos.pnl(price),
        2,
    ) + " USDT (ROE: "@ + decimal::fixed(pos.roe(price), 2) + "%)\n"@
}

/// The lines of the first `n` open positions.
pub open spec fn position_lines(list: Seq<Position>, price: Double, n: nat) -> Seq<char>
    decreases n,
{
    if n == 0 {
        Seq::empty()
    } else {
        position_lines(list, price, (n - 1) as nat) + position_line(list[n - 1], n, price)
    }
}

/// The open positions as they are reported.
pub open spec fn position_report(list: Seq<Position>, price: Double) -> Seq<char> {
    if list.len() == 0 {
        "- No active positions."@
    } else {
        position_lines(list, price, list.len())
    }
}

/// The open positions as they are reported.
pub fn positions_text(list: &Vec<Position>, price: Double) -> (r: String)
    ensures
        r@ == position_report(list@, price),
{
    if list.len() == 0 {
        return "- No active positions.".to_owned();
    }
    let mut out = String::new();
    let mut n: usize = 0;
    while n < list.len()
        invariant
            n <= list.len(),
            list.len() <= usize::MAX,
            out@ == position_lines(list@, price, n as nat),
        decreases list@.len() - n,
    {
        let pos = list[n];
        n = n + 1;
        let mut line = "- Position #".to_owned();
        let number = numeral_text(n as u128);
        line.append(number.as_str());
        line.append(": ");
        line.append(direction_text(pos.position_type));
        line.append(" | Box: ");
        line.append(box_text(pos.box_type));
        line.append(" | Entry: ");
        let entry = fixed_text(pos.entry_price, 2);
        line.append(entry.as_str());
        line.append(" USDT | Margin: ");
        let margin = fixed_text(pos.margin, 2);
        line.append(margin.as_str());
        line.append(" USDT | Size: ");
        let size = fixed_text(pos.size_btc, 6);
        line.append(size.as_str());
        line.append(" BTC | Liq: ");
        let liquidation = fixed_text(pos.liquidation_price, 2);
        line.append(liquidation.as_str());
        line.append(" USDT | SL: ");
        let stop = stop_as_text(pos.stop_loss);
        line.append(stop.as_str());
        line.append(" | Floating PnL: ");
        let pnl = fixed_text(pos.pnl_at(price), 2);
        line.append(pnl.as_str());
        line.append(" USDT (ROE: ");
        let roe = fixed_text(pos.roe_at(price), 2);
        line.append(roe.as_str());
        line.append("%)\n");
        out.append(line.as_str());
    }
    out
}

} // verus!
