//! Live trading: the account as the exchange reports it, the question to the model, and the orders
//! that its answer asks for.

use crate::backtest;
use crate::backtest::{allocation_of, allowed_leverage, get_liquidation_percentage, liquidation_price_of, wanted_direction};
use crate::bingx_answers;
use crate::bingx_answers::{Report, ReportedPosition};
use crate::decimal;
use crate::decimal::fixed_text;
use crate::decimal_reader::parse_double_or;
use crate::double;
use crate::double::Double;
use crate::double_laws;
use crate::error_laws;
use crate::metrics::CurvePoint;
use crate::positions;
use crate::positions::direction_text;
use crate::prompts;
use crate::prompts::{history, progression, TradeRecord, Trades};
use crate::text;
use crate::text::{same_text, uppercase};
use crate::types::{BoxAction, BoxType, Candle, PositionType};
use vstd::arithmetic::div_mod::*;
use vstd::arithmetic::mul::*;
use vstd::arithmetic::power2::*;
use vstd::prelude::*;
use vstd::string::*;

verus! {

/// Whether there are candles enough to trade on.
pub fn enough_candles(count: usize) -> (r: bool)
    ensures
        r == (count >= 10),
{
    count >= 10
}

/// What the account has open.
#[derive(Debug, Clone, Copy, PartialEq, Eq, Structural)]
pub struct LivePosition {
    pub position_type: PositionType,
    pub margin: Double,
    pub size_btc: Double,
    pub entry_price: Double,
    pub floating_pnl: Double,
}

impl Report {
    /// The direction of the position: long by its name, else short.
    pub open spec fn direction(self) -> PositionType {
        if self.side == "LONG"@ {
            PositionType::Long
        } else {
            PositionType::Short
        }
    }

    /// The position with the margin that a leverage asks for; none is asked without a leverage.
    pub open spec fn live(self, leverage: u32) -> LivePosition {
        let entry_price = bingx_answers::number_or(self.entry_price, Double::zero());
        LivePosition {
            position_type: self.direction(),
            margin: if leverage > 0 {
                self.size().times(entry_price).over(Double::of(leverage as int))
            } else {
                Double::zero()
            },
            size_btc: self.size(),
            entry_price,
            floating_pnl: bingx_answers::number_or(self.unrealized_profit, Double::zero()),
        }
    }
}

impl ReportedPosition {
    /// The direction of the position.
    pub fn side_direction(&self) -> (r: PositionType)
        ensures
            r == self@.direction(),
    {
        if same_text(self.side.as_str(), "LONG") {
            PositionType::Long
        } else {
            PositionType::Short
        }
    }
}

/// The first open position among the reports `k..`, or none.
pub open spec fn current(list: Seq<Report>, leverage: u32, k: nat) -> LivePosition
    decreases list.len() - k,
{
    if k >= list.len() {
        LivePosition {
            position_type: PositionType::NoPosition,
            margin: Double::zero(),
            size_btc: Double::zero(),
            entry_price: Double::zero(),
            floating_pnl: Double::zero(),
        }
    } else if list[k as int].is_open() {
        list[k as int].live(leverage)
    } else {
        current(list, leverage, k + 1)
    }
}

/// The first open position that the exchange reports.
pub fn current_position(list: &Vec<ReportedPosition>, leverage: u32) -> (r: LivePosition)
    ensures
        r == current(bingx_answers::reports(list@), leverage, 0),
{
    let zero = Double { bits: 0 };
    let mut k: usize = 0;
    while k < list.len()
        invariant
            k <= list@.len(),
            zero == Double::zero(),
            current(bingx_answers::reports(list@), leverage, k as nat) == current(
                bingx_answers::reports(list@),
                leverage,
                0,
            ),
        decreases list@.len() - k,
    {
        let report = &list[k];
        assert(bingx_answers::reports(list@)[k as int] == report@);
        if report.holds_any() {
            let size_btc = report.held();
            let entry_price = parse_double_or(report.entry_price.as_str(), zero);
            let margin = if leverage > 0 {
                size_btc.mul(entry_price).div(Double::from_u64(leverage as u64))
            } else {
                zero
            };
            return LivePosition {
                position_type: report.side_direction(),
                margin,
                size_btc,
                entry_price,
                floating_pnl: parse_double_or(report.unrealized_profit.as_str(), zero),
            };
        }
        k = k + 1;
    }
    LivePosition {
        position_type: PositionType::NoPosition,
        margin: zero,
        size_btc: zero,
        entry_price: zero,
        floating_pnl: zero,
    }
}

impl LivePosition {
    /// What the account is worth: what is available, the margin and the floating gain.
    pub open spec fn worth(self, available: Double) -> Double {
        available.plus(self.margin).plus(self.floating_pnl)
    }

    /// What the account is worth.
    pub fn equity(&self, available: Double) -> (r: Double)
        ensures
            r == self.worth(available),
    {
        available.add(self.margin).add(self.floating_pnl)
    }
}

/// The size of the first open position of a direction among the reports `k..`.
pub open spec fn open_size(list: Seq<Report>, t: PositionType, k: nat) -> Option<Double>
    decreases list.len() - k,
{
    if k >= list.len() {
        None
    } else if list[k as int].is_open() && list[k as int].direction() == t {
        Some(list[k as int].size())
    } else {
        open_size(list, t, k + 1)
    }
}

/// The size of the first open position of a direction.
pub fn size_of_direction(list: &Vec<ReportedPosition>, t: PositionType) -> (r: Option<Double>)
    ensures
        r == open_size(bingx_answers::reports(list@), t, 0),
{
    let mut k: usize = 0;
    while k < list.len()
        invariant
            k <= list@.len(),
            open_size(bingx_answers::reports(list@), t, k as nat) == open_size(
                bingx_answers::reports(list@),
                t,
                0,
            ),
        decreases list@.len() - k,
    {
        let report = &list[k];
        assert(bingx_answers::reports(list@)[k as int] == report@);
        if report.holds_any() && report.side_direction() == t {
            return Some(report.held());
        }
        k = k + 1;
    }
    None
}

/// The opposite direction.
pub open spec fn opposite(t: PositionType) -> PositionType {
    if t == PositionType::Long {
        PositionType::Short
    } else {
        PositionType::Long
    }
}

/// The direction in which a box closes: the long-term box with the trend, the short-term box
/// against it.
pub open spec fn closing_direction(box_type: BoxType, trend: PositionType) -> PositionType {
    match box_type {
        BoxType::LT => trend,
        BoxType::ST => opposite(trend),
    }
}

/// What is to be opened.
#[derive(Debug, Clone, Copy, PartialEq, Eq, Structural)]
pub enum Opening {
    /// No position is wanted.
    Nothing,
    /// The long-term box trades only with the trend.
    AgainstTrend { wanted: PositionType },
    /// The account already holds a position of the direction.
    AlreadyOpen { wanted: PositionType },
    /// A position with a leverage, a margin and the value that they control.
    Open { wanted: PositionType, leverage: u32, margin: Double, size_usdt: Double },
}

/// What is to be closed.
#[derive(Debug, Clone, Copy, PartialEq, Eq, Structural)]
pub struct Closing {
    pub direction: PositionType,
    pub quantity: Double,
}

/// The orders that an action for one box asks for.
#[derive(Debug, Clone, Copy, PartialEq, Eq, Structural)]
pub struct Orders {
    pub close: Option<Closing>,
    pub open: Opening,
}

/// The leverage of a new position as a whole number.
pub open spec fn whole_leverage(chosen: Option<Double>, leverage: u32) -> u32 {
    let x = match chosen {
        Some(x) => backtest::leverage_allowed(x),
        None => Double::of(leverage as int),
    };
    double::clamped(x.truncated(), 0, u32::MAX as int) as u32
}

/// What is to be opened in a box in a direction.
pub open spec fn opening(
    wanted: PositionType,
    chosen: Option<Double>,
    box_type: BoxType,
    trend: PositionType,
    list: Seq<Report>,
    leverage: u32,
    equity: Double,
) -> Opening {
    let used = whole_leverage(chosen, leverage);
    let margin = equity.times(backtest::allocation(box_type));
    if wanted == PositionType::NoPosition {
        Opening::Nothing
    } else if box_type == BoxType::LT && wanted != trend {
        Opening::AgainstTrend { wanted }
    } else if open_size(list, wanted, 0) is Some {
        Opening::AlreadyOpen { wanted }
    } else {
        Opening::Open {
            wanted,
            leverage: used,
            margin,
            size_usdt: margin.times(Double::of(used as int)),
        }
    }
}

/// What is to be opened in a box in a direction.
pub fn plan_opening(
    wanted: PositionType,
    chosen: Option<Double>,
    box_type: BoxType,
    trend: PositionType,
    list: &Vec<ReportedPosition>,
    leverage: u32,
    equity: Double,
) -> (r: Opening)
    ensures
        r == opening(
            wanted,
            chosen,
            box_type,
            trend,
            bingx_answers::reports(list@),
            leverage,
            equity,
        ),
{
    if wanted == PositionType::NoPosition {
        return Opening::Nothing;
    }
    if box_type == BoxType::LT && wanted != trend {
        return Opening::AgainstTrend { wanted };
    }
    if size_of_direction(list, wanted).is_some() {
        return Opening::AlreadyOpen { wanted };
    }
    let times = match chosen {
        Some(x) => allowed_leverage(x),
        None => Double::from_u64(leverage as u64),
    };
    let used: u32 = times.to_u32();
    let margin = equity.mul(allocation_of(box_type));
    Opening::Open { wanted, leverage: used, margin, size_usdt: position_value(margin, used) }
}

/// The orders that an action for one box asks for.
pub open spec fn orders(
    action: BoxAction,
    box_type: BoxType,
    trend: PositionType,
    list: Seq<Report>,
    leverage: u32,
    equity: Double,
) -> Orders {
    let direction = closing_direction(box_type, trend);
    Orders {
        close: if action.cerrar && open_size(list, direction, 0) is Some {
            Some(Closing { direction, quantity: open_size(list, direction, 0)->Some_0 })
        } else {
            None
        },
        open: opening(
            backtest::wanted(text::uppercase_of(action.accion@)),
            action.apalancamiento,
            box_type,
            trend,
            list,
            leverage,
            equity,
        ),
    }
}

/// The orders that an action for one box asks for, given the trend and the open positions.
pub fn plan_box(
    action: &BoxAction,
    box_type: BoxType,
    trend: PositionType,
    list: &Vec<ReportedPosition>,
    leverage: u32,
    equity: Double,
) -> (r: Orders)
    ensures
        r == orders(
            *action,
            box_type,
            trend,
            bingx_answers::reports(list@),
            leverage,
            equity,
        ),
{
    let direction = match box_type {
        BoxType::LT => trend,
        BoxType::ST => if trend == PositionType::Long {
            PositionType::Short
        } else {
            PositionType::Long
        },
    };
    let close = if action.cerrar {
        match size_of_direction(list, direction) {
            Some(quantity) => Some(Closing { direction, quantity }),
            None => None,
        }
    } else {
        None
    };
    let upper = uppercase(action.accion.as_str());
    let wanted = wanted_direction(upper.as_str());
    let open = plan_opening(
        wanted,
        action.apalancamiento,
        box_type,
        trend,
        list,
        leverage,
        equity,
    );
    Orders { close, open }
}

/// The value that a margin controls with a leverage.
pub fn position_value(margin: Double, leverage: u32) -> (r: Double)
    ensures
        r == margin.times(Double::of(leverage as int)),
{
    margin.mul(Double::from_u64(leverage as u64))
}

/// The quantity that a value buys at a price.
pub fn quantity_at(size_usdt: Double, price: Double) -> (r: Double)
    ensures
        r == size_usdt.over(price),
{
    size_usdt.div(price)
}

/// The name of a direction at the exchange.
pub open spec fn side_name(t: PositionType) -> Seq<char> {
    if t == PositionType::Long {
        "LONG"@
    } else {
        "SHORT"@
    }
}

/// The name of a direction at the exchange.
pub fn position_side(t: PositionType) -> (r: &'static str)
    ensures
        r@ == side_name(t),
{
    if t == PositionType::Long {
        "LONG"
    } else {
        "SHORT"
    }
}

/// What an order does that opens a position.
pub fn entry_side(t: PositionType) -> (r: &'static str)
    ensures
        r@ == (if t == PositionType::Long {
            "BUY"@
        } else {
            "SELL"@
        }),
{
    if t == PositionType::Long {
        "BUY"
    } else {
        "SELL"
    }
}

/// What an order does that closes a position.
pub fn exit_side(t: PositionType) -> (r: &'static str)
    ensures
        r@ == (if t == PositionType::Long {
            "SELL"@
        } else {
            "BUY"@
        }),
{
    if t == PositionType::Long {
        "SELL"
    } else {
        "BUY"
    }
}

/// The seconds that a candle of a timeframe lasts.
pub open spec fn candle_seconds(timeframe: Seq<char>) -> int {
    if timeframe == "1d"@ {
        86400
    } else if timeframe == "4h"@ {
        14400
    } else {
        3600
    }
}

/// The remainder of a division that rounds towards zero.
pub open spec fn remainder(n: int, d: int) -> int {
    if n >= 0 {
        n % d
    } else {
        -((-n) % d)
    }
}

/// The seconds until the next candle begins, and ten more.
pub fn seconds_to_wait(timeframe: &str, now: i64) -> (r: i64)
    ensures
        r == candle_seconds(timeframe@) - remainder(now as int, candle_seconds(timeframe@)) + 10,
{
    let interval: i128 = if same_text(timeframe, "1d") {
        86400
    } else if same_text(timeframe, "4h") {
        14400
    } else {
        3600
    };
    let moment: i128 = now as i128;
    let rest: i128 = if moment >= 0 {
        moment % interval
    } else {
        -((-moment) % interval)
    };
    (interval - rest + 10) as i64
}

/// The question to the model.
pub open spec fn question(
    candles: Seq<Candle>,
    price: Double,
    available: Double,
    leverage: u32,
    pos: LivePosition,
) -> Seq<char> {
    let i = candles.len() - 1;
    let percent = backtest::liquidation_percentage(Double::of(leverage as int));
    "DATA (Recent)\nCurrent BTC Price (Close): "@ + decimal::fixed(price, 2)
        + " USDT\nLast 20 candles history:\n"@ + prompts::history_upto(
        candles,
        i,
        Some(price),
        TradeRecord::none(),
        i + 1,
    ) + "\n\nTECHNICAL INDICATORS\n"@ + prompts::progression_upto(
        candles,
        i,
        Some(price),
        TradeRecord::none(),
        i + 1,
    ) + "\n\nACCOUNT STATUS\nFree balance (not in margin): "@ + decimal::fixed(available, 2)
        + " USDT\nTotal Equity: "@ + decimal::fixed(pos.worth(available), 2) + " USDT\nLeverage: "@
        + decimal::fixed(Double::of(leverage as int), 1)
        + "x\nRisk parameters: Max % risk per trade: 10%\nActive position: "@
        + positions::direction_name(pos.position_type) + "\nPosition Margin: "@ + decimal::fixed(
        pos.margin,
        2,
    ) + " USDT (Isolated Mode)\nPosition size: "@ + decimal::fixed(pos.size_btc, 6) + " BTC ($"@
        + decimal::fixed(pos.size_btc.times(price), 2) + ")\nEntry price: "@ + decimal::fixed(
        pos.entry_price,
        2,
    ) + " USDT\nLiquidation price: "@ + decimal::fixed(
        backtest::liquidation_price(pos.position_type, pos.entry_price, percent),
        2,
    ) + " USDT (If it moves "@ + decimal::fixed(percent, 3) + "% against)\nFloating PnL: "@
        + decimal::fixed(pos.floating_pnl, 2)
        + " USDT\nWhat action do you take? Respond strictly in JSON format"@
}

/// The question to the model.
pub fn user_prompt(
    candles: &Vec<Candle>,
    price: Double,
    available: Double,
    leverage: u32,
    pos: &LivePosition,
) -> (r: String)
    requires
        candles@.len() > 0,
    ensures
        r@ == question(candles@, price, available, leverage, *pos),
{
    let i: usize = candles.len() - 1;
    let curve: Vec<CurvePoint> = Vec::new();
    let nothing: Vec<String> = Vec::new();
    let trades = Trades { start: 0, curve: &curve, acciones: &nothing, precios: &nothing };
    assert(trades@ =~= TradeRecord::none());
    let times = Double::from_u64(leverage as u64);
    let percent = get_liquidation_percentage(times);
    let mut out = "DATA (Recent)\nCurrent BTC Price (Close): ".to_owned();
    let now = fixed_text(price, 2);
    out.append(now.as_str());
    out.append(" USDT\nLast 20 candles history:\n");
    let past = history(candles, i, Some(price), &trades);
    out.append(past.as_str());
    out.append("\n\nTECHNICAL INDICATORS\n");
    let lines = progression(candles, i, Some(price), &trades);
    out.append(lines.as_str());
    out.append("\n\nACCOUNT STATUS\nFree balance (not in margin): ");
    let balance = fixed_text(available, 2);
    out.append(balance.as_str());
    out.append(" USDT\nTotal Equity: ");
    let equity = fixed_text(pos.equity(available), 2);
    out.append(equity.as_str());
    out.append(" USDT\nLeverage: ");
    let leverage_text = fixed_text(times, 1);
    out.append(leverage_text.as_str());
    out.append("x\nRisk parameters: Max % risk per trade: 10%\nActive position: ");
    out.append(direction_text(pos.position_type));
    out.append("\nPosition Margin: ");
    let margin = fixed_text(pos.margin, 2);
    out.append(margin.as_str());
    out.append(" USDT (Isolated Mode)\nPosition size: ");
    let size = fixed_text(pos.size_btc, 6);
    out.append(size.as_str());
    out.append(" BTC ($");
    let value = fixed_text(pos.size_btc.mul(price), 2);
    out.append(value.as_str());
    out.append(")\nEntry price: ");
    let entry = fixed_text(pos.entry_price, 2);
    out.append(entry.as_str());
    out.append(" USDT\nLiquidation price: ");
    let liquidation = fixed_text(
        liquidation_price_of(pos.position_type, pos.entry_price, percent),
        2,
    );
    out.append(liquidation.as_str());
    out.append(" USDT (If it moves ");
    let far = fixed_text(percent, 3);
    out.append(far.as_str());
    out.append("% against)\nFloating PnL: ");
    let floating = fixed_text(pos.floating_pnl, 2);
    out.append(floating.as_str());
    out.append(" USDT\nWhat action do you take? Respond strictly in JSON format");
    out
}

/// The two boxes never close the same direction.
pub proof fn boxes_close_apart(trend: PositionType)
    requires
        trend != PositionType::NoPosition,
    ensures
        closing_direction(BoxType::LT, trend) != closing_direction(BoxType::ST, trend),
{
}

/// A position is only opened where none of its direction is open, and the long-term box opens only
/// with the trend.
pub proof fn openings_are_new(
    direction: PositionType,
    chosen: Option<Double>,
    box_type: BoxType,
    trend: PositionType,
    list: Seq<Report>,
    leverage: u32,
    equity: Double,
)
    ensures
        opening(direction, chosen, box_type, trend, list, leverage, equity) matches Opening::Open {
            wanted,
            margin,
            ..
        } ==> {
            &&& wanted == direction
            &&& wanted != PositionType::NoPosition
            &&& open_size(list, wanted, 0) is None
            &&& box_type == BoxType::LT ==> wanted == trend
            &&& margin == equity.times(backtest::allocation(box_type))
        },
{
}

/// What is closed is open: the quantity is that of an open position of the direction.
pub proof fn closings_close_what_is_open(list: Seq<Report>, t: PositionType, k: nat)
    ensures
        open_size(list, t, k) matches Some(size) ==> exists|i: int|
            k <= i < list.len() && (#[trigger] list[i]).is_open() && list[i].direction() == t
                && list[i].size() == size,
        open_size(list, t, k) is None ==> forall|i: int|
            k <= i < list.len() && (#[trigger] list[i]).is_open() ==> list[i].direction() != t,
    decreases list.len() - k,
{
    if k < list.len() && !(list[k as int].is_open() && list[k as int].direction() == t) {
        closings_close_what_is_open(list, t, k + 1);
    } else if k < list.len() {
        assert(list[k as int].is_open());
    }
}

/// The wait ends ten seconds behind the beginning of a candle; behind the next one, for all moments
/// since 1970.
pub proof fn wait_ends_behind_a_candle(timeframe: Seq<char>, now: int)
    ensures
        ({
            let length = candle_seconds(timeframe);
            let wait = length - remainder(now, length) + 10;
            &&& (now + wait - 10) % length == 0
            &&& now >= 0 ==> 10 < wait <= length + 10
        }),
{
    let length = candle_seconds(timeframe);
    if length == 86400 {
        assert((now + 86400 - remainder(now, 86400)) % 86400 == 0);
    } else if length == 14400 {
        assert((now + 14400 - remainder(now, 14400)) % 14400 == 0);
    } else {
        assert((now + 3600 - remainder(now, 3600)) % 3600 == 0);
    }
}

/// Where the model names no leverage, a position is opened with the configured one.
pub proof fn unnamed_leverage_is_the_configured_one(leverage: u32)
    ensures
        whole_leverage(None, leverage) == leverage,
{
    lemma2_to64();
    lemma2_to64_rest();
    lemma_pow2_pos(1074);
    double_laws::small_naturals_are_exact(leverage as nat);
    lemma_div_multiples_vanish(leverage as int, pow2(1074) as int);
    lemma_mul_is_commutative(leverage as int, pow2(1074) as int);
}

/// A leverage that the model names between 5 and 10 is cut to its whole part.
pub proof fn named_leverage_is_cut_to_its_whole(chosen: Double, k: nat, leverage: u32)
    requires
        5 <= k <= 10,
        Double::of(k as int).at_most(chosen),
        chosen.below(Double::of(k as int + 1)),
        chosen.at_most(Double::of(10)),
    ensures
        whole_leverage(Some(chosen), leverage) == k,
{
    lemma2_to64();
    lemma2_to64_rest();
    lemma_pow2_pos(1074);
    double_laws::small_naturals_are_exact(5);
    double_laws::small_naturals_are_exact(10);
    double_laws::small_naturals_are_exact(k);
    double_laws::small_naturals_are_exact(k + 1);
    let one = pow2(1074) as int;
    assert(k * one >= 5 * one) by (nonlinear_arith)
        requires
            k >= 5,
            one > 0,
    ;
    assert(0 < k * one) by (nonlinear_arith)
        requires
            k >= 5,
            one > 0,
    ;
    lemma_div_is_ordered(k * one, chosen.units(), one);
    lemma_div_multiples_vanish(k as int, one);
    lemma_mul_is_commutative(k as int, one);
    lemma_fundamental_div_mod(chosen.units(), one);
    let q = chosen.units() / one;
    assert(q < k + 1) by (nonlinear_arith)
        requires
            one * q <= chosen.units(),
            chosen.units() < (k + 1) * one,
            one > 0,
    ;
}

proof fn lemma_share_near(box_type: BoxType)
    ensures
        ({
            let share = backtest::allocation(box_type);
            let parts: int = match box_type {
                BoxType::LT => 4,
                BoxType::ST => 1,
            };
            &&& !share.is_nan()
            &&& !share.negative()
            &&& error_laws::near(share.units() * 5, pow2(1074) * parts, 52)
            &&& pow2(900) <= share.magnitude() <= pow2(1400)
        }),
{
    lemma2_to64();
    lemma2_to64_rest();
    lemma_pow2_pos(1074);
    let share = backtest::allocation(box_type);
    let parts: nat = match box_type {
        BoxType::LT => 4,
        BoxType::ST => 1,
    };
    error_laws::lemma_ratio_near(20 * parts, 100);
    let u = pow2(1074) as int;
    let x = share.units();
    assert(x * 100 == (x * 5) * 20);
    assert((20 * parts) * u == (u * parts) * 20) by (nonlinear_arith);
    error_laws::lemma_near_unscaled(x * 5, u * parts, 20, 52);
    let d = error_laws::distance(x * 5, u * parts);
    assert(u * parts >= u && u * parts <= 4 * u) by (nonlinear_arith)
        requires
            1 <= parts <= 4,
            u > 0,
    ;
    assert(2 * d <= u * parts) by (nonlinear_arith)
        requires
            pow2(52) * d <= u * parts,
            pow2(52) >= 2,
            d >= 0,
    ;
    lemma_pow2_adds(4, 1070);
    lemma_pow2_strictly_increases(900, 1070);
    lemma_pow2_adds(1, 1074);
    lemma_pow2_strictly_increases(1075, 1400);
}

/// What an opening is planned with: the configured leverage where the model names none, a value of
/// as many times the margin as the leverage says, and a margin of a fifth of the equity in the
/// short-term box and four fifths in the long-term one, each up to rounding.
pub proof fn planned_values_are_leveraged_shares(
    direction: PositionType,
    chosen: Option<Double>,
    box_type: BoxType,
    trend: PositionType,
    list: Seq<Report>,
    leverage: u32,
    equity: Double,
)
    requires
        error_laws::moderate(equity),
    ensures
        opening(direction, chosen, box_type, trend, list, leverage, equity) matches Opening::Open {
            leverage: used,
            margin,
            size_usdt,
            ..
        } ==> {
            &&& chosen is None ==> used == leverage
            &&& error_laws::near(size_usdt.units(), margin.units() * used, 50)
            &&& match box_type {
                BoxType::LT => error_laws::near(margin.units() * 5, equity.units() * 4, 50),
                BoxType::ST => error_laws::near(margin.units() * 5, equity.units(), 50),
            }
        },
{
    unnamed_leverage_is_the_configured_one(leverage);
    lemma_share_near(box_type);
    let share = backtest::allocation(box_type);
    let margin = equity.times(share);
    let parts: int = match box_type {
        BoxType::LT => 4,
        BoxType::ST => 1,
    };
    let u = pow2(1074) as int;
    let e = equity.units();
    let m = margin.units();
    let s = share.units();
    lemma_pow2_pos(1074);
    lemma_pow2_strictly_increases(900, 974);
    lemma_pow2_strictly_increases(1174, 1400);
    error_laws::lemma_times_moderate(equity, share);
    error_laws::lemma_near_scaled(m * u, e * s, 5, 52);
    error_laws::lemma_near_scaled(s * 5, u * parts, e, 52);
    assert((e * s) * 5 == (s * 5) * e) by (nonlinear_arith);
    assert((u * parts) * e == (e * parts) * u) by (nonlinear_arith);
    assert((m * u) * 5 == (m * 5) * u) by (nonlinear_arith);
    error_laws::lemma_near_chain((m * 5) * u, (e * s) * 5, (e * parts) * u, 52);
    error_laws::lemma_near_unscaled(m * 5, e * parts, u, 50);
    assert(e * parts == (if parts == 4 {
        e * 4
    } else {
        e
    })) by (nonlinear_arith)
        requires
            parts == 4 || parts == 1,
    ;
    let used = whole_leverage(chosen, leverage);
    lemma_margin_size(margin, m, e, parts, used);
}

proof fn lemma_margin_size(margin: Double, m: int, e: int, parts: int, used: u32)
    requires
        m == margin.units(),
        !margin.is_nan(),
        !margin.negative(),
        parts == 1 || parts == 4,
        pow2(974) <= e <= pow2(1174),
        error_laws::near(m * 5, e * parts, 50),
    ensures
        error_laws::near(margin.times(Double::of(used as int)).units(), m * used, 50),
{
    lemma2_to64();
    lemma2_to64_rest();
    lemma_pow2_pos(1074);
    let u = pow2(1074) as int;
    double_laws::small_naturals_are_exact(used as nat);
    let times = Double::of(used as int);
    let d = error_laws::distance(m * 5, e * parts);
    assert(pow2(50) == 0x4_0000_0000_0000);
    assert(4 * d <= e * parts) by (nonlinear_arith)
        requires
            pow2(50) * d <= e * parts,
            pow2(50) >= 4,
            d >= 0,
    ;
    assert(e <= e * parts <= 4 * e) by (nonlinear_arith)
        requires
            parts == 1 || parts == 4,
            e >= 0,
    ;
    lemma_pow2_adds(4, 970);
    lemma_pow2_strictly_increases(900, 970);
    lemma_pow2_adds(4, 1174);
    lemma_pow2_strictly_increases(1178, 1400);
    assert(pow2(900) <= m <= pow2(1400));
    let size = margin.times(times);
    if used == 0 {
        error_laws::lemma_finite_below(margin, 1400);
        assert((used as nat) * pow2(1074) == 0) by (nonlinear_arith)
            requires
                used == 0,
        ;
        assert(margin.magnitude() * times.magnitude() == 0) by (nonlinear_arith)
            requires
                times.magnitude() == 0,
        ;
        assert(size.units() == 0) by {
            reveal(Double::times);
            double_laws::lemma_nearest_sign(false, 0, pow2(1074));
            double_laws::lemma_nothing_nearest(false, pow2(1074));
            assert(0nat * pow2(0) == 0);
        }
        assert(m * used == 0) by (nonlinear_arith)
            requires
                used == 0,
        ;
        assert(error_laws::distance(0, 0) == 0);
        assert(pow2(50) * 0 == 0);
    } else {
        lemma_pow2_adds(32, 1074);
        lemma_pow2_strictly_increases(1106, 1400);
        lemma_pow2_strictly_increases(900, 1074);
        assert(u <= used * u <= pow2(32) * u) by (nonlinear_arith)
            requires
                1 <= used < pow2(32),
                u > 0,
        ;
        error_laws::lemma_times_moderate(margin, times);
        let z = size.units();
        assert(m * (used * u) == (m * used) * u) by (nonlinear_arith);
        error_laws::lemma_near_unscaled(z, m * used, u, 52);
        error_laws::lemma_near_weaker(z, m * used, 52, 50);
    }
}

/// A position is opened exactly where one is wanted, the long-term box goes with the trend, and no
/// open position of the direction is reported.
pub proof fn openings_wait_for_nothing_else(
    direction: PositionType,
    chosen: Option<Double>,
    box_type: BoxType,
    trend: PositionType,
    list: Seq<Report>,
    leverage: u32,
    equity: Double,
)
    ensures
        opening(direction, chosen, box_type, trend, list, leverage, equity) is Open <==> {
            &&& direction != PositionType::NoPosition
            &&& box_type == BoxType::LT ==> direction == trend
            &&& forall|i: int|
                0 <= i < list.len() && (#[trigger] list[i]).is_open() ==> list[i].direction()
                    != direction
        },
        opening(direction, chosen, box_type, trend, list, leverage, equity) matches Opening::Open {
            wanted,
            ..
        } ==> wanted == direction,
{
    closings_close_what_is_open(list, direction, 0);
}

/// A box that is told to close closes the first open position of its direction, whole, where there
/// is one, and a box that is not told closes nothing.
pub proof fn closings_take_the_first_of_their_direction(
    action: BoxAction,
    box_type: BoxType,
    trend: PositionType,
    list: Seq<Report>,
    leverage: u32,
    equity: Double,
    i: int,
)
    requires
        0 <= i < list.len(),
        list[i].is_open(),
        list[i].direction() == closing_direction(box_type, trend),
        forall|j: int|
            0 <= j < i && (#[trigger] list[j]).is_open() ==> list[j].direction()
                != list[i].direction(),
    ensures
        orders(action, box_type, trend, list, leverage, equity).close == (if action.cerrar {
            Some(Closing { direction: list[i].direction(), quantity: list[i].size() })
        } else {
            None
        }),
{
    lemma_first_open(list, list[i].direction(), 0, i);
}

proof fn lemma_first_open(list: Seq<Report>, t: PositionType, k: nat, i: int)
    requires
        k <= i < list.len(),
        list[i].is_open(),
        list[i].direction() == t,
        forall|j: int| k <= j < i && (#[trigger] list[j]).is_open() ==> list[j].direction() != t,
    ensures
        open_size(list, t, k) == Some(list[i].size()),
    decreases i - k,
{
    if k < i {
        assert(list[k as int].is_open() ==> list[k as int].direction() != t);
        lemma_first_open(list, t, k + 1, i);
    }
}

} // verus!
