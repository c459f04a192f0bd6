//! The simulation of the strategy: what the answer of the model does to the account.

use crate::decimal;
use crate::double::{Double, SIGN};
use crate::ledger::{Book, Ledger};
use crate::positions;
use crate::positions::{box_text, direction_text, entry_text, first_stop_of, EntryFigures};
use crate::text;
use crate::text::{same_text, uppercase};
use crate::types::{BoxAction, BoxType, Position, PositionType};
use vstd::prelude::*;
use vstd::string::*;

verus! {

/// The part of the distance to a total loss that is held back, by leverage.
pub open spec fn held_back(leverage: Double) -> Double {
    if leverage.at_most(Double::of(5)) {
        Double::ratio_of(5, 100)
    } else if leverage.at_most(Double::of(10)) {
        Double::ratio_of(8, 100)
    } else if leverage.at_most(Double::of(15)) {
        Double::ratio_of(10, 100)
    } else if leverage.at_most(Double::of(20)) {
        Double::ratio_of(12, 100)
    } else if leverage.at_most(Double::of(30)) {
        Double::ratio_of(15, 100)
    } else if leverage.at_most(Double::of(35)) {
        Double::ratio_of(18, 100)
    } else if leverage.at_most(Double::of(45)) {
        Double::ratio_of(20, 100)
    } else if leverage.at_most(Double::of(50)) {
        Double::ratio_of(25, 100)
    } else if leverage.at_most(Double::of(100)) {
        Double::ratio_of(30, 100)
    } else {
        Double::ratio_of(35, 100)
    }
}

/// How far the price may move against a position, in percent, before it is liquidated.
pub open spec fn liquidation_percentage(leverage: Double) -> Double {
    let whole = Double::of(100).over(leverage);
    whole.minus(whole.times(held_back(leverage))).minus(Double::ratio_of(45, 1000))
}

/// How far the price may move against a position, in percent, before it is liquidated.
pub fn get_liquidation_percentage(leverage: Double) -> (r: Double)
    ensures
        r == liquidation_percentage(leverage),
{
    let f = if leverage.le(Double::from_u64(5)) {
        Double::ratio(5, 100)
    } else if leverage.le(Double::from_u64(10)) {
        Double::ratio(8, 100)
    } else if leverage.le(Double::from_u64(15)) {
        Double::ratio(10, 100)
    } else if leverage.le(Double::from_u64(20)) {
        Double::ratio(12, 100)
    } else if leverage.le(Double::from_u64(30)) {
        Double::ratio(15, 100)
    } else if leverage.le(Double::from_u64(35)) {
        Double::ratio(18, 100)
    } else if leverage.le(Double::from_u64(45)) {
        Double::ratio(20, 100)
    } else if leverage.le(Double::from_u64(50)) {
        Double::ratio(25, 100)
    } else if leverage.le(Double::from_u64(100)) {
        Double::ratio(30, 100)
    } else {
        Double::ratio(35, 100)
    };
    let whole = Double::from_u64(100).div(leverage);
    whole.sub(whole.mul(f)).sub(Double::ratio(45, 1000))
}

/// The price at which a position is liquidated.
pub open spec fn liquidation_price(t: PositionType, price: Double, percent: Double) -> Double {
    let share = percent.over(Double::of(100));
    match t {
        PositionType::Long => price.times(Double::of(1).minus(share)),
        PositionType::Short => price.times(Double::of(1).plus(share)),
        PositionType::NoPosition => price,
    }
}

pub fn liquidation_price_of(t: PositionType, price: Double, percent: Double) -> (r: Double)
    ensures
        r == liquidation_price(t, price, percent),
{
    let share = percent.div(Double::from_u64(100));
    match t {
        PositionType::Long => price.mul(Double::from_u64(1).sub(share)),
        PositionType::Short => price.mul(Double::from_u64(1).add(share)),
        PositionType::NoPosition => price,
    }
}

/// The share of the equity that a box may bind as margin: 80 percent for the long-term box, 20
/// percent for the short-term one.
pub open spec fn allocation(box_type: BoxType) -> Double {
    match box_type {
        BoxType::LT => Double::ratio_of(80, 100),
        BoxType::ST => Double::ratio_of(20, 100),
    }
}

pub fn allocation_of(box_type: BoxType) -> (r: Double)
    ensures
        r == allocation(box_type),
{
    match box_type {
        BoxType::LT => Double::ratio(80, 100),
        BoxType::ST => Double::ratio(20, 100),
    }
}

/// The fixed terms of a simulation.
#[derive(Debug, Clone, Copy, PartialEq, Eq, Structural)]
pub struct Rules {
    pub leverage: Double,
    pub risk_percent: Double,
    pub fee_rate: Double,
    /// Whether the model may choose the leverage.
    pub dynamic: bool,
}

impl Rules {
    /// The terms of a simulation with a fee of 0.05 percent.
    pub fn new(leverage: Double, risk_percent: Double, dynamic: bool) -> (r: Rules)
        ensures
            r == (Rules { leverage, risk_percent, fee_rate: Double::ratio_of(5, 10000), dynamic }),
    {
        Rules { leverage, risk_percent, fee_rate: Double::ratio(5, 10000), dynamic }
    }
}

/// What became of the wish to open a position.
#[derive(Debug, Clone, Copy, PartialEq, Eq, Structural)]
pub enum BoxOutcome {
    /// No position was wanted.
    Nothing,
    /// The box trades only the other direction.
    AgainstTrend { wanted: PositionType },
    /// The box has no place for another position.
    Blocked { wanted: PositionType },
    /// The balance does not cover the margin and the fee.
    NotEnough { wanted: PositionType },
    Opened { position: Position },
}

/// The direction that an action in capitals asks for.
pub open spec fn wanted(action: Seq<char>) -> PositionType {
    if action == "LONG"@ {
        PositionType::Long
    } else if action == "SHORT"@ {
        PositionType::Short
    } else {
        PositionType::NoPosition
    }
}

/// The direction that an action in capitals asks for.
pub fn wanted_direction(action: &str) -> (r: PositionType)
    ensures
        r == wanted(action@),
{
    if same_text(action, "LONG") {
        PositionType::Long
    } else if same_text(action, "SHORT") {
        PositionType::Short
    } else {
        PositionType::NoPosition
    }
}

/// The first position of a box among the positions `k..`.
pub open spec fn first_in_box(s: Seq<Position>, box_type: BoxType, k: nat) -> Option<Position>
    decreases s.len() - k,
{
    if k >= s.len() {
        None
    } else if s[k as int].box_type == box_type {
        Some(s[k as int])
    } else {
        first_in_box(s, box_type, k + 1)
    }
}

/// How many of the first `n` positions stand in a box with a direction.
pub open spec fn count_in_box(s: Seq<Position>, box_type: BoxType, t: PositionType, n: nat) -> nat
    decreases n,
{
    if n == 0 {
        0
    } else {
        let rest = count_in_box(s, box_type, t, (n - 1) as nat);
        if s[n - 1].box_type == box_type && s[n - 1].position_type == t {
            rest + 1
        } else {
            rest
        }
    }
}

/// The margin that the first `n` positions bind in a box.
pub open spec fn margin_in_box(s: Seq<Position>, box_type: BoxType, n: nat) -> Double
    decreases n,
{
    if n == 0 {
        Double::empty_sum()
    } else {
        let rest = margin_in_box(s, box_type, (n - 1) as nat);
        if s[n - 1].box_type == box_type {
            rest.plus(s[n - 1].margin)
        } else {
            rest
        }
    }
}

/// Whether a box takes another position: at most two of one direction, and a further one only
/// while the first earns at least 200 percent on its margin.
pub open spec fn has_place(s: Seq<Position>, box_type: BoxType, t: PositionType, price: Double) -> bool {
    &&& count_in_box(s, box_type, t, s.len()) < 2
    &&& match first_in_box(s, box_type, 0) {
        Some(first) => Double::of(200).at_most(first.roe(price)),
        None => true,
    }
}

/// The margin for a new position: that of the first position in the box, or the risked share of
/// the equity, cut down to what the box has left.
pub open spec fn margin_wanted(
    s: Seq<Position>,
    box_type: BoxType,
    equity: Double,
    risk_percent: Double,
) -> Double {
    let margin = match first_in_box(s, box_type, 0) {
        Some(first) => first.margin,
        None => equity.times(risk_percent.over(Double::of(100))),
    };
    let bound = margin_in_box(s, box_type, s.len());
    let limit = equity.times(allocation(box_type));
    if limit.below(bound.plus(margin)) {
        limit.minus(bound)
    } else {
        margin
    }
}

/// The fee for opening a position with a margin.
pub open spec fn opening_cost(margin: Double, leverage: Double, fee_rate: Double) -> Double {
    margin.times(leverage).times(fee_rate)
}

/// The margin cut down to what the balance covers together with the fee.
pub open spec fn margin_covered(
    margin: Double,
    leverage: Double,
    fee_rate: Double,
    saldo: Double,
) -> Double {
    if saldo.below(margin.plus(opening_cost(margin, leverage, fee_rate))) {
        saldo.over(Double::of(1).plus(leverage.times(fee_rate))).minus(Double::ratio_of(5, 100))
    } else {
        margin
    }
}

/// Whether a margin is worth opening a position and the balance covers it with the fee.
pub open spec fn affordable(margin: Double, fee: Double, saldo: Double) -> bool {
    Double::ratio_of(1, 100).below(margin) && margin.plus(fee).at_most(saldo)
}

/// The position that a margin opens at a price.
pub open spec fn new_position(
    t: PositionType,
    box_type: BoxType,
    margin: Double,
    leverage: Double,
    price: Double,
    stop_loss: Option<Double>,
) -> Position {
    Position {
        position_type: t,
        margin,
        size_btc: margin.times(leverage).over(price),
        entry_price: price,
        liquidation_price: liquidation_price(t, price, liquidation_percentage(leverage)),
        stop_loss: match stop_loss {
            Some(stop) => Some(positions::first_stop(box_type, price, stop)),
            None => None,
        },
        box_type,
    }
}

/// The leverage that the model gets where it chooses one: between 5 and 10.
pub open spec fn leverage_allowed(chosen: Double) -> Double {
    if !Double::of(5).at_most(chosen) {
        Double::of(5)
    } else if Double::of(10).below(chosen) {
        Double::of(10)
    } else {
        chosen
    }
}

/// The leverage that the model gets where it chooses one.
pub fn allowed_leverage(chosen: Double) -> (r: Double)
    ensures
        r == leverage_allowed(chosen),
{
    let least = Double::from_u64(5);
    let most = Double::from_u64(10);
    if !least.le(chosen) {
        least
    } else if most.lt(chosen) {
        most
    } else {
        chosen
    }
}

/// The leverage of a new position.
pub open spec fn leverage_used(rules: Rules, chosen: Option<Double>) -> Double {
    if rules.dynamic {
        match chosen {
            Some(x) => leverage_allowed(x),
            None => rules.leverage,
        }
    } else {
        rules.leverage
    }
}

impl Book {
    /// The book after a position was opened.
    pub open spec fn opened(self, pos: Position, size_usdt: Double, fee: Double) -> Book {
        Book {
            saldo: self.saldo.minus(pos.margin.plus(fee)),
            positions: self.positions.push(pos),
            compras: if pos.position_type == PositionType::Long {
                self.compras + 1
            } else {
                self.compras
            },
            ventas: if pos.position_type == PositionType::Long {
                self.ventas
            } else {
                self.ventas + 1
            },
            entries: self.entries.push(
                positions::entry(
                    pos,
                    ""@,
                    pos.stop_loss,
                    EntryFigures {
                        close: Double::zero(),
                        volume: size_usdt,
                        pnl: Double::zero(),
                        roe: Double::zero(),
                        fee,
                    },
                ),
            ),
            acciones: self.acciones.push(
                "ABRIR_"@ + positions::box_name(pos.box_type) + "_"@ + positions::direction_name(
                    pos.position_type,
                ),
            ),
            precios: self.precios.push(decimal::fixed(pos.entry_price, 2)),
            ..self
        }
    }

    /// The book after the wish to open a position in a box, and what became of the wish.
    pub open spec fn opening(
        self,
        t: PositionType,
        box_type: BoxType,
        only: Option<PositionType>,
        chosen: Option<Double>,
        stop_loss: Option<Double>,
        rules: Rules,
        equity: Double,
        price: Double,
    ) -> (Book, BoxOutcome) {
        let leverage = leverage_used(rules, chosen);
        let margin = margin_covered(
            margin_wanted(self.positions, box_type, equity, rules.risk_percent),
            leverage,
            rules.fee_rate,
            self.saldo,
        );
        let fee = opening_cost(margin, leverage, rules.fee_rate);
        if t == PositionType::NoPosition {
            (self, BoxOutcome::Nothing)
        } else if only is Some && only != Some(t) {
            (self, BoxOutcome::AgainstTrend { wanted: t })
        } else if !has_place(self.positions, box_type, t, price) {
            (self, BoxOutcome::Blocked { wanted: t })
        } else if !affordable(margin, fee, self.saldo) {
            (self, BoxOutcome::NotEnough { wanted: t })
        } else {
            let pos = new_position(t, box_type, margin, leverage, price, stop_loss);
            (
                self.opened(pos, margin.times(leverage), fee),
                BoxOutcome::Opened { position: pos },
            )
        }
    }

    /// The book after an action of the model in one box: closing, then moving stops, then opening.
    pub open spec fn acted(
        self,
        action: BoxAction,
        box_type: BoxType,
        only: Option<PositionType>,
        rules: Rules,
        equity: Double,
        price: Double,
    ) -> (Book, BoxOutcome) {
        let after_close = if action.cerrar {
            self.box_closed(box_type, price, rules.fee_rate)
        } else {
            self
        };
        let after_stops = match action.stop_loss {
            Some(stop) => after_close.stops_moved(box_type, stop, price, 0),
            None => after_close,
        };
        after_stops.opening(
            wanted(text::uppercase_of(action.accion@)),
            box_type,
            only,
            action.apalancamiento,
            action.stop_loss,
            rules,
            equity,
            price,
        )
    }
}

fn first_of_box(s: &Vec<Position>, box_type: BoxType) -> (r: Option<Position>)
    ensures
        r == first_in_box(s@, box_type, 0),
{
    let mut k: usize = 0;
    while k < s.len()
        invariant
            k <= s@.len(),
            first_in_box(s@, box_type, k as nat) == first_in_box(s@, box_type, 0),
        decreases s@.len() - k,
    {
        if s[k].box_type == box_type {
            return Some(s[k]);
        }
        k = k + 1;
    }
    None
}

fn margin_of_box(s: &Vec<Position>, box_type: BoxType) -> (r: Double)
    ensures
        r == margin_in_box(s@, box_type, s@.len()),
{
    let mut sum = Double { bits: SIGN };
    let mut n: usize = 0;
    while n < s.len()
        invariant
            n <= s@.len(),
            sum == margin_in_box(s@, box_type, n as nat),
        decreases s@.len() - n,
    {
        if s[n].box_type == box_type {
            sum = sum.add(s[n].margin);
        }
        n = n + 1;
    }
    sum
}

/// Whether a box takes another position of a direction.
pub fn box_has_place(s: &Vec<Position>, box_type: BoxType, t: PositionType, price: Double) -> (r: bool)
    ensures
        r == has_place(s@, box_type, t, price),
{
    let mut count: usize = 0;
    let mut n: usize = 0;
    while n < s.len()
        invariant
            n <= s@.len(),
            count <= n,
            count == count_in_box(s@, box_type, t, n as nat),
        decreases s@.len() - n,
    {
        if s[n].box_type == box_type && s[n].position_type == t {
            count = count + 1;
        }
        n = n + 1;
    }
    if count >= 2 {
        return false;
    }
    match first_of_box(s, box_type) {
        Some(first) => Double::from_u64(200).le(first.roe_at(price)),
        None => true,
    }
}

impl Ledger {
    /// Opens a position in a box if the box, the balance and the trend allow it.
    pub fn open_position(
        &mut self,
        t: PositionType,
        box_type: BoxType,
        only: Option<PositionType>,
        chosen: Option<Double>,
        stop_loss: Option<Double>,
        rules: &Rules,
        equity: Double,
        price: Double,
    ) -> (r: BoxOutcome)
        requires
            old(self).wf(),
        ensures
            final(self).wf(),
            (final(self)@, r) == old(self)@.opening(
                t,
                box_type,
                only,
                chosen,
                stop_loss,
                *rules,
                equity,
                price,
            ),
    {
        if t == PositionType::NoPosition {
            return BoxOutcome::Nothing;
        }
        match only {
            Some(direction) => {
                if direction != t {
                    return BoxOutcome::AgainstTrend { wanted: t };
                }
            },
            None => {},
        }
        if !box_has_place(&self.active_positions, box_type, t, price) {
            return BoxOutcome::Blocked { wanted: t };
        }
        let leverage = if rules.dynamic {
            match chosen {
                Some(x) => allowed_leverage(x),
                None => rules.leverage,
            }
        } else {
            rules.leverage
        };
        let mut margin = match first_of_box(&self.active_positions, box_type) {
            Some(first) => first.margin,
            None => equity.mul(rules.risk_percent.div(Double::from_u64(100))),
        };
        let bound = margin_of_box(&self.active_positions, box_type);
        let limit = equity.mul(allocation_of(box_type));
        if limit.lt(bound.add(margin)) {
            margin = limit.sub(bound);
        }
        let mut size_usdt = margin.mul(leverage);
        let mut fee = size_usdt.mul(rules.fee_rate);
        if self.saldo_usdt.lt(margin.add(fee)) {
            margin = self.saldo_usdt.div(
                Double::from_u64(1).add(leverage.mul(rules.fee_rate)),
            ).sub(Double::ratio(5, 100));
            size_usdt = margin.mul(leverage);
            fee = size_usdt.mul(rules.fee_rate);
        }
        if !(Double::ratio(1, 100).lt(margin) && margin.add(fee).le(self.saldo_usdt)) {
            return BoxOutcome::NotEnough { wanted: t };
        }
        let placed = first_stop_of(box_type, price, stop_loss);
        let position = Position {
            position_type: t,
            margin,
            size_btc: size_usdt.div(price),
            entry_price: price,
            liquidation_price: liquidation_price_of(t, price, get_liquidation_percentage(leverage)),
            stop_loss: placed,
            box_type,
        };
        let figures = EntryFigures {
            close: Double { bits: 0 },
            volume: size_usdt,
            pnl: Double { bits: 0 },
            roe: Double { bits: 0 },
            fee,
        };
        let entry = entry_text(&position, "", placed, figures);
        let mut action = "ABRIR_".to_owned();
        action.append(box_text(box_type));
        action.append("_");
        action.append(direction_text(t));
        assert(self.trade_pnls.len() <= usize::MAX && self.active_positions.len() <= usize::MAX);
        self.saldo_usdt = self.saldo_usdt.sub(margin.add(fee));
        self.active_positions.push(position);
        if t == PositionType::Long {
            self.num_compras = self.num_compras + 1;
        } else {
            self.num_ventas = self.num_ventas + 1;
        }
        self.record(action, price, entry);
        assert(self@ =~= old(self)@.opened(position, size_usdt, fee));
        BoxOutcome::Opened { position }
    }

    /// Carries out what the model wants done in one box: closing, then moving stops, then opening.
    /// With `only` set, the box opens positions of that direction alone.
    pub fn execute_box_action(
        &mut self,
        box_action: &BoxAction,
        box_type: BoxType,
        only: Option<PositionType>,
        rules: &Rules,
        equity: Double,
        precio_actual: Double,
    ) -> (r: BoxOutcome)
        requires
            old(self).wf(),
        ensures
            final(self).wf(),
            (final(self)@, r) == old(self)@.acted(
                *box_action,
                box_type,
                only,
                *rules,
                equity,
                precio_actual,
            ),
    {
        if box_action.cerrar {
            self.close_box(box_type, precio_actual, rules.fee_rate);
        }
        match box_action.stop_loss {
            Some(stop) => {
                self.move_stops(box_type, stop, precio_actual);
            },
            None => {},
        }
        let upper = uppercase(box_action.accion.as_str());
        let t = wanted_direction(upper.as_str());
        self.open_position(
            t,
            box_type,
            only,
            box_action.apalancamiento,
            box_action.stop_loss,
            rules,
            equity,
            precio_actual,
        )
    }
}

} // verus!
