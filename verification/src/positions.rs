//! What a position is worth and how it is written down.

use crate::decimal;
use crate::decimal::fixed_text;
use crate::double::Double;
use crate::types::{BoxType, Candle, Position, PositionType};
use vstd::prelude::*;
use vstd::string::*;

verus! {

/// The name of a direction.
pub open spec fn direction_name(t: PositionType) -> Seq<char> {
    match t {
        PositionType::NoPosition => "None"@,
        PositionType::Long => "Long"@,
        PositionType::Short => "Short"@,
    }
}

/// The name of a direction.
pub fn direction_text(t: PositionType) -> (r: &'static str)
    ensures
        r@ == direction_name(t),
{
    match t {
        PositionType::NoPosition => "None",
        PositionType::Long => "Long",
        PositionType::Short => "Short",
    }
}

/// The name of a box.
pub open spec fn box_name(b: BoxType) -> Seq<char> {
    match b {
        BoxType::LT => "LT"@,
        BoxType::ST => "ST"@,
    }
}

/// The name of a box.
pub fn box_text(b: BoxType) -> (r: &'static str)
    ensures
        r@ == box_name(b),
{
    match b {
        BoxType::LT => "LT",
        BoxType::ST => "ST",
    }
}

/// Why a candle ends a position, and at which price.
#[derive(Debug, Clone, Copy, PartialEq, Eq, Structural)]
pub enum Exit {
    Liquidation,
    StopLoss { price: Double },
}

/// 2 percent below an entry price.
pub open spec fn lowest_stop(entry_price: Double) -> Double {
    entry_price.times(Double::ratio_of(98, 100))
}

/// 2 percent above an entry price.
pub open spec fn highest_stop(entry_price: Double) -> Double {
    entry_price.times(Double::ratio_of(102, 100))
}

/// The stop loss of a new position at a price: in the short-term box at most 2 percent away.
pub open spec fn first_stop(box_type: BoxType, price: Double, stop: Double) -> Double {
    if box_type == BoxType::ST && stop.below(lowest_stop(price)) {
        lowest_stop(price)
    } else if box_type == BoxType::ST && highest_stop(price).below(stop) {
        highest_stop(price)
    } else {
        stop
    }
}

/// The stop loss of a new position at a price, if one is asked for.
pub fn first_stop_of(box_type: BoxType, price: Double, stop: Option<Double>) -> (r: Option<Double>)
    ensures
        r == (match stop {
            Some(stop) => Some(first_stop(box_type, price, stop)),
            None => None,
        }),
{
    match stop {
        Some(stop) => {
            let low = price.mul(Double::ratio(98, 100));
            let high = price.mul(Double::ratio(102, 100));
            if box_type == BoxType::ST && stop.lt(low) {
                Some(low)
            } else if box_type == BoxType::ST && high.lt(stop) {
                Some(high)
            } else {
                Some(stop)
            }
        },
        None => None,
    }
}

impl Position {
    /// The gain or loss of the position at a price, before fees.
    pub open spec fn pnl(self, price: Double) -> Double {
        match self.position_type {
            PositionType::Long => price.minus(self.entry_price).times(self.size_btc),
            PositionType::Short => self.entry_price.minus(price).times(self.size_btc),
            PositionType::NoPosition => Double::zero(),
        }
    }

    /// The stop loss that the position gets where one is asked for: in the short-term box at most
    /// 2 percent from the entry price on the losing side. On the winning side it may follow the
    /// price.
    pub open spec fn stop_for(self, stop: Double) -> Double {
        let low = lowest_stop(self.entry_price);
        let high = highest_stop(self.entry_price);
        if self.box_type == BoxType::ST && self.position_type == PositionType::Long && stop.below(
            low,
        ) {
            low
        } else if self.box_type == BoxType::ST && self.position_type == PositionType::Short
            && high.below(stop) {
            high
        } else {
            stop
        }
    }

    /// The gain or loss in percent of the margin.
    pub open spec fn roe(self, price: Double) -> Double {
        self.pnl(price).over(self.margin).times(Double::of(100))
    }

    /// The size of the position in the quote currency.
    pub open spec fn volume(self, price: Double) -> Double {
        self.size_btc.times(price)
    }

    /// The fee that was paid when the position was opened.
    pub open spec fn opening_fee(self, fee_rate: Double) -> Double {
        self.size_btc.times(self.entry_price).times(fee_rate)
    }

    /// The fee for closing the position at a price.
    pub open spec fn closing_fee(self, price: Double, fee_rate: Double) -> Double {
        self.volume(price).times(fee_rate)
    }

    /// What flows back to the balance when the position is closed at a price.
    pub open spec fn proceeds(self, price: Double, fee_rate: Double) -> Double {
        self.margin.plus(self.pnl(price)).minus(self.closing_fee(price, fee_rate))
    }

    /// The gain or loss after both fees.
    pub open spec fn net_pnl(self, price: Double, fee_rate: Double) -> Double {
        self.pnl(price).minus(self.opening_fee(fee_rate)).minus(self.closing_fee(price, fee_rate))
    }

    /// Whether the price went the way of the position.
    pub open spec fn right_way(self, price: Double) -> bool {
        match self.position_type {
            PositionType::Long => self.entry_price.below(price),
            PositionType::Short => price.below(self.entry_price),
            PositionType::NoPosition => false,
        }
    }

    /// How a candle ends the position: the liquidation price counts before the stop loss.
    pub open spec fn exit(self, candle: Candle) -> Option<Exit> {
        match self.position_type {
            PositionType::Long => if candle.low.at_most(self.liquidation_price) {
                Some(Exit::Liquidation)
            } else {
                match self.stop_loss {
                    Some(price) => if candle.low.at_most(price) {
                        Some(Exit::StopLoss { price })
                    } else {
                        None
                    },
                    None => None,
                }
            },
            PositionType::Short => if self.liquidation_price.at_most(candle.high) {
                Some(Exit::Liquidation)
            } else {
                match self.stop_loss {
                    Some(price) => if price.at_most(candle.high) {
                        Some(Exit::StopLoss { price })
                    } else {
                        None
                    },
                    None => None,
                }
            },
            PositionType::NoPosition => None,
        }
    }

    /// The stop loss that the position gets where one is asked for.
    pub fn stop_at(&self, stop: Double) -> (r: Double)
        ensures
            r == self.stop_for(stop),
    {
        let low = self.entry_price.mul(Double::ratio(98, 100));
        let high = self.entry_price.mul(Double::ratio(102, 100));
        if self.box_type == BoxType::ST && self.position_type == PositionType::Long && stop.lt(low) {
            low
        } else if self.box_type == BoxType::ST && self.position_type == PositionType::Short
            && high.lt(stop) {
            high
        } else {
            stop
        }
    }

    pub fn pnl_at(&self, price: Double) -> (r: Double)
        ensures
            r == self.pnl(price),
    {
        match self.position_type {
            PositionType::Long => price.sub(self.entry_price).mul(self.size_btc),
            PositionType::Short => self.entry_price.sub(price).mul(self.size_btc),
            PositionType::NoPosition => Double { bits: 0 },
        }
    }

    pub fn roe_at(&self, price: Double) -> (r: Double)
        ensures
            r == self.roe(price),
    {
        self.pnl_at(price).div(self.margin).mul(Double::from_u64(100))
    }

    pub fn volume_at(&self, price: Double) -> (r: Double)
        ensures
            r == self.volume(price),
    {
        self.size_btc.mul(price)
    }

    pub fn opening_fee_at(&self, fee_rate: Double) -> (r: Double)
        ensures
            r == self.opening_fee(fee_rate),
    {
        self.size_btc.mul(self.entry_price).mul(fee_rate)
    }

    pub fn closing_fee_at(&self, price: Double, fee_rate: Double) -> (r: Double)
        ensures
            r == self.closing_fee(price, fee_rate),
    {
        self.volume_at(price).mul(fee_rate)
    }

    pub fn proceeds_at(&self, price: Double, fee_rate: Double) -> (r: Double)
        ensures
            r == self.proceeds(price, fee_rate),
    {
        self.margin.add(self.pnl_at(price)).sub(self.closing_fee_at(price, fee_rate))
    }

    pub fn net_pnl_at(&self, price: Double, fee_rate: Double) -> (r: Double)
        ensures
            r == self.net_pnl(price, fee_rate),
    {
        self.pnl_at(price).sub(self.opening_fee_at(fee_rate)).sub(
            self.closing_fee_at(price, fee_rate),
        )
    }

    pub fn went_right(&self, price: Double) -> (r: bool)
        ensures
            r == self.right_way(price),
    {
        match self.position_type {
            PositionType::Long => self.entry_price.lt(price),
            PositionType::Short => price.lt(self.entry_price),
            PositionType::NoPosition => false,
        }
    }

    pub fn exit_in(&self, candle: &Candle) -> (r: Option<Exit>)
        ensures
            r == self.exit(*candle),
    {
        match self.position_type {
            PositionType::Long => if candle.low.le(self.liquidation_price) {
                Some(Exit::Liquidation)
            } else {
                match self.stop_loss {
                    Some(price) => if candle.low.le(price) {
                        Some(Exit::StopLoss { price })
                    } else {
                        None
                    },
                    None => None,
                }
            },
            PositionType::Short => if self.liquidation_price.le(candle.high) {
                Some(Exit::Liquidation)
            } else {
                match self.stop_loss {
                    Some(price) => if price.le(candle.high) {
                        Some(Exit::StopLoss { price })
                    } else {
                        None
                    },
                    None => None,
                }
            },
            PositionType::NoPosition => None,
        }
    }
}

/// A stop loss as text.
pub open spec fn stop_text(stop: Option<Double>) -> Seq<char> {
    match stop {
        Some(price) => decimal::fixed(price, 2) + " USDT"@,
        None => "None"@,
    }
}

pub fn stop_as_text(stop: Option<Double>) -> (r: String)
    ensures
        r@ == stop_text(stop),
{
    match stop {
        Some(price) => {
            let mut out = fixed_text(price, 2);
            out.append(" USDT");
            out
        },
        None => "None".to_owned(),
    }
}

/// The numbers of an entry in the log of a step.
pub struct EntryFigures {
    pub close: Double,
    pub volume: Double,
    pub pnl: Double,
    pub roe: Double,
    pub fee: Double,
}

/// An entry in the log of a step: the position, how it ended, and its figures.
#[verifier::opaque]
pub open spec fn entry(
    pos: Position,
    ending: Seq<char>,
    stop: Option<Double>,
    figures: EntryFigures,
) -> Seq<char> {
    box_name(pos.box_type) + ": "@ + direction_name(pos.position_type) + "\nEntry Price: "@
        + decimal::fixed(pos.entry_price, 2) + " USDT\nClose Price: "@ + decimal::fixed(
        figures.close,
        2,
    ) + " USDT"@ + ending + "\nMargin: "@ + decimal::fixed(pos.margin, 2) + " USDT\nVolume: "@
        + decimal::fixed(pos.size_btc, 6) + " BTC ($"@ + decimal::fixed(figures.volume, 2)
        + ")\nPNL: "@ + decimal::fixed(figures.pnl, 2) + " USDT (ROE: "@ + decimal::fixed(
        figures.roe,
        2,
    ) + "%)\nStop Loss: "@ + stop_text(stop) + "\nFee: "@ + decimal::fixed(figures.fee, 2)
        + " USDT"@
}

pub fn entry_text(
    pos: &Position,
    ending: &str,
    stop: Option<Double>,
    figures: EntryFigures,
) -> (r: String)
    ensures
        r@ == entry(*pos, ending@, stop, figures),
{
    proof {
        reveal(entry);
    }
    let mut out = box_text(pos.box_type).to_owned();
    out.append(": ");
    out.append(direction_text(pos.position_type));
    out.append("\nEntry Price: ");
    out.append(fixed_text(pos.entry_price, 2).as_str());
    out.append(" USDT\nClose Price: ");
    out.append(fixed_text(figures.close, 2).as_str());
    out.append(" USDT");
    out.append(ending);
    out.append("\nMargin: ");
    out.append(fixed_text(pos.margin, 2).as_str());
    out.append(" USDT\nVolume: ");
    out.append(fixed_text(pos.size_btc, 6).as_str());
    out.append(" BTC ($");
    out.append(fixed_text(figures.volume, 2).as_str());
    out.append(")\nPNL: ");
    out.append(fixed_text(figures.pnl, 2).as_str());
    out.append(" USDT (ROE: ");
    out.append(fixed_text(figures.roe, 2).as_str());
    out.append("%)\nStop Loss: ");
    out.append(stop_as_text(stop).as_str());
    out.append("\nFee: ");
    out.append(fixed_text(figures.fee, 2).as_str());
    out.append(" USDT");
    out
}

} // verus!
