//! The records that the engine works on. Numbers are binary64 values held as `Double`.

use crate::double::Double;
use vstd::prelude::*;

verus! {

/// The direction of a position.
#[derive(Debug, Clone, Copy, PartialEq, Eq, Structural)]
pub enum PositionType {
    NoPosition,
    Long,
    Short,
}

/// The two independent boxes of the strategy: long term and short term.
#[derive(Debug, Clone, Copy, PartialEq, Eq, Structural)]
pub enum BoxType {
    LT,
    ST,
}

/// An open position of the simulation.
#[derive(Debug, Clone, Copy, PartialEq, Eq, Structural)]
pub struct Position {
    pub position_type: PositionType,
    pub margin: Double,
    pub size_btc: Double,
    pub entry_price: Double,
    pub liquidation_price: Double,
    pub stop_loss: Option<Double>,
    pub box_type: BoxType,
}

/// One candle of the market.
#[derive(Debug, Clone, Copy, PartialEq, Eq, Structural)]
pub struct Candle {
    pub open_time: i64,
    pub open: Double,
    pub high: Double,
    pub low: Double,
    pub close: Double,
    pub volume: Double,
    pub close_time: i64,
}

/// What the model wants done in one box.
#[derive(Debug, Clone)]
pub struct BoxAction {
    pub accion: String,
    pub cerrar: bool,
    pub apalancamiento: Option<Double>,
    pub stop_loss: Option<Double>,
}

/// The answer of the model for both boxes.
#[derive(Debug, Clone)]
pub struct GemmaResponse {
    pub analisis: Option<String>,
    pub lt_box: BoxAction,
    pub st_box: BoxAction,
}

/// The balances of the exchange account.
#[derive(Debug, Clone)]
pub struct BingXAccountInfo {
    pub wallet_balance: Double,
    pub available_margin: Double,
    pub user_id: String,
}

} // verus!
