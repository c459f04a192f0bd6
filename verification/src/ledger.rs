//! The account of the simulation: balance, open positions, closed trades, and the record of the
//! current step.

use crate::decimal;
use crate::decimal::fixed_text;
use crate::double::Double;
use crate::positions;
use crate::positions::{box_text, direction_text, entry_text, EntryFigures, Exit};
use crate::text;
use crate::types::{BoxType, Candle, Position, PositionType};
use vstd::prelude::*;
use vstd::string::*;

verus! {

/// The account of the simulation. The counters are wide enough for as many trades as a list can
/// hold.
pub struct Ledger {
    pub saldo_usdt: Double,
    pub active_positions: Vec<Position>,
    pub trade_pnls: Vec<Double>,
    pub num_compras: u128,
    pub num_ventas: u128,
    pub num_liquidaciones: u128,
    pub directional_score: i128,
    pub paso_acciones: Vec<String>,
    pub paso_precios: Vec<String>,
    pub step_positions_log: Vec<String>,
}

/// What a ledger holds.
#[verifier::ext_equal]
pub struct Book {
    pub saldo: Double,
    pub positions: Seq<Position>,
    pub pnls: Seq<Double>,
    pub compras: int,
    pub ventas: int,
    pub liquidaciones: int,
    pub score: int,
    pub acciones: Seq<Seq<char>>,
    pub precios: Seq<Seq<char>>,
    pub entries: Seq<Seq<char>>,
}

impl View for Ledger {
    type V = Book;

    open spec fn view(&self) -> Book {
        Book {
            saldo: self.saldo_usdt,
            positions: self.active_positions@,
            pnls: self.trade_pnls@,
            compras: self.num_compras as int,
            ventas: self.num_ventas as int,
            liquidaciones: self.num_liquidaciones as int,
            score: self.directional_score as int,
            acciones: text::views(self.paso_acciones@),
            precios: text::views(self.paso_precios@),
            entries: text::views(self.step_positions_log@),
        }
    }
}

impl Book {
    /// No counter runs ahead of the trades, and every closed trade moves the score by ten at most.
    pub open spec fn wf(self) -> bool {
        self.slack(0)
    }

    /// The same while `extra` positions are off the list.
    pub open spec fn slack(self, extra: nat) -> bool {
        &&& -10 * self.pnls.len() <= self.score <= 10 * self.pnls.len()
        &&& 0 <= self.compras
        &&& 0 <= self.ventas
        &&& 0 <= self.liquidaciones
        &&& self.compras + self.ventas + self.liquidaciones <= self.positions.len() + extra + 2
            * self.pnls.len()
    }

    /// The score after a trade that went the right or the wrong way.
    pub open spec fn scored(self, right: bool) -> int {
        if right {
            self.score + 10
        } else {
            self.score - 10
        }
    }

    /// The book after the position `pos`, already taken off the list, was closed at the market.
    pub open spec fn closed(self, pos: Position, price: Double, fee_rate: Double) -> Book {
        Book {
            saldo: self.saldo.plus(pos.proceeds(price, fee_rate)),
            pnls: self.pnls.push(pos.net_pnl(price, fee_rate)),
            score: self.scored(pos.right_way(price)),
            compras: if pos.position_type == PositionType::Long {
                self.compras
            } else {
                self.compras + 1
            },
            ventas: if pos.position_type == PositionType::Long {
                self.ventas + 1
            } else {
                self.ventas
            },
            entries: self.entries.push(
                positions::entry(
                    pos,
                    " (CLOSED)"@,
                    pos.stop_loss,
                    EntryFigures {
                        close: price,
                        volume: pos.volume(price),
                        pnl: pos.pnl(price),
                        roe: pos.roe(price),
                        fee: pos.opening_fee(fee_rate).plus(pos.closing_fee(price, fee_rate)),
                    },
                ),
            ),
            acciones: self.acciones.push(
                "CERRAR_"@ + positions::box_name(pos.box_type) + "_"@ + positions::direction_name(
                    pos.position_type,
                ),
            ),
            precios: self.precios.push(decimal::fixed(price, 2)),
            ..self
        }
    }

    /// The loss of a position that is liquidated: its margin and the fee paid for opening it.
    pub open spec fn liquidation_loss(pos: Position, fee_rate: Double) -> Double {
        pos.margin.negated().minus(pos.opening_fee(fee_rate))
    }

    /// The book after `pos`, already taken off the list, was liquidated. The loss is listed twice.
    pub open spec fn liquidated(self, pos: Position, fee_rate: Double) -> Book {
        let loss = Book::liquidation_loss(pos, fee_rate);
        let price = pos.liquidation_price;
        Book {
            pnls: self.pnls.push(loss).push(loss),
            score: self.score - 10,
            liquidaciones: self.liquidaciones + 1,
            entries: self.entries.push(
                positions::entry(
                    pos,
                    " (LIQUIDATED)"@,
                    None,
                    EntryFigures {
                        close: price,
                        volume: pos.volume(price),
                        pnl: pos.margin.negated(),
                        roe: Double::of(-100),
                        fee: pos.opening_fee(fee_rate).plus(pos.closing_fee(price, fee_rate)),
                    },
                ),
            ),
            acciones: self.acciones.push(
                "LIQUIDACION_"@ + positions::direction_name(pos.position_type),
            ),
            precios: self.precios.push(decimal::fixed(price, 2)),
            ..self
        }
    }

    /// The book after `pos`, already taken off the list, hit its stop loss. The result is listed
    /// twice.
    pub open spec fn stopped(self, pos: Position, price: Double, fee_rate: Double) -> Book {
        let net = pos.net_pnl(price, fee_rate);
        Book {
            saldo: self.saldo.plus(pos.proceeds(price, fee_rate)),
            pnls: self.pnls.push(net).push(net),
            score: self.scored(pos.right_way(price)),
            compras: if pos.position_type == PositionType::Long {
                self.compras
            } else {
                self.compras + 1
            },
            ventas: if pos.position_type == PositionType::Long {
                self.ventas + 1
            } else {
                self.ventas
            },
            entries: self.entries.push(
                positions::entry(
                    pos,
                    " SL"@,
                    pos.stop_loss,
                    EntryFigures {
                        close: price,
                        volume: pos.volume(price),
                        pnl: pos.pnl(price),
                        roe: pos.roe(price),
                        fee: pos.opening_fee(fee_rate).plus(pos.closing_fee(price, fee_rate)),
                    },
                ),
            ),
            acciones: self.acciones.push(
                "STOP_LOSS_"@ + positions::direction_name(pos.position_type),
            ),
            precios: self.precios.push(decimal::fixed(price, 2)),
            ..self
        }
    }

    /// The book without its `i`-th position.
    pub open spec fn without(self, i: int) -> Book {
        Book { positions: self.positions.remove(i), ..self }
    }

    /// The book after the candle ended what it ends among the first `k` positions, the last of
    /// them first.
    pub open spec fn exits(self, candle: Candle, fee_rate: Double, k: nat) -> Book
        decreases k,
    {
        if k == 0 {
            self
        } else {
            let i = (k - 1) as nat;
            let pos = self.positions[i as int];
            match pos.exit(candle) {
                None => self.exits(candle, fee_rate, i),
                Some(Exit::Liquidation) => self.without(i as int).liquidated(pos, fee_rate).exits(
                    candle,
                    fee_rate,
                    i,
                ),
                Some(Exit::StopLoss { price }) => self.without(i as int).stopped(
                    pos,
                    price,
                    fee_rate,
                ).exits(candle, fee_rate, i),
            }
        }
    }

    /// The book after all positions of a box in `todo` were closed, from first to last; the others
    /// are put back on the list.
    pub open spec fn closing(
        self,
        todo: Seq<Position>,
        box_type: BoxType,
        price: Double,
        fee_rate: Double,
    ) -> Book
        decreases todo.len(),
    {
        if todo.len() == 0 {
            self
        } else {
            let pos = todo[0];
            let next = if pos.box_type == box_type {
                self.closed(pos, price, fee_rate)
            } else {
                Book { positions: self.positions.push(pos), ..self }
            };
            next.closing(todo.skip(1), box_type, price, fee_rate)
        }
    }

    /// The book after every position of a box was closed at the market.
    pub open spec fn box_closed(self, box_type: BoxType, price: Double, fee_rate: Double) -> Book {
        Book { positions: Seq::empty(), ..self }.closing(self.positions, box_type, price, fee_rate)
    }

    /// The book after the stop loss of the `k`-th position was moved.
    pub open spec fn stop_moved(self, stop: Double, price: Double, k: int) -> Book {
        let pos = self.positions[k];
        Book {
            positions: self.positions.update(
                k,
                Position { stop_loss: Some(pos.stop_for(stop)), ..pos },
            ),
            entries: self.entries.push(
                positions::entry(
                    pos,
                    ""@,
                    Some(pos.stop_for(stop)),
                    EntryFigures {
                        close: Double::zero(),
                        volume: pos.volume(price),
                        pnl: pos.pnl(price),
                        roe: pos.roe(price),
                        fee: Double::zero(),
                    },
                ),
            ),
            ..self
        }
    }

    /// The book after the stop loss of the positions `k..` of a box was moved.
    pub open spec fn stops_moved(self, box_type: BoxType, stop: Double, price: Double, k: nat) -> Book
        decreases self.positions.len() - k,
    {
        if k >= self.positions.len() {
            self
        } else if self.positions[k as int].box_type == box_type {
            self.stop_moved(stop, price, k as int).stops_moved(box_type, stop, price, k + 1)
        } else {
            self.stops_moved(box_type, stop, price, k + 1)
        }
    }
}

impl Ledger {
    pub open spec fn wf(&self) -> bool {
        self@.wf()
    }

    /// An account with a balance and nothing else.
    pub fn new(saldo_usdt: Double) -> (r: Ledger)
        ensures
            r.wf(),
            r@ == (Book {
                saldo: saldo_usdt,
                positions: Seq::empty(),
                pnls: Seq::empty(),
                compras: 0,
                ventas: 0,
                liquidaciones: 0,
                score: 0,
                acciones: Seq::empty(),
                precios: Seq::empty(),
                entries: Seq::empty(),
            }),
    {
        let r = Ledger {
            saldo_usdt,
            active_positions: Vec::new(),
            trade_pnls: Vec::new(),
            num_compras: 0,
            num_ventas: 0,
            num_liquidaciones: 0,
            directional_score: 0,
            paso_acciones: Vec::new(),
            paso_precios: Vec::new(),
            step_positions_log: Vec::new(),
        };
        assert(r@ =~= Book {
            saldo: saldo_usdt,
            positions: Seq::empty(),
            pnls: Seq::empty(),
            compras: 0,
            ventas: 0,
            liquidaciones: 0,
            score: 0,
            acciones: Seq::empty(),
            precios: Seq::empty(),
            entries: Seq::empty(),
        });
        r
    }

    /// Forgets the record of the last step.
    pub fn begin_step(&mut self)
        ensures
            final(self)@ == (Book {
                acciones: Seq::empty(),
                precios: Seq::empty(),
                entries: Seq::empty(),
                ..old(self)@
            }),
            old(self).wf() ==> final(self).wf(),
    {
        self.paso_acciones = Vec::new();
        self.paso_precios = Vec::new();
        self.step_positions_log = Vec::new();
        assert(self@ =~= Book {
            acciones: Seq::empty(),
            precios: Seq::empty(),
            entries: Seq::empty(),
            ..old(self)@
        });
    }

    /// Writes one action of the step down.
    pub(crate) fn record(&mut self, action: String, price: Double, entry: String)
        ensures
            final(self)@ == (Book {
                acciones: old(self)@.acciones.push(action@),
                precios: old(self)@.precios.push(decimal::fixed(price, 2)),
                entries: old(self)@.entries.push(entry@),
                ..old(self)@
            }),
    {
        let amount = fixed_text(price, 2);
        proof {
            text::lemma_views_push(self.paso_acciones@, action);
            text::lemma_views_push(self.paso_precios@, amount);
            text::lemma_views_push(self.step_positions_log@, entry);
        }
        self.paso_acciones.push(action);
        self.paso_precios.push(amount);
        self.step_positions_log.push(entry);
    }

    fn add_score(&mut self, right: bool)
        requires
            -10 * old(self)@.pnls.len() <= old(self)@.score <= 10 * old(self)@.pnls.len(),
        ensures
            final(self)@ == (Book { score: old(self)@.scored(right), ..old(self)@ }),
    {
        assert(self.trade_pnls.len() <= usize::MAX);
        if right {
            self.directional_score = self.directional_score + 10;
        } else {
            self.directional_score = self.directional_score - 10;
        }
    }

    fn count_close(&mut self, position_type: PositionType, extra: usize)
        requires
            old(self)@.slack(extra as nat),
        ensures
            final(self)@ == (Book {
                compras: if position_type == PositionType::Long {
                    old(self)@.compras
                } else {
                    old(self)@.compras + 1
                },
                ventas: if position_type == PositionType::Long {
                    old(self)@.ventas + 1
                } else {
                    old(self)@.ventas
                },
                ..old(self)@
            }),
    {
        assert(self.trade_pnls.len() <= usize::MAX && self.active_positions.len() <= usize::MAX);
        if position_type == PositionType::Long {
            self.num_ventas = self.num_ventas + 1;
        } else {
            self.num_compras = self.num_compras + 1;
        }
    }

    /// Closes a position that is already off the list at the market price.
    fn close_at_market(&mut self, pos: &Position, price: Double, fee_rate: Double, extra: usize)
        requires
            extra >= 1,
            old(self)@.slack(extra as nat),
        ensures
            final(self)@ == old(self)@.closed(*pos, price, fee_rate),
            final(self)@.slack((extra - 1) as nat),
    {
        let opening_fee = pos.opening_fee_at(fee_rate);
        let closing_fee = pos.closing_fee_at(price, fee_rate);
        let figures = EntryFigures {
            close: price,
            volume: pos.volume_at(price),
            pnl: pos.pnl_at(price),
            roe: pos.roe_at(price),
            fee: opening_fee.add(closing_fee),
        };
        let entry = entry_text(pos, " (CLOSED)", pos.stop_loss, figures);
        let mut action = "CERRAR_".to_owned();
        action.append(box_text(pos.box_type));
        action.append("_");
        action.append(direction_text(pos.position_type));
        self.saldo_usdt = self.saldo_usdt.add(pos.proceeds_at(price, fee_rate));
        self.add_score(pos.went_right(price));
        self.trade_pnls.push(pos.net_pnl_at(price, fee_rate));
        self.count_close(pos.position_type, extra);
        self.record(action, price, entry);
        assert(self@ =~= old(self)@.closed(*pos, price, fee_rate));
    }

    /// Liquidates a position that is already off the list.
    fn liquidate(&mut self, pos: &Position, fee_rate: Double)
        requires
            old(self)@.slack(1),
        ensures
            final(self)@ == old(self)@.liquidated(*pos, fee_rate),
            final(self)@.wf(),
    {
        let price = pos.liquidation_price;
        let opening_fee = pos.opening_fee_at(fee_rate);
        let loss = pos.margin.neg().sub(opening_fee);
        let figures = EntryFigures {
            close: price,
            volume: pos.volume_at(price),
            pnl: pos.margin.neg(),
            roe: Double::from_i64(-100),
            fee: opening_fee.add(pos.closing_fee_at(price, fee_rate)),
        };
        let entry = entry_text(pos, " (LIQUIDATED)", None, figures);
        let mut action = "LIQUIDACION_".to_owned();
        action.append(direction_text(pos.position_type));
        assert(self.trade_pnls.len() <= usize::MAX && self.active_positions.len() <= usize::MAX);
        self.add_score(false);
        self.trade_pnls.push(loss);
        self.trade_pnls.push(loss);
        self.num_liquidaciones = self.num_liquidaciones + 1;
        self.record(action, price, entry);
        assert(self@ =~= old(self)@.liquidated(*pos, fee_rate));
    }

    /// Closes a position that is already off the list at its stop loss.
    fn stop_out(&mut self, pos: &Position, price: Double, fee_rate: Double)
        requires
            old(self)@.slack(1),
        ensures
            final(self)@ == old(self)@.stopped(*pos, price, fee_rate),
            final(self)@.wf(),
    {
        let opening_fee = pos.opening_fee_at(fee_rate);
        let net = pos.net_pnl_at(price, fee_rate);
        let figures = EntryFigures {
            close: price,
            volume: pos.volume_at(price),
            pnl: pos.pnl_at(price),
            roe: pos.roe_at(price),
            fee: opening_fee.add(pos.closing_fee_at(price, fee_rate)),
        };
        let entry = entry_text(pos, " SL", pos.stop_loss, figures);
        let mut action = "STOP_LOSS_".to_owned();
        action.append(direction_text(pos.position_type));
        self.saldo_usdt = self.saldo_usdt.add(pos.proceeds_at(price, fee_rate));
        self.add_score(pos.went_right(price));
        self.trade_pnls.push(net);
        self.trade_pnls.push(net);
        self.count_close(pos.position_type, 1);
        self.record(action, price, entry);
        assert(self@ =~= old(self)@.stopped(*pos, price, fee_rate));
    }

    /// Ends the positions that the candle liquidates or stops out, the last of them first.
    pub fn settle_exits(&mut self, candle: &Candle, fee_rate: Double)
        requires
            old(self).wf(),
        ensures
            final(self).wf(),
            final(self)@ == old(self)@.exits(*candle, fee_rate, old(self)@.positions.len()),
    {
        let mut k: usize = self.active_positions.len();
        let ghost goal = self@.exits(*candle, fee_rate, k as nat);
        while k > 0
            invariant
                k <= self@.positions.len(),
                self.wf(),
                self@.exits(*candle, fee_rate, k as nat) == goal,
            decreases k,
        {
            k = k - 1;
            let pos = self.active_positions[k];
            match pos.exit_in(candle) {
                None => {},
                Some(Exit::Liquidation) => {
                    let ghost before = self@;
                    let _ = self.active_positions.remove(k);
                    assert(self@ =~= before.without(k as int));
                    self.liquidate(&pos, fee_rate);
                },
                Some(Exit::StopLoss { price }) => {
                    let ghost before = self@;
                    let _ = self.active_positions.remove(k);
                    assert(self@ =~= before.without(k as int));
                    self.stop_out(&pos, price, fee_rate);
                },
            }
        }
    }

    /// Closes every position of a box at the market price.
    pub fn close_box(&mut self, box_type: BoxType, price: Double, fee_rate: Double)
        requires
            old(self).wf(),
        ensures
            final(self).wf(),
            final(self)@ == old(self)@.box_closed(box_type, price, fee_rate),
    {
        let mut todo: Vec<Position> = Vec::new();
        std::mem::swap(&mut self.active_positions, &mut todo);
        let ghost goal = old(self)@.box_closed(box_type, price, fee_rate);
        let mut i: usize = 0;
        assert(todo@.skip(0) =~= todo@);
        assert(self@ =~= Book { positions: Seq::empty(), ..old(self)@ });
        while i < todo.len()
            invariant
                i <= todo@.len(),
                self@.slack((todo@.len() - i) as nat),
                self@.closing(todo@.skip(i as int), box_type, price, fee_rate) == goal,
            decreases todo@.len() - i,
        {
            let pos = todo[i];
            assert(todo@.skip(i as int).skip(1) =~= todo@.skip(i + 1));
            if pos.box_type == box_type {
                self.close_at_market(&pos, price, fee_rate, todo.len() - i);
            } else {
                let ghost before = self@;
                self.active_positions.push(pos);
                assert(self@ =~= Book { positions: before.positions.push(pos), ..before });
            }
            i = i + 1;
        }
    }

    /// Moves the stop loss of every position of a box.
    pub fn move_stops(&mut self, box_type: BoxType, stop: Double, price: Double)
        requires
            old(self).wf(),
        ensures
            final(self).wf(),
            final(self)@ == old(self)@.stops_moved(box_type, stop, price, 0),
    {
        let ghost goal = self@.stops_moved(box_type, stop, price, 0);
        let mut k: usize = 0;
        while k < self.active_positions.len()
            invariant
                k <= self@.positions.len(),
                self.wf(),
                self@.stops_moved(box_type, stop, price, k as nat) == goal,
            decreases self@.positions.len() - k,
        {
            let pos = self.active_positions[k];
            if pos.box_type == box_type {
                let ghost before = self@;
                let mut moved = pos;
                let placed = pos.stop_at(stop);
                moved.stop_loss = Some(placed);
                let figures = EntryFigures {
                    close: Double { bits: 0 },
                    volume: pos.volume_at(price),
                    pnl: pos.pnl_at(price),
                    roe: pos.roe_at(price),
                    fee: Double { bits: 0 },
                };
                let entry = entry_text(&pos, "", Some(placed), figures);
                proof {
                    text::lemma_views_push(self.step_positions_log@, entry);
                }
                self.active_positions.set(k, moved);
                self.step_positions_log.push(entry);
                assert(self@ =~= Book {
                    positions: before.positions.update(k as int, moved),
                    entries: before.entries.push(entry@),
                    ..before
                });
            }
            k = k + 1;
        }
    }
}

} // verus!
