//! A simulation over stored candles, step by step: each candle first ends what it ends, then the
//! model is asked, then its answer is carried out and the curve grows by a point.

use crate::backtest::{BoxOutcome, Rules};
use crate::clock;
use crate::clock::candle_time;
use crate::decimal;
use crate::decimal::{fixed_text, integer_text, numeral_text};
use crate::double::Double;
use crate::indicators;
use crate::indicators::calculate_ema;
use crate::ledger::{Book, Ledger};
use crate::metrics;
use crate::metrics::{calculate_advanced_metrics, CurvePoint};
use crate::positions;
use crate::positions::{box_text, entry_text, EntryFigures};
use crate::prompts;
use crate::prompts::{history, positions_text, progression, TradeRecord, Trades};
use crate::text;
use crate::text::{join, starts_with};
use crate::types::{BoxType, Candle, GemmaResponse, PositionType};
use vstd::prelude::*;
use vstd::string::*;

verus! {

/// The balance with which a simulation begins.
pub open spec fn initial_balance() -> Double {
    Double::of(10000)
}

/// The first candle at or behind the `k`-th that opens at or after a moment.
pub open spec fn first_from(candles: Seq<Candle>, moment: int, k: nat) -> Option<nat>
    decreases candles.len() - k,
{
    if k >= candles.len() {
        None
    } else if candles[k as int].open_time >= moment {
        Some(k)
    } else {
        first_from(candles, moment, k + 1)
    }
}

/// The candle with which trading begins: the first that opens at or after a moment; the first of
/// all where there is none.
pub open spec fn trading_start(candles: Seq<Candle>, moment: int) -> nat {
    match first_from(candles, moment, 0) {
        Some(k) => k,
        None => 0,
    }
}

proof fn lemma_first_from(candles: Seq<Candle>, moment: int, k: nat)
    ensures
        match first_from(candles, moment, k) {
            Some(i) => k <= i < candles.len() && candles[i as int].open_time >= moment && (forall|
                j: int,
            |
                k <= j < i ==> (#[trigger] candles[j]).open_time < moment),
            None => forall|j: int| k <= j < candles.len() ==> (#[trigger] candles[j]).open_time
                < moment,
        },
    decreases candles.len() - k,
{
    if k < candles.len() && candles[k as int].open_time < moment {
        lemma_first_from(candles, moment, k + 1);
    }
}

/// Every candle before the start of trading opens before the moment; the candle with which trading
/// begins does not, unless all of them do.
pub proof fn trading_starts_in_time(candles: Seq<Candle>, moment: int)
    requires
        candles.len() > 0,
    ensures
        trading_start(candles, moment) < candles.len(),
        forall|j: int|
            0 <= j < trading_start(candles, moment) ==> (#[trigger] candles[j]).open_time < moment,
        candles[trading_start(candles, moment) as int].open_time >= moment || forall|j: int|
            0 <= j < candles.len() ==> (#[trigger] candles[j]).open_time < moment,
{
    lemma_first_from(candles, moment, 0);
}

/// The candle with which trading begins.
pub fn start_index(candles: &Vec<Candle>, moment: i64) -> (r: usize)
    ensures
        r == trading_start(candles@, moment as int),
        candles@.len() > 0 ==> r < candles@.len(),
{
    let mut k: usize = 0;
    while k < candles.len()
        invariant
            k <= candles@.len(),
            first_from(candles@, moment as int, k as nat) == first_from(
                candles@,
                moment as int,
                0,
            ),
        decreases candles@.len() - k,
    {
        if candles[k].open_time >= moment {
            return k;
        }
        k = k + 1;
    }
    0
}

/// The direction of the macro trend: long while the average over 50 candles is not below that over
/// 100.
pub open spec fn macro_trend(candles: Seq<Candle>, i: int) -> PositionType {
    if indicators::ema(candles, i, 100).at_most(indicators::ema(candles, i, 50)) {
        PositionType::Long
    } else {
        PositionType::Short
    }
}

/// The direction of the macro trend.
pub fn trend_at(candles: &Vec<Candle>, i: usize) -> (r: PositionType)
    requires
        i < candles@.len(),
    ensures
        r == macro_trend(candles@, i as int),
{
    let fast = calculate_ema(candles.as_slice(), i, 50);
    let slow = calculate_ema(candles.as_slice(), i, 100);
    if slow.le(fast) {
        PositionType::Long
    } else {
        PositionType::Short
    }
}

/// What the account is worth at a price.
#[derive(Debug, Clone, Copy, PartialEq, Eq, Structural)]
pub struct Worth {
    pub equity: Double,
    pub margins: Double,
    pub floating: Double,
}

impl Book {
    /// The margins of the first `n` positions.
    pub open spec fn margins(self, n: nat) -> Double
        decreases n,
    {
        if n == 0 {
            Double::zero()
        } else {
            self.margins((n - 1) as nat).plus(self.positions[n - 1].margin)
        }
    }

    /// What the first `n` positions gain at a price.
    pub open spec fn floating(self, price: Double, n: nat) -> Double
        decreases n,
    {
        if n == 0 {
            Double::zero()
        } else {
            self.floating(price, (n - 1) as nat).plus(self.positions[n - 1].pnl(price))
        }
    }

    /// What the account is worth at a price: the balance, the margins and the floating gain.
    pub open spec fn worth(self, price: Double) -> Worth {
        let margins = self.margins(self.positions.len());
        let floating = self.floating(price, self.positions.len());
        Worth { equity: self.saldo.plus(margins).plus(floating), margins, floating }
    }

    /// The book after a candle ended what it ends, with an empty record.
    pub open spec fn begun(self, candle: Candle, fee_rate: Double) -> Book {
        Book {
            acciones: Seq::empty(),
            precios: Seq::empty(),
            entries: Seq::empty(),
            ..self
        }.exits(candle, fee_rate, self.positions.len())
    }

    /// The book after both boxes acted: the long-term box first, only with the trend, then the
    /// short-term one.
    pub open spec fn answered(
        self,
        answer: GemmaResponse,
        trend: PositionType,
        rules: Rules,
        equity: Double,
        price: Double,
    ) -> (Book, (BoxOutcome, BoxOutcome)) {
        let lt = self.acted(answer.lt_box, BoxType::LT, Some(trend), rules, equity, price);
        let st = lt.0.acted(answer.st_box, BoxType::ST, None, rules, equity, price);
        (st.0, (lt.1, st.1))
    }

    /// Whether the log of the step has an entry for a box among its first `n`.
    pub open spec fn mentions(self, box_type: BoxType, n: nat) -> bool
        decreases n,
    {
        n > 0 && (self.mentions(box_type, (n - 1) as nat) || text::begins_with(
            self.entries[n - 1],
            positions::box_name(box_type) + ":"@,
        ))
    }

    /// The book after the positions `k..` of boxes without an entry were written down.
    pub open spec fn consolidated(self, price: Double, k: nat) -> Book
        decreases self.positions.len() - k,
    {
        if k >= self.positions.len() {
            self
        } else {
            let pos = self.positions[k as int];
            let next = if self.mentions(pos.box_type, self.entries.len()) {
                self
            } else {
                Book {
                    entries: self.entries.push(
                        positions::entry(
                            pos,
                            ""@,
                            pos.stop_loss,
                            EntryFigures {
                                close: Double::zero(),
                                volume: pos.volume(price),
                                pnl: pos.pnl(price),
                                roe: pos.roe(price),
                                fee: Double::zero(),
                            },
                        ),
                    ),
                    ..self
                }
            };
            next.consolidated(price, k + 1)
        }
    }

    /// The book after the net results of the first `n` positions at a price were listed.
    pub open spec fn listed(self, price: Double, fee_rate: Double, n: nat) -> Book
        decreases n,
    {
        if n == 0 {
            self
        } else {
            let rest = self.listed(price, fee_rate, (n - 1) as nat);
            Book { pnls: rest.pnls.push(self.positions[n - 1].net_pnl(price, fee_rate)), ..rest }
        }
    }
}

impl Ledger {
    /// What the account is worth at a price.
    pub fn worth_at(&self, price: Double) -> (r: Worth)
        ensures
            r == self@.worth(price),
    {
        let mut margins = Double { bits: 0 };
        let mut floating = Double { bits: 0 };
        let mut n: usize = 0;
        while n < self.active_positions.len()
            invariant
                n <= self.active_positions@.len(),
                margins == self@.margins(n as nat),
                floating == self@.floating(price, n as nat),
            decreases self.active_positions@.len() - n,
        {
            floating = floating.add(self.active_positions[n].pnl_at(price));
            margins = margins.add(self.active_positions[n].margin);
            n = n + 1;
        }
        Worth { equity: self.saldo_usdt.add(margins).add(floating), margins, floating }
    }

    fn has_entry(&self, box_type: BoxType) -> (r: bool)
        ensures
            r == self@.mentions(box_type, self@.entries.len()),
    {
        let mut prefix = box_text(box_type).to_owned();
        prefix.append(":");
        let mut found = false;
        let mut n: usize = 0;
        while n < self.step_positions_log.len()
            invariant
                n <= self.step_positions_log@.len(),
                prefix@ == positions::box_name(box_type) + ":"@,
                found == self@.mentions(box_type, n as nat),
            decreases self.step_positions_log@.len() - n,
        {
            if starts_with(self.step_positions_log[n].as_str(), prefix.as_str()) {
                found = true;
            }
            n = n + 1;
        }
        found
    }

    /// Writes down the positions of boxes that the log of the step does not mention.
    pub fn consolidate(&mut self, price: Double)
        ensures
            final(self)@ == old(self)@.consolidated(price, 0),
            old(self).wf() ==> final(self).wf(),
    {
        let mut k: usize = 0;
        while k < self.active_positions.len()
            invariant
                k <= self.active_positions@.len(),
                self@.consolidated(price, k as nat) == old(self)@.consolidated(price, 0),
                old(self).wf() ==> self.wf(),
            decreases self.active_positions@.len() - k,
        {
            let pos = self.active_positions[k];
            if !self.has_entry(pos.box_type) {
                let figures = EntryFigures {
                    close: Double { bits: 0 },
                    volume: pos.volume_at(price),
                    pnl: pos.pnl_at(price),
                    roe: pos.roe_at(price),
                    fee: Double { bits: 0 },
                };
                let entry = entry_text(&pos, "", pos.stop_loss, figures);
                let ghost before = self@;
                proof {
                    text::lemma_views_push(self.step_positions_log@, entry);
                }
                self.step_positions_log.push(entry);
                assert(self@ =~= Book { entries: before.entries.push(entry@), ..before });
            }
            k = k + 1;
        }
    }

    /// Lists the net results that the open positions would have at a price.
    pub fn list_open(&mut self, price: Double, fee_rate: Double)
        requires
            old(self).wf(),
        ensures
            final(self).wf(),
            final(self)@ == old(self)@.listed(price, fee_rate, old(self)@.positions.len()),
    {
        let mut n: usize = 0;
        while n < self.active_positions.len()
            invariant
                n <= self.active_positions@.len(),
                self.active_positions@ == old(self).active_positions@,
                self@ == old(self)@.listed(price, fee_rate, n as nat),
                self.wf(),
            decreases self.active_positions@.len() - n,
        {
            let net = self.active_positions[n].net_pnl_at(price, fee_rate);
            let ghost before = self@;
            self.trade_pnls.push(net);
            assert(self@ =~= Book { pnls: before.pnls.push(net), ..before });
            n = n + 1;
        }
    }
}

/// What a point of the curve says.
#[verifier::ext_equal]
pub struct Point {
    pub time: Seq<char>,
    pub equity: Double,
    pub buy_and_hold: Double,
    pub actions: Seq<char>,
    pub prices: Seq<char>,
}

impl View for CurvePoint {
    type V = Point;

    open spec fn view(&self) -> Point {
        Point {
            time: self.time@,
            equity: self.equity,
            buy_and_hold: self.buy_and_hold,
            actions: self.actions@,
            prices: self.prices@,
        }
    }
}

/// The points of a curve.
pub open spec fn points(curve: Seq<CurvePoint>) -> Seq<Point> {
    curve.map_values(|p: CurvePoint| p@)
}

proof fn lemma_points_push(curve: Seq<CurvePoint>, p: CurvePoint)
    ensures
        points(curve.push(p)) == points(curve).push(p@),
{
    assert(points(curve.push(p)) =~= points(curve).push(p@));
}

/// The actions of all points, each followed by a bar.
pub open spec fn action_sequence(curve: Seq<CurvePoint>, n: nat) -> Seq<char>
    decreases n,
{
    if n == 0 {
        Seq::empty()
    } else {
        let rest = action_sequence(curve, (n - 1) as nat);
        let actions = curve[n - 1].actions@;
        if actions.len() == 0 {
            rest
        } else {
            (rest + actions).push('|')
        }
    }
}

/// What a simulation comes to.
#[derive(Debug, Clone)]
pub struct BacktestSummary {
    pub final_equity: Double,
    pub winrate: Double,
    pub profit_factor: Double,
    pub total_trades: usize,
    pub max_drawdown: Double,
    pub correlation: Double,
    pub actions_sequence: String,
}

/// The books of an account with the initial balance and nothing else.
pub open spec fn untouched() -> Book {
    Book {
        saldo: initial_balance(),
        positions: Seq::empty(),
        pnls: Seq::empty(),
        compras: 0,
        ventas: 0,
        liquidaciones: 0,
        score: 0,
        acciones: Seq::empty(),
        precios: Seq::empty(),
        entries: Seq::empty(),
    }
}

/// The point of the curve before trading begins with a candle.
pub open spec fn first_point(candle: Candle, timeframe: Seq<char>) -> Point {
    Point {
        time: clock::utc_text(candle.open_time as int, clock::pattern(timeframe)) + " (Inicio)"@,
        equity: initial_balance(),
        buy_and_hold: initial_balance(),
        actions: Seq::empty(),
        prices: Seq::empty(),
    }
}

/// A running simulation.
pub struct Simulation {
    pub ledger: Ledger,
    pub curve: Vec<CurvePoint>,
    /// The candle with which trading begins.
    pub start: usize,
    pub initial_price: Double,
    pub rules: Rules,
}

impl Simulation {
    pub open spec fn wf(&self) -> bool {
        self.ledger.wf()
    }

    /// What the balance would be worth at a price if it had been put into the market.
    pub open spec fn held(self, price: Double) -> Double {
        initial_balance().times(price.over(self.initial_price))
    }

    /// A simulation before its first step: the balance, and one point of the curve. There is none
    /// where the first candle lies outside the calendar.
    pub fn new(candles: &Vec<Candle>, timeframe: &str, start: usize, rules: Rules) -> (r: Option<
        Simulation,
    >)
        requires
            start < candles@.len(),
        ensures
            match r {
                None => !clock::in_calendar(candles@[start as int].open_time as int),
                Some(s) => {
                    &&& clock::in_calendar(candles@[start as int].open_time as int)
                    &&& s.wf()
                    &&& s.ledger@ == untouched()
                    &&& points(s.curve@) == seq![
                        first_point(candles@[start as int], timeframe@),
                    ]
                    &&& s.start == start
                    &&& s.initial_price == candles@[start as int].close
                    &&& s.rules == rules
                },
            },
    {
        let mut time = match candle_time(timeframe, candles[start].open_time) {
            Some(time) => time,
            None => {
                return None;
            },
        };
        time.append(" (Inicio)");
        let balance = Double::from_u64(10000);
        let mut curve: Vec<CurvePoint> = Vec::new();
        let point = CurvePoint {
            time,
            equity: balance,
            buy_and_hold: balance,
            actions: String::new(),
            prices: String::new(),
        };
        let ghost first = point@;
        curve.push(point);
        assert(points(curve@) =~= seq![first]);
        Some(
            Simulation {
                ledger: Ledger::new(balance),
                curve,
                start,
                initial_price: candles[start].close,
                rules,
            },
        )
    }

    /// Begins a step: the candle ends what it ends. Gives what the account is worth at its close.
    pub fn open_step(&mut self, candle: &Candle) -> (r: Worth)
        requires
            old(self).wf(),
        ensures
            final(self).wf(),
            final(self).ledger@ == old(self).ledger@.begun(*candle, old(self).rules.fee_rate),
            r == final(self).ledger@.worth(candle.close),
            final(self).curve == old(self).curve,
            final(self).start == old(self).start,
            final(self).initial_price == old(self).initial_price,
            final(self).rules == old(self).rules,
    {
        self.ledger.begin_step();
        self.ledger.settle_exits(candle, self.rules.fee_rate);
        self.ledger.worth_at(candle.close)
    }

    /// Carries out the answer of the model at the `i`-th candle, with the equity of the step.
    pub fn apply(&mut self, answer: &GemmaResponse, candles: &Vec<Candle>, i: usize, equity: Double)
        -> (r: (BoxOutcome, BoxOutcome))
        requires
            old(self).wf(),
            i < candles@.len(),
        ensures
            final(self).wf(),
            (final(self).ledger@, r) == old(self).ledger@.answered(
                *answer,
                macro_trend(candles@, i as int),
                old(self).rules,
                equity,
                candles@[i as int].close,
            ),
            final(self).curve == old(self).curve,
            final(self).start == old(self).start,
            final(self).initial_price == old(self).initial_price,
            final(self).rules == old(self).rules,
    {
        let trend = trend_at(candles, i);
        let price = candles[i].close;
        let lt = self.ledger.execute_box_action(
            &answer.lt_box,
            BoxType::LT,
            Some(trend),
            &self.rules,
            equity,
            price,
        );
        let st = self.ledger.execute_box_action(
            &answer.st_box,
            BoxType::ST,
            None,
            &self.rules,
            equity,
            price,
        );
        (lt, st)
    }

    /// Ends a step: what the log does not mention is written down, and the curve grows by a point
    /// with the equity at the close. Nothing happens where the candle lies outside the calendar.
    pub fn close_step(&mut self, candle: &Candle, timeframe: &str) -> (r: bool)
        requires
            old(self).wf(),
        ensures
            final(self).wf(),
            r == clock::in_calendar(candle.open_time as int),
            !r ==> *final(self) == *old(self),
            r ==> final(self).ledger@ == old(self).ledger@.consolidated(candle.close, 0),
            r ==> points(final(self).curve@) == points(old(self).curve@).push(
                Point {
                    time: clock::utc_text(candle.open_time as int, clock::pattern(timeframe@)),
                    equity: old(self).ledger@.worth(candle.close).equity,
                    buy_and_hold: old(self).held(candle.close),
                    actions: text::joined(old(self).ledger@.acciones, "; "@),
                    prices: text::joined(old(self).ledger@.precios, "; "@),
                },
            ),
            final(self).start == old(self).start,
            final(self).initial_price == old(self).initial_price,
            final(self).rules == old(self).rules,
    {
        let time = match candle_time(timeframe, candle.open_time) {
            Some(time) => time,
            None => {
                return false;
            },
        };
        let worth = self.ledger.worth_at(candle.close);
        let point = CurvePoint {
            time,
            equity: worth.equity,
            buy_and_hold: Double::from_u64(10000).mul(candle.close.div(self.initial_price)),
            actions: join(&self.ledger.paso_acciones, "; "),
            prices: join(&self.ledger.paso_precios, "; "),
        };
        proof {
            lemma_points_push(self.curve@, point);
        }
        self.curve.push(point);
        self.ledger.consolidate(candle.close);
        true
    }

    /// The last results of closed trades, the newest first, five at most.
    pub fn recent_results(&self) -> (r: Vec<Double>)
        ensures
            r@ == self.ledger@.pnls.reverse().take(
                if self.ledger@.pnls.len() < 5 {
                    self.ledger@.pnls.len() as int
                } else {
                    5
                },
            ),
    {
        let all = &self.ledger.trade_pnls;
        let count: usize = if all.len() < 5 {
            all.len()
        } else {
            5
        };
        let mut out: Vec<Double> = Vec::new();
        let mut n: usize = 0;
        while n < count
            invariant
                n <= count <= all@.len(),
                out@ =~= all@.reverse().take(n as int),
            decreases count - n,
        {
            out.push(all[all.len() - 1 - n]);
            assert(all@.reverse()[n as int] == all@[all@.len() - 1 - n]);
            n = n + 1;
        }
        out
    }

    /// The trades of the simulation as the report of a step shows them.
    pub open spec fn trades(&self) -> TradeRecord {
        TradeRecord {
            start: self.start as int,
            steps: self.curve@.map_values(|p: CurvePoint| (p.actions@, p.prices@)),
            acciones: self.ledger@.acciones,
            precios: self.ledger@.precios,
        }
    }

    /// The question to the model at the `i`-th candle. `risk` and `recent` are the risked share of
    /// the capital and the last results, as text.
    pub open spec fn question(
        &self,
        candles: Seq<Candle>,
        i: int,
        equity: Double,
        risk: Seq<char>,
        recent: Seq<char>,
    ) -> Seq<char> {
        let book = self.ledger@;
        let price = candles[i].close;
        "DATA (Recent)\nCurrent BTC Price (Close): "@ + decimal::fixed(price, 2)
            + " USDT\nLast 20 candles history:\n"@ + prompts::history_upto(
            candles,
            i,
            None,
            self.trades(),
            i + 1,
        ) + "\nLiquidations in this simulation: "@ + decimal::numeral(book.liquidaciones as nat)
            + "\n\nTECHNICAL INDICATORS\n"@ + prompts::progression_upto(
            candles,
            i,
            None,
            self.trades(),
            i + 1,
        ) + "\n\nACCOUNT STATUS\nFree balance (not in margin): "@ + decimal::fixed(book.saldo, 2)
            + " USDT\nTotal Equity: "@ + decimal::fixed(equity, 2) + " USDT\nLeverage: "@
            + decimal::fixed(self.rules.leverage, 1)
            + "x\nRisk parameters: Max % risk per trade: "@ + risk
            + "%\nDirectional Accuracy Score: "@ + decimal::signed_numeral(book.score)
            + "\nActive Positions & Pending Orders (SL):\n"@ + prompts::position_report(
            book.positions,
            price,
        ) + "\nRecent trades history (Realized PnLs of closed trades):\n"@ + recent
            + "\n\nWhat action do you take? Respond strictly in JSON format"@
    }

    /// The question to the model at the `i`-th candle.
    pub fn user_prompt(
        &self,
        candles: &Vec<Candle>,
        i: usize,
        equity: Double,
        risk: &str,
        recent: &str,
    ) -> (r: String)
        requires
            i < candles@.len(),
        ensures
            r@ == self.question(candles@, i as int, equity, risk@, recent@),
    {
        let trades = Trades {
            start: self.start,
            curve: &self.curve,
            acciones: &self.ledger.paso_acciones,
            precios: &self.ledger.paso_precios,
        };
        let price = candles[i].close;
        let mut out = "DATA (Recent)\nCurrent BTC Price (Close): ".to_owned();
        let price_text = fixed_text(price, 2);
        out.append(price_text.as_str());
        out.append(" USDT\nLast 20 candles history:\n");
        let past = history(candles, i, None, &trades);
        out.append(past.as_str());
        out.append("\nLiquidations in this simulation: ");
        let liquidations = numeral_text(self.ledger.num_liquidaciones);
        out.append(liquidations.as_str());
        out.append("\n\nTECHNICAL INDICATORS\n");
        let lines = progression(candles, i, None, &trades);
        out.append(lines.as_str());
        out.append("\n\nACCOUNT STATUS\nFree balance (not in margin): ");
        let balance = fixed_text(self.ledger.saldo_usdt, 2);
        out.append(balance.as_str());
        out.append(" USDT\nTotal Equity: ");
        let equity_text = fixed_text(equity, 2);
        out.append(equity_text.as_str());
        out.append(" USDT\nLeverage: ");
        let leverage = fixed_text(self.rules.leverage, 1);
        out.append(leverage.as_str());
        out.append("x\nRisk parameters: Max % risk per trade: ");
        out.append(risk);
        out.append("%\nDirectional Accuracy Score: ");
        let score = integer_text(self.ledger.directional_score);
        out.append(score.as_str());
        out.append("\nActive Positions & Pending Orders (SL):\n");
        let open = positions_text(&self.ledger.active_positions, price);
        out.append(open.as_str());
        out.append("\nRecent trades history (Realized PnLs of closed trades):\n");
        out.append(recent);
        out.append("\n\nWhat action do you take? Respond strictly in JSON format");
        out
    }

    /// The figures of the simulation up to now.
    pub fn figures(&self, timeframe: &str) -> (r: metrics::AdvancedMetrics)
        ensures
            r == metrics::advanced_metrics(
                self.curve@,
                self.ledger@.pnls,
                initial_balance(),
                timeframe@,
            ),
            r.max_stagnation == metrics::largest(
                metrics::stagnations(initial_balance(), metrics::equities(self.curve@)),
            ),
    {
        calculate_advanced_metrics(
            &self.curve,
            &self.ledger.trade_pnls,
            Double::from_u64(10000),
            timeframe,
        )
    }

    fn actions_text(&self) -> (r: String)
        ensures
            r@ == action_sequence(self.curve@, self.curve@.len()),
    {
        let mut out = String::new();
        let mut n: usize = 0;
        while n < self.curve.len()
            invariant
                n <= self.curve@.len(),
                out@ == action_sequence(self.curve@, n as nat),
            decreases self.curve@.len() - n,
        {
            let actions = self.curve[n].actions.as_str();
            if text::chars_of(actions).len() > 0 {
                out.append(actions);
                out.push('|');
            }
            n = n + 1;
        }
        out
    }

    /// Whether the simulation ended at a candle in a state with a summary.
    pub open spec fn ended(self, after: Simulation, last: Candle, r: BacktestSummary) -> bool {
        let eqs = metrics::equities(self.curve@);
        &&& after.ledger@ == self.ledger@.listed(
            last.close,
            self.rules.fee_rate,
            self.ledger@.positions.len(),
        )
        &&& r.final_equity == self.ledger@.worth(last.close).equity
        &&& r.winrate == metrics::winrate(after.ledger@.pnls)
        &&& r.profit_factor == metrics::profit_factor(after.ledger@.pnls)
        &&& r.total_trades == after.ledger@.pnls.len()
        &&& r.max_drawdown == metrics::drawdown_share(initial_balance(), eqs, self.curve@.len())
        &&& r.correlation == metrics::correlation(eqs, metrics::holdings(self.curve@))
        &&& r.actions_sequence@ == action_sequence(self.curve@, self.curve@.len())
    }

    /// Ends the simulation at the last candle: what the open positions would bring is listed among
    /// the results, and the account is summed up.
    pub fn finish(&mut self, last: &Candle, timeframe: &str) -> (r: BacktestSummary)
        requires
            old(self).wf(),
        ensures
            final(self).wf(),
            final(self).curve == old(self).curve,
            final(self).start == old(self).start,
            final(self).initial_price == old(self).initial_price,
            final(self).rules == old(self).rules,
            old(self).ended(*final(self), *last, r),
    {
        let worth = self.ledger.worth_at(last.close);
        self.ledger.list_open(last.close, self.rules.fee_rate);
        let figures = self.figures(timeframe);
        BacktestSummary {
            final_equity: worth.equity,
            winrate: figures.winrate,
            profit_factor: figures.profit_factor,
            total_trades: self.ledger.trade_pnls.len(),
            max_drawdown: figures.max_drawdown,
            correlation: figures.correlation,
            actions_sequence: self.actions_text(),
        }
    }
}

impl Simulation {
    /// The report of a step: the `i`-th candle, what the account was worth at its beginning, and
    /// the log.
    pub open spec fn status(
        &self,
        candles: Seq<Candle>,
        i: int,
        time: Seq<char>,
        worth: Worth,
    ) -> Seq<char> {
        let book = self.ledger@;
        let price = candles[i].close;
        "\nPaso "@ + decimal::numeral((i - self.start) as nat) + "/"@ + decimal::numeral(
            (candles.len() - self.start) as nat,
        ) + " - "@ + text::replaced(time, ' ', " - "@, time.len()) + "\nPrecio Actual: "@
            + decimal::fixed(price, 2) + " USDT\nBuy & Hold ($10k): "@ + decimal::fixed(
            self.held(price),
            2,
        ) + " USDT\n\nStatus:\nEquity: "@ + decimal::fixed(worth.equity, 2) + " USDT\nSaldo: "@
            + decimal::fixed(book.saldo, 2) + " USDT\nMargen Total: "@ + decimal::fixed(
            worth.margins,
            2,
        ) + " USDT\nPosiciones Activas: "@ + decimal::numeral(book.positions.len())
            + "\nPnL Flotante: "@ + decimal::fixed(worth.floating, 2) + " USDT\n\nPosition:\n"@
            + if book.entries.len() == 0 {
            "No active positions."@
        } else {
            text::joined(book.entries, "\n\n"@)
        }
    }

    /// The report of a step.
    pub fn status_text(&self, candles: &Vec<Candle>, i: usize, time: &str, worth: &Worth) -> (r:
        String)
        requires
            self.start <= i < candles@.len(),
        ensures
            r@ == self.status(candles@, i as int, time@, *worth),
    {
        let price = candles[i].close;
        let mut out = "\nPaso ".to_owned();
        let step = numeral_text((i - self.start) as u128);
        out.append(step.as_str());
        out.append("/");
        let steps = numeral_text((candles.len() - self.start) as u128);
        out.append(steps.as_str());
        out.append(" - ");
        let moment = text::replace_char(time, ' ', " - ");
        out.append(moment.as_str());
        out.append("\nPrecio Actual: ");
        let now = fixed_text(price, 2);
        out.append(now.as_str());
        out.append(" USDT\nBuy & Hold ($10k): ");
        let held = fixed_text(Double::from_u64(10000).mul(price.div(self.initial_price)), 2);
        out.append(held.as_str());
        out.append(" USDT\n\nStatus:\nEquity: ");
        let equity = fixed_text(worth.equity, 2);
        out.append(equity.as_str());
        out.append(" USDT\nSaldo: ");
        let saldo = fixed_text(self.ledger.saldo_usdt, 2);
        out.append(saldo.as_str());
        out.append(" USDT\nMargen Total: ");
        let margins = fixed_text(worth.margins, 2);
        out.append(margins.as_str());
        out.append(" USDT\nPosiciones Activas: ");
        let count = numeral_text(self.ledger.active_positions.len() as u128);
        out.append(count.as_str());
        out.append("\nPnL Flotante: ");
        let floating = fixed_text(worth.floating, 2);
        out.append(floating.as_str());
        out.append(" USDT\n\nPosition:\n");
        if self.ledger.step_positions_log.len() == 0 {
            out.append("No active positions.");
        } else {
            let log = join(&self.ledger.step_positions_log, "\n\n");
            out.append(log.as_str());
        }
        out
    }
}

} // verus!
