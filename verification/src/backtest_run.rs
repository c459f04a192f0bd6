//! A whole simulation as a machine: it opens a step, is asked for the question to the model, takes
//! the replies until one can be used or the attempts are spent, and closes the step.

use crate::backtest::{BoxOutcome, Rules};
use crate::clock;
use crate::clock::{candle_time, start_timestamp};
use crate::ledger::Book;
use crate::llm::{attempts_left, ATTEMPTS};
use crate::simulation;
use crate::simulation::{start_index, BacktestSummary, Point, Simulation, Worth};
use crate::strategy_laws;
use crate::text;
use crate::types::{BoxType, Candle, GemmaResponse};
use vstd::prelude::*;
use vstd::string::*;

verus! {

/// Why a simulation cannot begin.
#[derive(Debug, Clone, Copy, PartialEq, Eq, Structural)]
pub enum StartError {
    /// There are no candles.
    NoCandles,
    /// A candle lies outside the calendar.
    OutsideCalendar,
}

/// What a reply of the model led to.
#[derive(Debug, Clone, Copy, PartialEq, Eq, Structural)]
pub enum Reply {
    /// The reply could not be used; the model is asked again.
    Again,
    /// The attempts are spent, and the step is closed without an answer.
    GivenUp,
    /// The answer was carried out in both boxes, and the step is closed.
    CarriedOut { lt: BoxOutcome, st: BoxOutcome },
}

/// A running simulation over its candles.
pub struct Backtest {
    pub simulation: Simulation,
    pub candles: Vec<Candle>,
    pub timeframe: String,
    /// The candle of the open step, or of the next one.
    pub place: usize,
    /// The attempts that the open step has left; none where no step is open.
    pub left: u32,
    /// What the account was worth when the last step was opened.
    pub worth: Worth,
}

/// Whether all candles from one on lie in the calendar.
pub open spec fn all_in_calendar(candles: Seq<Candle>, from: int) -> bool {
    forall|k: int|
        from <= k < candles.len() ==> clock::in_calendar((#[trigger] candles[k]).open_time as int)
}

/// The point of the curve that a step at a candle ends with.
pub open spec fn end_point(s: Simulation, book: Book, candle: Candle, timeframe: Seq<char>) -> Point {
    Point {
        time: clock::utc_text(candle.open_time as int, clock::pattern(timeframe)),
        equity: book.worth(candle.close).equity,
        buy_and_hold: s.held(candle.close),
        actions: text::joined(book.acciones, "; "@),
        prices: text::joined(book.precios, "; "@),
    }
}

impl Backtest {
    /// The account keeps its books, the curve has one point for the beginning and one for each
    /// closed step, and no box holds more than two positions of one direction.
    pub open spec fn wf(&self) -> bool {
        &&& self.simulation.wf()
        &&& self.simulation.start <= self.place <= self.candles@.len()
        &&& self.left <= ATTEMPTS
        &&& self.left > 0 ==> self.place < self.candles@.len()
        &&& all_in_calendar(self.candles@, self.simulation.start as int)
        &&& self.simulation.curve@.len() == 1 + self.place - self.simulation.start
        &&& strategy_laws::within_limits(self.simulation.ledger@.positions)
    }

    /// What a step leaves as it is.
    pub open spec fn same_run(&self, other: &Backtest) -> bool {
        &&& self.candles == other.candles
        &&& self.timeframe == other.timeframe
        &&& self.simulation.start == other.simulation.start
        &&& self.simulation.initial_price == other.simulation.initial_price
        &&& self.simulation.rules == other.simulation.rules
    }

    /// Prepares a simulation that starts trading on a day.
    pub fn begin(
        candles: Vec<Candle>,
        timeframe: &str,
        trading_start_date: Option<&str>,
        rules: Rules,
    ) -> (r: Result<Backtest, StartError>)
        ensures
            ({
                let moment = clock::start_of(
                    match trading_start_date {
                        Some(s) => Some(s@),
                        None => None,
                    },
                );
                let start = simulation::trading_start(candles@, moment) as int;
                match r {
                    Err(StartError::NoCandles) => candles@.len() == 0,
                    Err(StartError::OutsideCalendar) => candles@.len() > 0 && !all_in_calendar(
                        candles@,
                        start,
                    ),
                    Ok(run) => {
                        &&& candles@.len() > 0
                        &&& all_in_calendar(candles@, start)
                        &&& run.wf()
                        &&& run.candles == candles
                        &&& run.timeframe@ == timeframe@
                        &&& run.place == start
                        &&& run.left == 0
                        &&& run.simulation.start == start
                        &&& run.simulation.initial_price == candles@[start].close
                        &&& run.simulation.rules == rules
                        &&& run.simulation.ledger@ == simulation::untouched()
                        &&& simulation::points(run.simulation.curve@) == seq![
                            simulation::first_point(candles@[start], timeframe@),
                        ]
                    },
                }
            }),
    {
        if candles.len() == 0 {
            return Err(StartError::NoCandles);
        }
        let moment = start_timestamp(trading_start_date);
        let start = start_index(&candles, moment);
        let mut k: usize = start;
        while k < candles.len()
            invariant
                candles@.len() > 0,
                moment == clock::start_of(
                    match trading_start_date {
                        Some(s) => Some(s@),
                        None => None,
                    },
                ),
                start == simulation::trading_start(candles@, moment as int),
                start <= k <= candles@.len(),
                forall|j: int|
                    start <= j < k ==> clock::in_calendar((#[trigger] candles@[j]).open_time as int),
            decreases candles@.len() - k,
        {
            if candle_time(timeframe, candles[k].open_time).is_none() {
                assert(!clock::in_calendar(candles@[k as int].open_time as int));
                return Err(StartError::OutsideCalendar);
            }
            k = k + 1;
        }
        match Simulation::new(&candles, timeframe, start, rules) {
            Some(simulation) => {
                proof {
                    strategy_laws::nothing_is_within_limits();
                    assert(simulation.ledger@.positions =~= Seq::empty());
                    assert(simulation::points(simulation.curve@).len() == 1);
                }
                let worth = simulation.ledger.worth_at(simulation.initial_price);
                Ok(
                    Backtest {
                        simulation,
                        candles,
                        timeframe: timeframe.to_owned(),
                        place: start,
                        left: 0,
                        worth,
                    },
                )
            },
            None => Err(StartError::OutsideCalendar),
        }
    }

    /// Opens the next step; there is none behind the last candle.
    pub fn next_step(&mut self) -> (r: bool)
        requires
            old(self).wf(),
            old(self).left == 0,
        ensures
            final(self).wf(),
            final(self).same_run(old(self)),
            final(self).place == old(self).place,
            final(self).simulation.curve == old(self).simulation.curve,
            r == (old(self).place < old(self).candles@.len()),
            !r ==> *final(self) == *old(self),
            r ==> ({
                let candle = old(self).candles@[old(self).place as int];
                &&& final(self).left == ATTEMPTS
                &&& final(self).simulation.ledger@ == old(self).simulation.ledger@.begun(
                    candle,
                    old(self).simulation.rules.fee_rate,
                )
                &&& final(self).worth == final(self).simulation.ledger@.worth(candle.close)
            }),
    {
        if self.place == self.candles.len() {
            return false;
        }
        let candle = self.candles[self.place];
        proof {
            let book = self.simulation.ledger@;
            let clean = Book {
                acciones: Seq::empty(),
                precios: Seq::empty(),
                entries: Seq::empty(),
                ..book
            };
            strategy_laws::exits_keep_limits(clean, candle, self.simulation.rules.fee_rate);
        }
        self.worth = self.simulation.open_step(&candle);
        self.left = ATTEMPTS;
        true
    }

    /// The question to the model in the open step.
    pub fn question(&self, risk: &str, recent: &str) -> (r: String)
        requires
            self.wf(),
            self.left > 0,
        ensures
            r@ == self.simulation.question(
                self.candles@,
                self.place as int,
                self.worth.equity,
                risk@,
                recent@,
            ),
    {
        self.simulation.user_prompt(&self.candles, self.place, self.worth.equity, risk, recent)
    }

    fn close(&mut self)
        requires
            old(self).wf(),
            old(self).left > 0,
        ensures
            final(self).wf(),
            final(self).same_run(old(self)),
            final(self).worth == old(self).worth,
            final(self).left == 0,
            final(self).place == old(self).place + 1,
            ({
                let candle = old(self).candles@[old(self).place as int];
                let book = old(self).simulation.ledger@;
                &&& final(self).simulation.ledger@ == book.consolidated(candle.close, 0)
                &&& simulation::points(final(self).simulation.curve@) == simulation::points(
                    old(self).simulation.curve@,
                ).push(end_point(old(self).simulation, book, candle, old(self).timeframe@))
            }),
    {
        let candle = self.candles[self.place];
        proof {
            strategy_laws::consolidation_only_writes(self.simulation.ledger@, candle.close, 0);
            assert(clock::in_calendar(self.candles@[self.place as int].open_time as int));
        }
        let ghost before = simulation::points(self.simulation.curve@);
        let _ = self.simulation.close_step(&candle, self.timeframe.as_str());
        proof {
            assert(before.len() == old(self).simulation.curve@.len());
            assert(simulation::points(self.simulation.curve@).len() == before.len() + 1);
        }
        assert(self.place < self.candles.len() <= usize::MAX);
        self.left = 0;
        self.place = self.place + 1;
    }

    /// Takes a reply of the model: an answer that could be read is carried out and closes the step;
    /// without one the model is asked again until the attempts are spent.
    pub fn take_reply(&mut self, answer: Option<&GemmaResponse>) -> (r: Reply)
        requires
            old(self).wf(),
            old(self).left > 0,
        ensures
            final(self).wf(),
            final(self).same_run(old(self)),
            final(self).worth == old(self).worth,
            ({
                let candle = old(self).candles@[old(self).place as int];
                let book = old(self).simulation.ledger@;
                match answer {
                    Some(answer) => {
                        let (after, outcomes) = book.answered(
                            *answer,
                            simulation::macro_trend(old(self).candles@, old(self).place as int),
                            old(self).simulation.rules,
                            old(self).worth.equity,
                            candle.close,
                        );
                        &&& r == (Reply::CarriedOut { lt: outcomes.0, st: outcomes.1 })
                        &&& old(self).stepped(*final(self), after)
                    },
                    None => if old(self).left > 1 {
                        &&& r == Reply::Again
                        &&& final(self).left == old(self).left - 1
                        &&& final(self).place == old(self).place
                        &&& final(self).simulation == old(self).simulation
                    } else {
                        &&& r == Reply::GivenUp
                        &&& old(self).stepped(*final(self), book)
                    },
                }
            }),
    {
        match answer {
            Some(answer) => {
                let ghost before = self.simulation.ledger@;
                let (lt, st) = self.simulation.apply(
                    answer,
                    &self.candles,
                    self.place,
                    self.worth.equity,
                );
                proof {
                    let trend = simulation::macro_trend(self.candles@, self.place as int);
                    let price = self.candles@[self.place as int].close;
                    strategy_laws::answers_keep_limits(
                        before,
                        *answer,
                        trend,
                        self.simulation.rules,
                        self.worth.equity,
                        price,
                    );
                }
                self.close();
                Reply::CarriedOut { lt, st }
            },
            None => {
                self.left = attempts_left(self.left, false);
                if self.left > 0 {
                    Reply::Again
                } else {
                    self.left = 1;
                    self.close();
                    Reply::GivenUp
                }
            },
        }
    }

    /// Whether the open step was closed with a book: it is written down, the curve has one point
    /// more, and the next candle comes up.
    pub open spec fn stepped(&self, after: Backtest, book: Book) -> bool {
        let candle = self.candles@[self.place as int];
        &&& after.left == 0
        &&& after.place == self.place + 1
        &&& after.simulation.ledger@ == book.consolidated(candle.close, 0)
        &&& simulation::points(after.simulation.curve@) == simulation::points(
            self.simulation.curve@,
        ).push(end_point(self.simulation, book, candle, self.timeframe@))
    }

    /// The report of the step that was closed last.
    pub fn last_status(&self) -> (r: String)
        requires
            self.wf(),
            self.left == 0,
            self.place > self.simulation.start,
        ensures
            r@ == self.simulation.status(
                self.candles@,
                self.place - 1,
                clock::utc_text(
                    self.candles@[self.place - 1].open_time as int,
                    clock::pattern(self.timeframe@),
                ),
                self.worth,
            ),
    {
        let i: usize = self.place - 1;
        assert(clock::in_calendar(self.candles@[i as int].open_time as int));
        let time = match candle_time(self.timeframe.as_str(), self.candles[i].open_time) {
            Some(time) => time,
            None => String::new(),
        };
        self.simulation.status_text(&self.candles, i, time.as_str(), &self.worth)
    }

    /// Ends the simulation behind the last candle.
    pub fn finish(&mut self) -> (r: BacktestSummary)
        requires
            old(self).wf(),
            old(self).left == 0,
            old(self).place == old(self).candles@.len(),
            old(self).place > old(self).simulation.start,
        ensures
            final(self).same_run(old(self)),
            final(self).simulation.wf(),
            final(self).simulation.curve == old(self).simulation.curve,
            old(self).simulation.ended(
                final(self).simulation,
                old(self).candles@.last(),
                r,
            ),
    {
        let last = self.candles[self.candles.len() - 1];
        self.simulation.finish(&last, self.timeframe.as_str())
    }
}

} // verus!
