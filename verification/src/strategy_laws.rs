//! What every step of the strategy keeps.

use crate::backtest;
use crate::backtest::{BoxOutcome, Rules};
use crate::box_laws;
use crate::double;
use crate::double::Double;
use crate::double_laws;
use crate::error_laws;
use crate::indicators;
use crate::ledger::Book;
use crate::liquidation_laws;
use crate::positions;
use crate::positions::{EntryFigures, Exit};
use crate::report_laws;
use crate::rounding;
use crate::simulation;
use crate::simulation::Simulation;
use crate::text;
use crate::types::{BoxAction, BoxType, Candle, GemmaResponse, Position, PositionType};
use vstd::arithmetic::power2::*;
use vstd::prelude::*;

verus! {

/// The positions of a box, in their order.
pub open spec fn in_box(s: Seq<Position>, box_type: BoxType) -> Seq<Position>
    decreases s.len(),
{
    if s.len() == 0 {
        Seq::empty()
    } else if s.last().box_type == box_type {
        in_box(s.drop_last(), box_type).push(s.last())
    } else {
        in_box(s.drop_last(), box_type)
    }
}

/// The positions that outlive a candle, in their order.
pub open spec fn surviving(s: Seq<Position>, candle: Candle) -> Seq<Position>
    decreases s.len(),
{
    if s.len() == 0 {
        Seq::empty()
    } else if s.last().exit(candle) is None {
        surviving(s.drop_last(), candle).push(s.last())
    } else {
        surviving(s.drop_last(), candle)
    }
}

/// No box holds more than two positions of one direction.
pub open spec fn within_limits(s: Seq<Position>) -> bool {
    forall|box_type: BoxType, t: PositionType| #[trigger]
        backtest::count_in_box(s, box_type, t, s.len()) <= 2
}

proof fn lemma_in_box_add(a: Seq<Position>, b: Seq<Position>, box_type: BoxType)
    ensures
        in_box(a + b, box_type) == in_box(a, box_type) + in_box(b, box_type),
    decreases b.len(),
{
    if b.len() == 0 {
        assert(a + b =~= a);
        assert(in_box(a, box_type) + in_box(b, box_type) =~= in_box(a, box_type));
    } else {
        lemma_in_box_add(a, b.drop_last(), box_type);
        assert((a + b).drop_last() =~= a + b.drop_last());
        assert(in_box(a + b, box_type) =~= in_box(a, box_type) + in_box(b, box_type));
    }
}

/// After a candle ended what it ends, exactly the positions that outlive it are left, in their
/// order.
pub proof fn exits_leave_survivors(book: Book, candle: Candle, fee_rate: Double)
    ensures
        book.exits(candle, fee_rate, book.positions.len()).positions == surviving(
            book.positions,
            candle,
        ),
{
    lemma_exits(book, candle, fee_rate, book.positions.len());
    assert(book.positions.take(book.positions.len() as int) =~= book.positions);
    assert(book.positions.skip(book.positions.len() as int) =~= Seq::empty());
    assert(surviving(book.positions, candle) + Seq::<Position>::empty() =~= surviving(
        book.positions,
        candle,
    ));
}

proof fn lemma_exits(book: Book, candle: Candle, fee_rate: Double, k: nat)
    requires
        k <= book.positions.len(),
    ensures
        book.exits(candle, fee_rate, k).positions == surviving(
            book.positions.take(k as int),
            candle,
        ) + book.positions.skip(k as int),
    decreases k,
{
    let s = book.positions;
    if k == 0 {
        assert(s.take(0) =~= Seq::empty());
        assert(s.skip(0) =~= s);
        assert(Seq::<Position>::empty() + s =~= s);
    } else {
        let i = (k - 1) as nat;
        let pos = s[i as int];
        assert(s.take(k as int).drop_last() =~= s.take(i as int));
        assert(s.take(k as int).last() == pos);
        let next = match pos.exit(candle) {
            None => book,
            Some(Exit::Liquidation) => book.without(i as int).liquidated(pos, fee_rate),
            Some(Exit::StopLoss { price }) => book.without(i as int).stopped(pos, price, fee_rate),
        };
        lemma_exits(next, candle, fee_rate, i);
        assert(next.positions.take(i as int) =~= s.take(i as int));
        if pos.exit(candle) is None {
            assert(surviving(s.take(i as int), candle) + s.skip(i as int) =~= surviving(
                s.take(k as int),
                candle,
            ) + s.skip(k as int));
        } else {
            assert(next.positions.skip(i as int) =~= s.skip(k as int));
        }
    }
}

/// The other box.
pub open spec fn other_box(box_type: BoxType) -> BoxType {
    match box_type {
        BoxType::LT => BoxType::ST,
        BoxType::ST => BoxType::LT,
    }
}

proof fn lemma_in_box_twice(s: Seq<Position>, box_type: BoxType)
    ensures
        in_box(in_box(s, box_type), box_type) == in_box(s, box_type),
        in_box(in_box(s, box_type), other_box(box_type)) == Seq::<Position>::empty(),
    decreases s.len(),
{
    if s.len() > 0 {
        lemma_in_box_twice(s.drop_last(), box_type);
        if s.last().box_type == box_type {
            let rest = in_box(s.drop_last(), box_type);
            assert(rest.push(s.last()).drop_last() =~= rest);
        }
    }
}

proof fn lemma_first_of_box(s: Seq<Position>, box_type: BoxType)
    requires
        s.len() > 0,
    ensures
        in_box(s, box_type) == (if s[0].box_type == box_type {
            seq![s[0]] + in_box(s.skip(1), box_type)
        } else {
            in_box(s.skip(1), box_type)
        }),
{
    let head = seq![s[0]];
    assert(s =~= head + s.skip(1));
    lemma_in_box_add(head, s.skip(1), box_type);
    assert(head.drop_last() =~= Seq::empty());
    assert(in_box(head.drop_last(), box_type) =~= Seq::empty());
    if s[0].box_type == box_type {
        assert(in_box(head, box_type) =~= head);
    } else {
        assert(in_box(head, box_type) + in_box(s.skip(1), box_type) =~= in_box(
            s.skip(1),
            box_type,
        ));
    }
}

proof fn lemma_closing(
    book: Book,
    todo: Seq<Position>,
    box_type: BoxType,
    price: Double,
    fee_rate: Double,
)
    ensures
        book.closing(todo, box_type, price, fee_rate).positions == book.positions + in_box(
            todo,
            other_box(box_type),
        ),
    decreases todo.len(),
{
    if todo.len() == 0 {
        assert(book.positions + in_box(todo, other_box(box_type)) =~= book.positions);
    } else {
        let pos = todo[0];
        lemma_first_of_box(todo, other_box(box_type));
        if pos.box_type == box_type {
            lemma_closing(
                book.closed(pos, price, fee_rate),
                todo.skip(1),
                box_type,
                price,
                fee_rate,
            );
        } else {
            let next = Book { positions: book.positions.push(pos), ..book };
            lemma_closing(next, todo.skip(1), box_type, price, fee_rate);
            assert(book.positions.push(pos) + in_box(todo.skip(1), other_box(box_type))
                =~= book.positions + (seq![pos] + in_box(todo.skip(1), other_box(box_type))));
        }
    }
}

/// Closing a box leaves none of its positions, and those of the other box as they were.
pub proof fn closing_empties_one_box(book: Book, box_type: BoxType, price: Double, fee_rate: Double)
    ensures
        book.box_closed(box_type, price, fee_rate).positions == in_box(
            book.positions,
            other_box(box_type),
        ),
        in_box(book.box_closed(box_type, price, fee_rate).positions, box_type) == Seq::<
            Position,
        >::empty(),
        in_box(book.box_closed(box_type, price, fee_rate).positions, other_box(box_type)) == in_box(
            book.positions,
            other_box(box_type),
        ),
{
    let empty = Book { positions: Seq::empty(), ..book };
    lemma_closing(empty, book.positions, box_type, price, fee_rate);
    assert(Seq::<Position>::empty() + in_box(book.positions, other_box(box_type)) =~= in_box(
        book.positions,
        other_box(box_type),
    ));
    lemma_in_box_twice(book.positions, other_box(box_type));
}

/// The positions with one stop loss asked for a whole box.
pub open spec fn with_stop(s: Seq<Position>, box_type: BoxType, stop: Double) -> Seq<Position> {
    s.map_values(
        |p: Position|
            if p.box_type == box_type {
                Position { stop_loss: Some(p.stop_for(stop)), ..p }
            } else {
                p
            },
    )
}

proof fn lemma_stops(book: Book, box_type: BoxType, stop: Double, price: Double, k: nat)
    requires
        k <= book.positions.len(),
    ensures
        book.stops_moved(box_type, stop, price, k).positions.len() == book.positions.len(),
        forall|i: int|
            0 <= i < book.positions.len() ==> #[trigger] book.stops_moved(
                box_type,
                stop,
                price,
                k,
            ).positions[i] == (if i < k {
                book.positions[i]
            } else {
                with_stop(book.positions, box_type, stop)[i]
            }),
    decreases book.positions.len() - k,
{
    let s = book.positions;
    if k < s.len() {
        let pos = s[k as int];
        if pos.box_type == box_type {
            let next = book.stop_moved(stop, price, k as int);
            lemma_stops(next, box_type, stop, price, k + 1);
            let after = next.stops_moved(box_type, stop, price, k + 1).positions;
            assert(book.stops_moved(box_type, stop, price, k).positions == after);
            assert forall|i: int| 0 <= i < s.len() implies #[trigger] after[i] == (if i < k {
                s[i]
            } else {
                with_stop(s, box_type, stop)[i]
            }) by {
                if i > k {
                    assert(next.positions[i] == s[i]);
                } else {
                    assert(after[i] == next.positions[i]);
                }
            }
        } else {
            lemma_stops(book, box_type, stop, price, k + 1);
        }
    }
}

/// Moving the stop loss of a box sets it for all of its positions, each within what the position
/// may have, and touches nothing else of any position.
pub proof fn stops_move_in_one_box(book: Book, box_type: BoxType, stop: Double, price: Double)
    ensures
        book.stops_moved(box_type, stop, price, 0).positions == with_stop(
            book.positions,
            box_type,
            stop,
        ),
{
    lemma_stops(book, box_type, stop, price, 0);
    assert(book.stops_moved(box_type, stop, price, 0).positions =~= with_stop(
        book.positions,
        box_type,
        stop,
    ));
}

proof fn lemma_with_stop_other(s: Seq<Position>, box_type: BoxType, stop: Double)
    ensures
        in_box(with_stop(s, box_type, stop), other_box(box_type)) == in_box(s, other_box(box_type)),
    decreases s.len(),
{
    if s.len() > 0 {
        lemma_with_stop_other(s.drop_last(), box_type, stop);
        assert(with_stop(s, box_type, stop).drop_last() =~= with_stop(
            s.drop_last(),
            box_type,
            stop,
        ));
    }
}

/// The boxes are independent: whatever is done in one leaves the positions of the other as they
/// were.
pub proof fn boxes_are_independent(
    book: Book,
    action: BoxAction,
    box_type: BoxType,
    only: Option<PositionType>,
    rules: Rules,
    equity: Double,
    price: Double,
)
    ensures
        in_box(
            book.acted(action, box_type, only, rules, equity, price).0.positions,
            other_box(box_type),
        ) == in_box(book.positions, other_box(box_type)),
{
    let other = other_box(box_type);
    closing_empties_one_box(book, box_type, price, rules.fee_rate);
    let closed = if action.cerrar {
        book.box_closed(box_type, price, rules.fee_rate)
    } else {
        book
    };
    let moved = match action.stop_loss {
        Some(stop) => closed.stops_moved(box_type, stop, price, 0),
        None => closed,
    };
    if action.stop_loss is Some {
        stops_move_in_one_box(closed, box_type, action.stop_loss->Some_0, price);
        lemma_with_stop_other(closed.positions, box_type, action.stop_loss->Some_0);
    }
    let last = book.acted(action, box_type, only, rules, equity, price).0.positions;
    if last.len() > moved.positions.len() {
        assert(last.drop_last() =~= moved.positions);
    }
}

proof fn lemma_count_prefix(
    a: Seq<Position>,
    b: Seq<Position>,
    box_type: BoxType,
    t: PositionType,
    n: nat,
)
    requires
        n <= a.len(),
        n <= b.len(),
        forall|i: int|
            0 <= i < n ==> (#[trigger] a[i]).box_type == b[i].box_type && a[i].position_type
                == b[i].position_type,
    ensures
        backtest::count_in_box(a, box_type, t, n) == backtest::count_in_box(b, box_type, t, n),
    decreases n,
{
    if n > 0 {
        lemma_count_prefix(a, b, box_type, t, (n - 1) as nat);
        assert(a[n - 1].box_type == b[n - 1].box_type);
    }
}

proof fn lemma_count_push(s: Seq<Position>, pos: Position, box_type: BoxType, t: PositionType)
    ensures
        backtest::count_in_box(s.push(pos), box_type, t, s.len() + 1) == backtest::count_in_box(
            s,
            box_type,
            t,
            s.len(),
        ) + (if pos.box_type == box_type && pos.position_type == t {
            1nat
        } else {
            0nat
        }),
{
    lemma_count_prefix(s.push(pos), s, box_type, t, s.len());
}

proof fn lemma_count_last(s: Seq<Position>, box_type: BoxType, t: PositionType)
    requires
        s.len() > 0,
    ensures
        backtest::count_in_box(s, box_type, t, s.len()) == backtest::count_in_box(
            s.drop_last(),
            box_type,
            t,
            (s.len() - 1) as nat,
        ) + (if s.last().box_type == box_type && s.last().position_type == t {
            1nat
        } else {
            0nat
        }),
{
    lemma_count_prefix(s, s.drop_last(), box_type, t, (s.len() - 1) as nat);
}

proof fn lemma_count_surviving(s: Seq<Position>, candle: Candle, box_type: BoxType, t: PositionType)
    ensures
        backtest::count_in_box(surviving(s, candle), box_type, t, surviving(s, candle).len())
            <= backtest::count_in_box(s, box_type, t, s.len()),
    decreases s.len(),
{
    if s.len() > 0 {
        let rest = surviving(s.drop_last(), candle);
        lemma_count_surviving(s.drop_last(), candle, box_type, t);
        lemma_count_last(s, box_type, t);
        lemma_count_push(rest, s.last(), box_type, t);
    }
}

proof fn lemma_count_in_box(s: Seq<Position>, kept: BoxType, box_type: BoxType, t: PositionType)
    ensures
        backtest::count_in_box(in_box(s, kept), box_type, t, in_box(s, kept).len())
            <= backtest::count_in_box(s, box_type, t, s.len()),
    decreases s.len(),
{
    if s.len() > 0 {
        let rest = in_box(s.drop_last(), kept);
        lemma_count_in_box(s.drop_last(), kept, box_type, t);
        lemma_count_last(s, box_type, t);
        lemma_count_push(rest, s.last(), box_type, t);
    }
}

/// A candle that ends positions keeps the limit of two positions per box and direction.
pub proof fn exits_keep_limits(book: Book, candle: Candle, fee_rate: Double)
    requires
        within_limits(book.positions),
    ensures
        within_limits(book.exits(candle, fee_rate, book.positions.len()).positions),
{
    exits_leave_survivors(book, candle, fee_rate);
    let after = surviving(book.positions, candle);
    assert forall|box_type: BoxType, t: PositionType| #[trigger]
        backtest::count_in_box(after, box_type, t, after.len()) <= 2 by {
        lemma_count_surviving(book.positions, candle, box_type, t);
        assert(backtest::count_in_box(book.positions, box_type, t, book.positions.len()) <= 2);
    }
}

/// An answer of the model never makes a box hold more than two positions of one direction.
pub proof fn actions_keep_limits(
    book: Book,
    action: BoxAction,
    acting: BoxType,
    only: Option<PositionType>,
    rules: Rules,
    equity: Double,
    price: Double,
)
    requires
        within_limits(book.positions),
    ensures
        within_limits(book.acted(action, acting, only, rules, equity, price).0.positions),
{
    closing_empties_one_box(book, acting, price, rules.fee_rate);
    let closed = if action.cerrar {
        book.box_closed(acting, price, rules.fee_rate)
    } else {
        book
    };
    let moved = match action.stop_loss {
        Some(stop) => closed.stops_moved(acting, stop, price, 0),
        None => closed,
    };
    if action.stop_loss is Some {
        stops_move_in_one_box(closed, acting, action.stop_loss->Some_0, price);
    }
    let after = book.acted(action, acting, only, rules, equity, price).0.positions;
    assert forall|box_type: BoxType, t: PositionType| #[trigger]
        backtest::count_in_box(after, box_type, t, after.len()) <= 2 by {
        assert(backtest::count_in_box(book.positions, box_type, t, book.positions.len()) <= 2);
        if action.cerrar {
            lemma_count_in_box(book.positions, other_box(acting), box_type, t);
        }
        lemma_count_prefix(
            closed.positions,
            moved.positions,
            box_type,
            t,
            closed.positions.len(),
        );
        if after.len() > moved.positions.len() {
            lemma_count_push(moved.positions, after.last(), box_type, t);
            assert(after =~= moved.positions.push(after.last()));
        }
    }
}

/// An empty account is within the limits.
pub proof fn nothing_is_within_limits()
    ensures
        within_limits(Seq::<Position>::empty()),
{
    assert forall|box_type: BoxType, t: PositionType| #[trigger]
        backtest::count_in_box(Seq::<Position>::empty(), box_type, t, 0) <= 2 by {}
}

/// How far the score may have moved by `k` closed trades: ten up or down for each.
pub open spec fn moved_by_tens(before: int, after: int, k: int) -> bool {
    &&& -10 * k <= after - before <= 10 * k
    &&& (after - before + 10 * k) % 20 == 0
}

/// Whether the results of one book are those of another with more behind them.
pub open spec fn continues(before: Seq<Double>, after: Seq<Double>) -> bool {
    before.len() <= after.len() && after.take(before.len() as int) == before
}

proof fn lemma_continues(a: Seq<Double>, b: Seq<Double>, c: Seq<Double>)
    requires
        continues(a, b),
        continues(b, c),
    ensures
        continues(a, c),
{
    assert(c.take(a.len() as int) =~= c.take(b.len() as int).take(a.len() as int));
}

proof fn lemma_tens(before: int, middle: int, after: int, k: int)
    requires
        middle == before + 10 || middle == before - 10,
        moved_by_tens(middle, after, k),
    ensures
        moved_by_tens(before, after, k + 1),
{
}

/// Every position that a candle ends lists its result twice, moves the score by ten, and leaves
/// the earlier results as they were.
pub proof fn exits_score(book: Book, candle: Candle, fee_rate: Double, k: nat)
    requires
        k <= book.positions.len(),
    ensures
        ({
            let after = book.exits(candle, fee_rate, k);
            let ended = book.positions.len() - after.positions.len();
            &&& 0 <= ended <= k
            &&& after.pnls.len() == book.pnls.len() + 2 * ended
            &&& continues(book.pnls, after.pnls)
            &&& moved_by_tens(book.score, after.score, ended)
        }),
    decreases k,
{
    if k == 0 {
        assert(book.pnls.take(book.pnls.len() as int) =~= book.pnls);
    } else {
        let i = (k - 1) as nat;
        let pos = book.positions[i as int];
        let next = match pos.exit(candle) {
            None => book,
            Some(Exit::Liquidation) => book.without(i as int).liquidated(pos, fee_rate),
            Some(Exit::StopLoss { price }) => book.without(i as int).stopped(pos, price, fee_rate),
        };
        exits_score(next, candle, fee_rate, i);
        let after = next.exits(candle, fee_rate, i);
        assert(book.exits(candle, fee_rate, k) == after);
        if pos.exit(candle) is Some {
            assert(next.pnls.take(book.pnls.len() as int) =~= book.pnls);
            lemma_continues(book.pnls, next.pnls, after.pnls);
            lemma_tens(
                book.score,
                next.score,
                after.score,
                next.positions.len() - after.positions.len(),
            );
        }
    }
}

proof fn lemma_closing_score(
    book: Book,
    todo: Seq<Position>,
    box_type: BoxType,
    price: Double,
    fee_rate: Double,
)
    ensures
        ({
            let after = book.closing(todo, box_type, price, fee_rate);
            let ended = in_box(todo, box_type).len();
            &&& after.pnls.len() == book.pnls.len() + ended
            &&& continues(book.pnls, after.pnls)
            &&& moved_by_tens(book.score, after.score, ended as int)
        }),
    decreases todo.len(),
{
    if todo.len() == 0 {
        assert(book.pnls.take(book.pnls.len() as int) =~= book.pnls);
    } else {
        let pos = todo[0];
        lemma_first_of_box(todo, box_type);
        let next = if pos.box_type == box_type {
            book.closed(pos, price, fee_rate)
        } else {
            Book { positions: book.positions.push(pos), ..book }
        };
        lemma_closing_score(next, todo.skip(1), box_type, price, fee_rate);
        let after = next.closing(todo.skip(1), box_type, price, fee_rate);
        assert(book.closing(todo, box_type, price, fee_rate) == after);
        if pos.box_type == box_type {
            assert(next.pnls.take(book.pnls.len() as int) =~= book.pnls);
            lemma_continues(book.pnls, next.pnls, after.pnls);
            lemma_tens(
                book.score,
                next.score,
                after.score,
                in_box(todo.skip(1), box_type).len() as int,
            );
        }
    }
}

/// Every position that is closed with its box lists its result once, moves the score by ten, and
/// leaves the earlier results as they were.
pub proof fn closing_scores(book: Book, box_type: BoxType, price: Double, fee_rate: Double)
    ensures
        ({
            let after = book.box_closed(box_type, price, fee_rate);
            let ended = in_box(book.positions, box_type).len();
            &&& after.pnls.len() == book.pnls.len() + ended
            &&& continues(book.pnls, after.pnls)
            &&& moved_by_tens(book.score, after.score, ended as int)
        }),
{
    let empty = Book { positions: Seq::empty(), ..book };
    lemma_closing_score(empty, book.positions, box_type, price, fee_rate);
}

/// An action that closes nothing, moves no stop loss and names no direction changes nothing.
pub proof fn holding_changes_nothing(
    book: Book,
    action: BoxAction,
    box_type: BoxType,
    only: Option<PositionType>,
    rules: Rules,
    equity: Double,
    price: Double,
)
    requires
        !action.cerrar,
        action.stop_loss is None,
        backtest::wanted(text::uppercase_of(action.accion@)) == PositionType::NoPosition,
    ensures
        book.acted(action, box_type, only, rules, equity, price) == (book, BoxOutcome::Nothing),
{
}

/// A position that is opened goes with the trend where the box is bound to it, has a place in its
/// box, and is covered by the balance with its fee.
pub proof fn openings_are_allowed(
    book: Book,
    t: PositionType,
    box_type: BoxType,
    only: Option<PositionType>,
    chosen: Option<Double>,
    stop_loss: Option<Double>,
    rules: Rules,
    equity: Double,
    price: Double,
)
    ensures
        ({
            let (after, outcome) = book.opening(
                t,
                box_type,
                only,
                chosen,
                stop_loss,
                rules,
                equity,
                price,
            );
            match outcome {
                BoxOutcome::Opened { position } => {
                    let fee = backtest::opening_cost(
                        position.margin,
                        backtest::leverage_used(rules, chosen),
                        rules.fee_rate,
                    );
                    &&& t != PositionType::NoPosition
                    &&& only is Some ==> only == Some(t)
                    &&& backtest::has_place(book.positions, box_type, t, price)
                    &&& backtest::affordable(position.margin, fee, book.saldo)
                    &&& after.positions == book.positions.push(position)
                    &&& after.saldo == book.saldo.minus(position.margin.plus(fee))
                    &&& position.position_type == t
                    &&& position.box_type == box_type
                    &&& position.entry_price == price
                },
                _ => after == book,
            }
        }),
{
}

/// A further position in a box asks for the margin of the first, cut down only by what the box or
/// the balance has left.
pub proof fn further_margin_is_the_first(
    s: Seq<Position>,
    box_type: BoxType,
    equity: Double,
    risk_percent: Double,
)
    ensures
        match backtest::first_in_box(s, box_type, 0) {
            Some(first) => {
                let limit = equity.times(backtest::allocation(box_type));
                let bound = backtest::margin_in_box(s, box_type, s.len());
                let margin = backtest::margin_wanted(s, box_type, equity, risk_percent);
                if limit.below(bound.plus(first.margin)) {
                    margin == limit.minus(bound)
                } else {
                    margin == first.margin
                }
            },
            None => true,
        },
{
}

/// A candle that reaches the liquidation price liquidates, whatever the stop loss.
pub proof fn liquidation_comes_first(pos: Position, candle: Candle)
    ensures
        pos.position_type == PositionType::Long && candle.low.at_most(pos.liquidation_price)
            ==> pos.exit(candle) == Some(Exit::Liquidation),
        pos.position_type == PositionType::Short && pos.liquidation_price.at_most(candle.high)
            ==> pos.exit(candle) == Some(Exit::Liquidation),
{
}

/// A liquidation costs the margin: nothing of it returns to the balance.
pub proof fn liquidation_returns_nothing(book: Book, pos: Position, fee_rate: Double)
    ensures
        book.liquidated(pos, fee_rate).saldo == book.saldo,
        book.liquidated(pos, fee_rate).score == book.score - 10,
        book.liquidated(pos, fee_rate).liquidaciones == book.liquidaciones + 1,
{
}

/// The long-term box only ever opens with the trend.
pub proof fn long_term_follows_the_trend(
    book: Book,
    answer: GemmaResponse,
    trend: PositionType,
    rules: Rules,
    equity: Double,
    price: Double,
)
    ensures
        book.answered(answer, trend, rules, equity, price).1.0 matches BoxOutcome::Opened {
            position,
        } ==> position.position_type == trend && position.box_type == BoxType::LT,
{
}

/// Opening a position never takes the balance below zero.
pub proof fn opening_keeps_the_balance(
    book: Book,
    t: PositionType,
    box_type: BoxType,
    only: Option<PositionType>,
    chosen: Option<Double>,
    stop_loss: Option<Double>,
    rules: Rules,
    equity: Double,
    price: Double,
)
    requires
        !book.saldo.below(Double::zero()),
    ensures
        !book.opening(
            t,
            box_type,
            only,
            chosen,
            stop_loss,
            rules,
            equity,
            price,
        ).0.saldo.below(Double::zero()),
{
    let (after, outcome) = book.opening(
        t,
        box_type,
        only,
        chosen,
        stop_loss,
        rules,
        equity,
        price,
    );
    if outcome is Opened {
        let position = outcome->position;
        let fee = backtest::opening_cost(
            position.margin,
            backtest::leverage_used(rules, chosen),
            rules.fee_rate,
        );
        double_laws::taking_no_more_leaves_no_less_than_zero(
            position.margin.plus(fee),
            book.saldo,
        );
    }
}

/// Writing down the open positions changes nothing but the log, which keeps what it had.
pub proof fn consolidation_only_writes(book: Book, price: Double, k: nat)
    ensures
        ({
            let after = book.consolidated(price, k);
            &&& after == (Book { entries: after.entries, ..book })
            &&& book.entries.len() <= after.entries.len()
            &&& after.entries.take(book.entries.len() as int) == book.entries
        }),
    decreases book.positions.len() - k,
{
    if k >= book.positions.len() {
        assert(book.entries.take(book.entries.len() as int) =~= book.entries);
    } else {
        let pos = book.positions[k as int];
        let next = written_down(book, price, k);
        consolidation_only_writes(next, price, k + 1);
        let after = next.consolidated(price, k + 1);
        assert(book.consolidated(price, k) == after);
        assert(after.entries.take(book.entries.len() as int) =~= after.entries.take(
            next.entries.len() as int,
        ).take(book.entries.len() as int));
        assert(next.entries.take(book.entries.len() as int) =~= book.entries);
    }
}

/// The book after the `k`-th position was written down, if its box has no entry.
spec fn written_down(book: Book, price: Double, k: nat) -> Book {
    let pos = book.positions[k as int];
    if book.mentions(pos.box_type, book.entries.len()) {
        book
    } else {
        Book {
            entries: book.entries.push(
                positions::entry(
                    pos,
                    ""@,
                    pos.stop_loss,
                    EntryFigures {
                        close: Double::zero(),
                        volume: pos.volume(price),
                        pnl: pos.pnl(price),
                        roe: pos.roe(price),
                        fee: Double::zero(),
                    },
                ),
            ),
            ..book
        }
    }
}

proof fn lemma_mentions_grow(a: Book, b: Book, box_type: BoxType, n: nat)
    requires
        n <= a.entries.len() <= b.entries.len(),
        b.entries.take(a.entries.len() as int) == a.entries,
    ensures
        a.mentions(box_type, n) == b.mentions(box_type, n),
    decreases n,
{
    if n > 0 {
        lemma_mentions_grow(a, b, box_type, (n - 1) as nat);
        assert(b.entries.take(a.entries.len() as int)[n - 1] == b.entries[n - 1]);
    }
}

proof fn lemma_mentions_more(book: Book, box_type: BoxType, n: nat, m: nat)
    requires
        n <= m,
        book.mentions(box_type, n),
    ensures
        book.mentions(box_type, m),
    decreases m,
{
    if n < m {
        lemma_mentions_more(book, box_type, n, (m - 1) as nat);
    }
}

proof fn lemma_entry_names_box(pos: Position, stop: Option<Double>, figures: EntryFigures)
    ensures
        text::begins_with(
            positions::entry(pos, ""@, stop, figures),
            positions::box_name(pos.box_type) + ":"@,
        ),
{
    report_laws::entries_begin_with_their_box(pos, ""@, stop, figures);
}

/// Behind a step, every box that holds a position is in the log.
pub proof fn every_box_is_in_the_log(book: Book, price: Double, k: nat, i: int)
    requires
        k <= i < book.positions.len(),
    ensures
        ({
            let after = book.consolidated(price, k);
            after.mentions(book.positions[i].box_type, after.entries.len())
        }),
    decreases book.positions.len() - k,
{
    let pos = book.positions[k as int];
    let next = written_down(book, price, k);
    let after = next.consolidated(price, k + 1);
    assert(book.consolidated(price, k) == after);
    if k < i {
        every_box_is_in_the_log(next, price, k + 1, i);
    } else {
        lemma_entry_names_box(
            pos,
            pos.stop_loss,
            EntryFigures {
                close: Double::zero(),
                volume: pos.volume(price),
                pnl: pos.pnl(price),
                roe: pos.roe(price),
                fee: Double::zero(),
            },
        );
        assert(next.mentions(pos.box_type, next.entries.len()));
        consolidation_only_writes(next, price, k + 1);
        lemma_mentions_grow(next, after, pos.box_type, next.entries.len());
        lemma_mentions_more(after, pos.box_type, next.entries.len(), after.entries.len());
    }
}

/// An answer for both boxes keeps the limit of two positions per box and direction.
pub proof fn answers_keep_limits(
    book: Book,
    answer: GemmaResponse,
    trend: PositionType,
    rules: Rules,
    equity: Double,
    price: Double,
)
    requires
        within_limits(book.positions),
    ensures
        within_limits(book.answered(answer, trend, rules, equity, price).0.positions),
{
    actions_keep_limits(book, answer.lt_box, BoxType::LT, Some(trend), rules, equity, price);
    let lt = book.acted(answer.lt_box, BoxType::LT, Some(trend), rules, equity, price).0;
    actions_keep_limits(lt, answer.st_box, BoxType::ST, None, rules, equity, price);
}

/// A whole step keeps the limit of two positions per box and direction: what the candle ends, what
/// the answer does in both boxes, and what is written down.
pub proof fn steps_keep_limits(
    book: Book,
    candle: Candle,
    answer: GemmaResponse,
    trend: PositionType,
    rules: Rules,
    equity: Double,
)
    requires
        within_limits(book.positions),
    ensures
        within_limits(book.begun(candle, rules.fee_rate).positions),
        within_limits(
            book.begun(candle, rules.fee_rate).answered(
                answer,
                trend,
                rules,
                equity,
                candle.close,
            ).0.consolidated(candle.close, 0).positions,
        ),
{
    let clean = Book {
        acciones: Seq::empty(),
        precios: Seq::empty(),
        entries: Seq::empty(),
        ..book
    };
    exits_keep_limits(clean, candle, rules.fee_rate);
    let begun = book.begun(candle, rules.fee_rate);
    answers_keep_limits(begun, answer, trend, rules, equity, candle.close);
    let st = begun.answered(answer, trend, rules, equity, candle.close).0;
    consolidation_only_writes(st, candle.close, 0);
}

proof fn lemma_stops_results(book: Book, box_type: BoxType, stop: Double, price: Double, k: nat)
    ensures
        book.stops_moved(box_type, stop, price, k).pnls == book.pnls,
        book.stops_moved(box_type, stop, price, k).score == book.score,
        book.stops_moved(box_type, stop, price, k).saldo == book.saldo,
    decreases book.positions.len() - k,
{
    if k < book.positions.len() {
        if book.positions[k as int].box_type == box_type {
            lemma_stops_results(book.stop_moved(stop, price, k as int), box_type, stop, price, k + 1);
        } else {
            lemma_stops_results(book, box_type, stop, price, k + 1);
        }
    }
}

/// The results of closed trades are never rewritten: an answer only adds to them.
pub proof fn results_are_never_rewritten(
    book: Book,
    action: BoxAction,
    box_type: BoxType,
    only: Option<PositionType>,
    rules: Rules,
    equity: Double,
    price: Double,
)
    ensures
        continues(
            book.pnls,
            book.acted(action, box_type, only, rules, equity, price).0.pnls,
        ),
        !action.cerrar ==> book.acted(action, box_type, only, rules, equity, price).0.pnls
            == book.pnls,
{
    assert(book.pnls.take(book.pnls.len() as int) =~= book.pnls);
    closing_scores(book, box_type, price, rules.fee_rate);
    let closed = if action.cerrar {
        book.box_closed(box_type, price, rules.fee_rate)
    } else {
        book
    };
    if action.stop_loss is Some {
        lemma_stops_results(closed, box_type, action.stop_loss->Some_0, price, 0);
    }
}

/// The margin that is asked for fits into what the box may bind together with what it binds, or is
/// what the box has left.
pub proof fn margins_fit_their_box(
    s: Seq<Position>,
    box_type: BoxType,
    equity: Double,
    risk_percent: Double,
)
    ensures
        ({
            let limit = equity.times(backtest::allocation(box_type));
            let bound = backtest::margin_in_box(s, box_type, s.len());
            let margin = backtest::margin_wanted(s, box_type, equity, risk_percent);
            !limit.below(bound.plus(margin)) || margin == limit.minus(bound)
        }),
{
}

/// Answers that say the same do the same: the course of a simulation depends on nothing but the
/// candles, the terms and what the model says.
pub proof fn same_answers_do_the_same(
    book: Book,
    a: GemmaResponse,
    b: GemmaResponse,
    trend: PositionType,
    rules: Rules,
    equity: Double,
    price: Double,
)
    requires
        a@ == b@,
    ensures
        book.answered(a, trend, rules, equity, price) == book.answered(
            b,
            trend,
            rules,
            equity,
            price,
        ),
{
    assert(a.lt_box@ == b.lt_box@);
    assert(a.st_box@ == b.st_box@);
}

/// Closing conserves: what flows back to the balance is the margin, the net result, and the fee that
/// was paid for opening, up to rounding. So the account loses no more than the closing fee.
pub proof fn closing_conserves(pos: Position, price: Double, fee_rate: Double)
    requires
        error_laws::within(pos.margin, 1300),
        error_laws::within(pos.pnl(price), 1300),
        error_laws::within(pos.opening_fee(fee_rate), 1300),
        error_laws::within(pos.closing_fee(price, fee_rate), 1300),
    ensures
        ({
            let back = pos.proceeds(price, fee_rate).units();
            let margin = pos.margin.units();
            let gain = pos.pnl(price).units();
            let paid = pos.opening_fee(fee_rate).units();
            let fee = pos.closing_fee(price, fee_rate).units();
            let size = error_laws::distance(margin, 0) + error_laws::distance(gain, 0)
                + error_laws::distance(paid, 0) + error_laws::distance(fee, 0);
            &&& pow2(49) * error_laws::distance(
                back,
                margin + pos.net_pnl(price, fee_rate).units() + paid,
            ) <= size + pow2(52)
            &&& pow2(49) * error_laws::distance(back, margin + gain - fee) <= size + pow2(52)
            &&& !pos.proceeds(price, fee_rate).is_nan()
            &&& !pos.net_pnl(price, fee_rate).is_nan()
        }),
{
    lemma_settled(
        pos.margin,
        pos.pnl(price),
        pos.opening_fee(fee_rate),
        pos.closing_fee(price, fee_rate),
    );
}

proof fn lemma_settled(margin: Double, gain: Double, paid: Double, fee: Double)
    requires
        error_laws::within(margin, 1300),
        error_laws::within(gain, 1300),
        error_laws::within(paid, 1300),
        error_laws::within(fee, 1300),
    ensures
        ({
            let back = margin.plus(gain).minus(fee);
            let net = gain.minus(paid).minus(fee);
            let size = error_laws::distance(margin.units(), 0) + error_laws::distance(
                gain.units(),
                0,
            ) + error_laws::distance(paid.units(), 0) + error_laws::distance(fee.units(), 0);
            &&& pow2(49) * error_laws::distance(
                back.units(),
                margin.units() + net.units() + paid.units(),
            ) <= size + pow2(52)
            &&& pow2(49) * error_laws::distance(
                back.units(),
                margin.units() + gain.units() - fee.units(),
            ) <= size + pow2(52)
            &&& error_laws::within(back, 1302)
            &&& error_laws::within(net, 1302)
        }),
{
    lemma2_to64();
    lemma2_to64_rest();
    assert(pow2(49) == 0x2_0000_0000_0000);
    assert(pow2(52) == 0x10_0000_0000_0000);
    assert(pow2(53) == 0x20_0000_0000_0000);
    lemma_pow2_strictly_increases(1300, 1301);
    error_laws::lemma_plus_within(margin, gain, 1300);
    error_laws::lemma_minus_within(margin.plus(gain), fee, 1301);
    error_laws::lemma_minus_within(gain, paid, 1300);
    error_laws::lemma_minus_within(gain.minus(paid), fee, 1301);
    lemma_settled_units(
        margin.units(),
        gain.units(),
        paid.units(),
        fee.units(),
        margin.plus(gain).units(),
        margin.plus(gain).minus(fee).units(),
        gain.minus(paid).units(),
        gain.minus(paid).minus(fee).units(),
    );
}

proof fn lemma_settled_units(m: int, g: int, p: int, f: int, a: int, r: int, b: int, n: int)
    requires
        0x20_0000_0000_0000 * error_laws::distance(a, m + g) <= error_laws::distance(m, 0)
            + error_laws::distance(g, 0) + 0x10_0000_0000_0000,
        0x20_0000_0000_0000 * error_laws::distance(r, a - f) <= error_laws::distance(a, 0)
            + error_laws::distance(f, 0) + 0x10_0000_0000_0000,
        0x20_0000_0000_0000 * error_laws::distance(b, g - p) <= error_laws::distance(g, 0)
            + error_laws::distance(p, 0) + 0x10_0000_0000_0000,
        0x20_0000_0000_0000 * error_laws::distance(n, b - f) <= error_laws::distance(b, 0)
            + error_laws::distance(f, 0) + 0x10_0000_0000_0000,
    ensures
        ({
            let size = error_laws::distance(m, 0) + error_laws::distance(g, 0)
                + error_laws::distance(p, 0) + error_laws::distance(f, 0);
            &&& 0x2_0000_0000_0000 * error_laws::distance(r, m + n + p) <= size + 0x10_0000_0000_0000
            &&& 0x2_0000_0000_0000 * error_laws::distance(r, m + g - f) <= size + 0x10_0000_0000_0000
        }),
{
    let sm = error_laws::distance(m, 0);
    let sg = error_laws::distance(g, 0);
    let sp = error_laws::distance(p, 0);
    let sf = error_laws::distance(f, 0);
    let one = error_laws::distance(a, m + g);
    let two = error_laws::distance(r, a - f);
    let three = error_laws::distance(b, g - p);
    let four = error_laws::distance(n, b - f);
    let size = sm + sg + sp + sf;
    assert(0x20_0000_0000_0000 * two <= sm + sg + one + sf + 0x10_0000_0000_0000) by {
        error_laws::lemma_size_of_sum(m, g);
        error_laws::lemma_triangle(a, m + g, 0);
    }
    assert(0x20_0000_0000_0000 * four <= sg + sp + three + sf + 0x10_0000_0000_0000) by {
        error_laws::lemma_size_of_sum(g, p);
        error_laws::lemma_triangle(b, g - p, 0);
    }
    assert(0x2_0000_0000_0000 * (one + two) <= size + 0x10_0000_0000_0000);
    assert(0x2_0000_0000_0000 * (one + two + three + four) <= size + 0x10_0000_0000_0000);
    assert(error_laws::distance(r, m + g - f) <= one + two) by {
        error_laws::lemma_triangle(r, a - f, m + g - f);
        error_laws::lemma_distance_shift(a, m + g, f);
    }
    assert(error_laws::distance(m + n + p, m + g - f) <= three + four) by {
        error_laws::lemma_triangle(m + n + p, m + (b - f) + p, m + g - f);
        error_laws::lemma_distance_shift(n, b - f, m + p);
        error_laws::lemma_distance_shift(b, g - p, m - f + p);
        assert(n + (m + p) == m + n + p);
        assert(b - f + (m + p) == m + (b - f) + p);
        assert(b + (m - f + p) == m + (b - f) + p);
        assert(g - p + (m - f + p) == m + g - f);
    }
    assert(error_laws::distance(r, m + n + p) <= one + two + three + four) by {
        error_laws::lemma_triangle(r, m + g - f, m + n + p);
        error_laws::lemma_triangle(m + n + p, m + g - f, 0);
    }
}

/// What a position gains, a position of the same size in the other direction loses, and at its
/// entry price it does neither.
pub proof fn directions_mirror_each_other(pos: Position, price: Double)
    requires
        !price.is_nan(),
        !price.is_infinite(),
        !pos.entry_price.is_nan(),
        !pos.entry_price.is_infinite(),
        !pos.size_btc.is_nan(),
        !pos.size_btc.is_infinite(),
    ensures
        ({
            let long = Position { position_type: PositionType::Long, ..pos };
            let short = Position { position_type: PositionType::Short, ..pos };
            &&& long.pnl(price).is_nan() == short.pnl(price).is_nan()
            &&& !long.pnl(price).is_nan() ==> long.pnl(price).units() == -short.pnl(price).units()
            &&& long.pnl(pos.entry_price).units() == 0
        }),
{
    let a = price.minus(pos.entry_price);
    let b = pos.entry_price.minus(price);
    error_laws::lemma_minus_units(price, pos.entry_price);
    error_laws::lemma_minus_units(pos.entry_price, price);
    error_laws::lemma_rounded_zero();
    assert(a.units() == -b.units());
    double_laws::nothing_is_left_of_itself(pos.entry_price);
    assert(0nat * pow2(0) == 0);
    lemma_mirrored(a, b, pos.size_btc);
    lemma_nothing_times(pos.size_btc);
}

proof fn lemma_nothing_times(s: Double)
    requires
        !s.is_nan(),
        !s.is_infinite(),
    ensures
        Double::zero().times(s).units() == 0,
{
    reveal(Double::times);
    lemma_pow2_pos(1074);
    assert(0nat * pow2(0) == 0);
    assert(0nat * s.magnitude() == 0);
    double_laws::lemma_nearest_sign(s.negative(), 0, pow2(1074));
    double_laws::lemma_nothing_nearest(s.negative(), pow2(1074));
}

proof fn lemma_mirrored(a: Double, b: Double, s: Double)
    requires
        !a.is_nan(),
        !b.is_nan(),
        !s.is_nan(),
        !s.is_infinite(),
        a.units() == -b.units(),
    ensures
        a.times(s).is_nan() == b.times(s).is_nan(),
        !a.times(s).is_nan() ==> a.times(s).units() == -b.times(s).units(),
{
    reveal(Double::times);
    let u = pow2(1074);
    lemma_pow2_pos(1074);
    assert(a.magnitude() == b.magnitude());
    assert(a.pattern() == b.pattern()) by {
        if a.pattern() < b.pattern() {
            double::lemma_pattern_order(a.pattern(), b.pattern());
        } else if b.pattern() < a.pattern() {
            double::lemma_pattern_order(b.pattern(), a.pattern());
        }
    }
    let num = a.magnitude() * s.magnitude();
    double_laws::lemma_nearest_sign(a.negative() != s.negative(), num, u);
    double_laws::lemma_nearest_sign(b.negative() != s.negative(), num, u);
    double_laws::lemma_nothing_nearest(false, u);
    double_laws::lemma_nothing_nearest(true, u);
    assert(Double::infinity(true).pattern() == rounding::INFINITE);
    assert(Double::infinity(false).pattern() == rounding::INFINITE);
    assert(0nat * pow2(0) == 0);
    double::lemma_pattern_order(0, rounding::INFINITE as nat);
    if a.magnitude() == 0 {
        assert(num == 0) by (nonlinear_arith)
            requires
                a.magnitude() == 0,
                num == a.magnitude() * s.magnitude(),
        ;
    }
}

/// A position gains where the price went its way and loses where it went the other way: a long one
/// with a higher price, a short one with a lower one.
pub proof fn positions_gain_with_their_direction(pos: Position, price: Double)
    requires
        Double::zero().at_most(pos.size_btc),
        !price.is_nan(),
        !pos.entry_price.is_nan(),
        !pos.pnl(price).is_nan(),
    ensures
        match pos.position_type {
            PositionType::Long => {
                &&& pos.entry_price.at_most(price) ==> Double::zero().at_most(pos.pnl(price))
                &&& price.at_most(pos.entry_price) ==> pos.pnl(price).at_most(Double::zero())
            },
            PositionType::Short => {
                &&& price.at_most(pos.entry_price) ==> Double::zero().at_most(pos.pnl(price))
                &&& pos.entry_price.at_most(price) ==> pos.pnl(price).at_most(Double::zero())
            },
            PositionType::NoPosition => pos.pnl(price).equals(Double::zero()),
        },
{
    assert(0nat * pow2(0) == 0);
    let (from, to) = if pos.position_type == PositionType::Long {
        (pos.entry_price, price)
    } else {
        (price, pos.entry_price)
    };
    let d = to.minus(from);
    if pos.position_type != PositionType::NoPosition {
        assert(!d.is_nan()) by {
            reveal(Double::times);
            assert(Double::nan().is_nan());
        }
        lemma_difference_sign(to, from);
        lemma_product_sign(d, pos.size_btc);
    }
}

proof fn lemma_difference_sign(a: Double, b: Double)
    requires
        !a.is_nan(),
        !b.is_nan(),
        !a.minus(b).is_nan(),
    ensures
        b.at_most(a) ==> a.minus(b).units() >= 0,
        a.at_most(b) ==> a.minus(b).units() <= 0,
{
    reveal(Double::plus);
    double_laws::lemma_negated(b);
    assert(0nat * pow2(0) == 0);
    double_laws::lemma_pattern_magnitude_order(a.pattern(), rounding::INFINITE as nat);
    double_laws::lemma_pattern_magnitude_order(b.pattern(), rounding::INFINITE as nat);
    double::lemma_pattern_order(0, rounding::INFINITE as nat);
    if !a.is_infinite() && !b.is_infinite() {
        error_laws::lemma_minus_units(a, b);
        error_laws::lemma_rounded_zero();
        if a.units() <= b.units() {
            error_laws::lemma_rounded_monotone(a.units() - b.units(), 0);
        }
        if b.units() <= a.units() {
            error_laws::lemma_rounded_monotone(0, a.units() - b.units());
        }
    } else {
        box_laws::lemma_only_infinite(a);
        box_laws::lemma_only_infinite(b);
    }
}

proof fn lemma_product_sign(d: Double, s: Double)
    requires
        !d.is_nan(),
        Double::zero().at_most(s),
        !d.times(s).is_nan(),
    ensures
        d.units() >= 0 ==> d.times(s).units() >= 0,
        d.units() <= 0 ==> d.times(s).units() <= 0,
{
    assert(0nat * pow2(0) == 0);
    let zero = Double::zero();
    if !s.is_infinite() {
        lemma_nothing_times(s);
        assert(!zero.times(s).is_nan()) by {
            reveal(Double::times);
            double_laws::lemma_nearest_sign(s.negative(), zero.magnitude() * s.magnitude(), pow2(1074));
        }
        if d.units() >= 0 {
            box_laws::lemma_times_monotone(zero, d, s);
        }
        if d.units() <= 0 {
            box_laws::lemma_times_monotone(d, zero, s);
        }
    } else {
        reveal(Double::times);
        assert(Double::nan().is_nan());
    }
}

/// A position that is closed with a gain returns at least its margin less the closing fee, and one
/// that is closed with a loss at most that: a long one above and below its entry price, a short one
/// below and above it.
pub proof fn gains_flow_back(pos: Position, price: Double, fee_rate: Double)
    requires
        Double::zero().at_most(pos.size_btc),
        !price.is_nan(),
        !pos.entry_price.is_nan(),
        error_laws::within(pos.margin, 1300),
        error_laws::within(pos.pnl(price), 1300),
        error_laws::within(pos.closing_fee(price, fee_rate), 1300),
    ensures
        ({
            let back = pos.proceeds(price, fee_rate);
            let even = pos.margin.minus(pos.closing_fee(price, fee_rate));
            match pos.position_type {
                PositionType::Long => {
                    &&& pos.entry_price.at_most(price) ==> even.at_most(back)
                    &&& price.at_most(pos.entry_price) ==> back.at_most(even)
                },
                PositionType::Short => {
                    &&& price.at_most(pos.entry_price) ==> even.at_most(back)
                    &&& pos.entry_price.at_most(price) ==> back.at_most(even)
                },
                PositionType::NoPosition => true,
            }
        }),
{
    positions_gain_with_their_direction(pos, price);
    let gain = pos.pnl(price);
    let fee = pos.closing_fee(price, fee_rate);
    assert(0nat * pow2(0) == 0);
    lemma_pow2_strictly_increases(1300, 1301);
    error_laws::lemma_plus_within(pos.margin, gain, 1300);
    error_laws::lemma_finite_below(pos.margin, 1300);
    error_laws::lemma_finite_below(gain, 1300);
    error_laws::lemma_finite_below(fee, 1300);
    let with = pos.margin.plus(gain);
    error_laws::lemma_plus_units(pos.margin, gain);
    error_laws::lemma_representable(pos.margin.pattern());
    error_laws::lemma_minus_units(with, fee);
    error_laws::lemma_minus_units(pos.margin, fee);
    let before = pos.margin.units();
    if gain.units() >= 0 {
        error_laws::lemma_rounded_monotone(before, before + gain.units());
        error_laws::lemma_rounded_monotone(before - fee.units(), with.units() - fee.units());
    }
    if gain.units() <= 0 {
        error_laws::lemma_rounded_monotone(before + gain.units(), before);
        error_laws::lemma_rounded_monotone(with.units() - fee.units(), before - fee.units());
    }
}

/// What closing or stopping a position adds to the balance is its margin, the result that is listed
/// for it, and the fee that was paid for opening it, up to rounding.
pub proof fn closings_credit_what_they_list(
    book: Book,
    pos: Position,
    price: Double,
    fee_rate: Double,
)
    requires
        error_laws::within(book.saldo, 1300),
        error_laws::within(pos.margin, 1300),
        error_laws::within(pos.pnl(price), 1300),
        error_laws::within(pos.opening_fee(fee_rate), 1300),
        error_laws::within(pos.closing_fee(price, fee_rate), 1300),
    ensures
        credits_what_it_lists(book, book.closed(pos, price, fee_rate), pos, price, fee_rate),
        credits_what_it_lists(book, book.stopped(pos, price, fee_rate), pos, price, fee_rate),
{
    let back = pos.proceeds(price, fee_rate);
    closing_conserves(pos, price, fee_rate);
    lemma_settled(
        pos.margin,
        pos.pnl(price),
        pos.opening_fee(fee_rate),
        pos.closing_fee(price, fee_rate),
    );
    lemma_pow2_strictly_increases(1300, 1302);
    error_laws::lemma_plus_within(book.saldo, back, 1302);
    lemma2_to64();
    lemma2_to64_rest();
    assert(pow2(48) == 0x1_0000_0000_0000);
    assert(pow2(49) == 0x2_0000_0000_0000);
    assert(pow2(52) == 0x10_0000_0000_0000);
    assert(pow2(53) == 0x20_0000_0000_0000);
    let net = pos.net_pnl(price, fee_rate);
    assert(book.closed(pos, price, fee_rate).pnls.last() == net);
    assert(book.stopped(pos, price, fee_rate).pnls.last() == net);
    lemma_credit(
        book.saldo.units(),
        back.units(),
        book.saldo.plus(back).units(),
        pos.margin.units(),
        net.units(),
        pos.opening_fee(fee_rate).units(),
        pos.pnl(price).units(),
        pos.closing_fee(price, fee_rate).units(),
    );
}

proof fn lemma_credit(
    saldo: int,
    back: int,
    after: int,
    margin: int,
    net: int,
    paid: int,
    gain: int,
    fee: int,
)
    requires
        0x20_0000_0000_0000 * error_laws::distance(after, saldo + back) <= error_laws::distance(
            saldo,
            0,
        ) + error_laws::distance(back, 0) + 0x10_0000_0000_0000,
        0x2_0000_0000_0000 * error_laws::distance(back, margin + net + paid)
            <= error_laws::distance(margin, 0) + error_laws::distance(gain, 0)
            + error_laws::distance(paid, 0) + error_laws::distance(fee, 0) + 0x10_0000_0000_0000,
    ensures
        0x1_0000_0000_0000 * error_laws::distance(after, saldo + margin + net + paid)
            <= error_laws::distance(saldo, 0) + error_laws::distance(margin, 0)
            + error_laws::distance(gain, 0) + error_laws::distance(paid, 0) + error_laws::distance(
            fee,
            0,
        ) + error_laws::distance(net, 0) + 0x20_0000_0000_0000,
{
    let ss = error_laws::distance(saldo, 0);
    let sb = error_laws::distance(back, 0);
    let sm = error_laws::distance(margin, 0);
    let sn = error_laws::distance(net, 0);
    let sp = error_laws::distance(paid, 0);
    let sg = error_laws::distance(gain, 0);
    let sf = error_laws::distance(fee, 0);
    let whole = margin + net + paid;
    let one = error_laws::distance(after, saldo + back);
    let two = error_laws::distance(back, whole);
    assert(sb <= sm + sn + sp + two) by {
        error_laws::lemma_triangle(back, whole, 0);
        error_laws::lemma_size_of_sum(margin + net, paid);
        error_laws::lemma_size_of_sum(margin, net);
    }
    let d = error_laws::distance(after, saldo + margin + net + paid);
    assert(d <= one + two) by {
        error_laws::lemma_triangle(after, saldo + back, saldo + whole);
        error_laws::lemma_distance_shift(back, whole, saldo);
        assert(back + saldo == saldo + back && whole + saldo == saldo + whole);
        assert(saldo + whole == saldo + margin + net + paid);
    }
    lemma_credit_linear(ss, sb, sm, sn, sp, sg, sf, one, two, d);
}

proof fn lemma_credit_linear(
    ss: int,
    sb: int,
    sm: int,
    sn: int,
    sp: int,
    sg: int,
    sf: int,
    one: int,
    two: int,
    d: int,
)
    requires
        ss >= 0,
        sm >= 0,
        sn >= 0,
        sp >= 0,
        sg >= 0,
        sf >= 0,
        d <= one + two,
        sb <= sm + sn + sp + two,
        0x20_0000_0000_0000 * one <= ss + sb + 0x10_0000_0000_0000,
        0x2_0000_0000_0000 * two <= sm + sg + sp + sf + 0x10_0000_0000_0000,
    ensures
        0x1_0000_0000_0000 * d <= ss + sm + sg + sp + sf + sn + 0x20_0000_0000_0000,
{
}

/// The balance grew by the margin, the last listed result and the opening fee, up to rounding.
pub open spec fn credits_what_it_lists(
    before: Book,
    after: Book,
    pos: Position,
    price: Double,
    fee_rate: Double,
) -> bool {
    let paid = pos.opening_fee(fee_rate).units();
    let fee = pos.closing_fee(price, fee_rate).units();
    let size = error_laws::distance(before.saldo.units(), 0) + error_laws::distance(
        pos.margin.units(),
        0,
    ) + error_laws::distance(pos.pnl(price).units(), 0) + error_laws::distance(paid, 0)
        + error_laws::distance(fee, 0) + error_laws::distance(after.pnls.last().units(), 0);
    pow2(48) * error_laws::distance(
        after.saldo.units(),
        before.saldo.units() + pos.margin.units() + after.pnls.last().units() + paid,
    ) <= size + pow2(53)
}

/// The result of a position is the move of the price times its size, up to rounding: upwards for a
/// long one, downwards for a short one.
pub proof fn results_are_moves_times_size(pos: Position, price: Double)
    requires
        error_laws::within(price, 1300),
        error_laws::within(pos.entry_price, 1300),
        !pos.pnl(price).is_nan(),
        !pos.pnl(price).is_infinite(),
        pos.position_type != PositionType::NoPosition,
    ensures
        ({
            let move_up = price.units() - pos.entry_price.units();
            let gain = pos.pnl(price).units();
            let size = pos.size_btc.units();
            let exact = if pos.position_type == PositionType::Long {
                move_up * size
            } else {
                -(move_up * size)
            };
            pow2(50) * error_laws::distance(gain * pow2(1074), exact) <= error_laws::distance(
                move_up * size,
                0,
            ) + (pow2(52) + error_laws::distance(price.units(), 0) + error_laws::distance(
                pos.entry_price.units(),
                0,
            )) * error_laws::distance(size, 0) + pow2(52) * pow2(1074)
        }),
{
    let (to, from) = if pos.position_type == PositionType::Long {
        (price, pos.entry_price)
    } else {
        (pos.entry_price, price)
    };
    let d = to.minus(from);
    error_laws::lemma_minus_within(to, from, 1300);
    error_laws::lemma_times_error(d, pos.size_btc);
    let u = pow2(1074) as int;
    let s = pos.size_btc.units();
    let x = d.units();
    let y = to.units() - from.units();
    let g = pos.pnl(price).units();
    let ss = error_laws::distance(s, 0);
    let slack = error_laws::distance(to.units(), 0) + error_laws::distance(from.units(), 0);
    let e = error_laws::distance(x, y);
    lemma2_to64();
    lemma2_to64_rest();
    assert(pow2(50) == 0x4_0000_0000_0000);
    assert(pow2(52) == 0x10_0000_0000_0000);
    assert(pow2(53) == 0x20_0000_0000_0000);
    error_laws::lemma_scaled_distance(x, y, s);
    error_laws::lemma_scaled_distance(x, 0, s);
    assert(0 * s == 0);
    error_laws::lemma_triangle(g * u, x * s, y * s);
    error_laws::lemma_triangle(x * s, y * s, 0);
    error_laws::lemma_triangle(x, y, 0);
    error_laws::lemma_triangle(s, 0, 0);
    let es = e * ss;
    assert(0x20_0000_0000_0000 * es <= (slack + 0x10_0000_0000_0000) * ss) by (nonlinear_arith)
        requires
            0x20_0000_0000_0000 * e <= slack + 0x10_0000_0000_0000,
            ss >= 0,
            es == e * ss,
    ;
    let room = (0x10_0000_0000_0000 + slack) * ss;
    let move_up = price.units() - pos.entry_price.units();
    assert(y == move_up || y == -move_up);
    assert((-move_up) * s == -(move_up * s)) by (nonlinear_arith);
    lemma_room(
        error_laws::distance(g * u, y * s),
        error_laws::distance(g * u, x * s),
        error_laws::distance(x * s, 0),
        error_laws::distance(y * s, 0),
        es,
        room,
        (pow2(52) * pow2(1074)) as int,
    );
}

proof fn lemma_room(whole: int, first: int, xs: int, ys: int, es: int, room: int, slack: int)
    requires
        whole <= first + es,
        xs <= ys + es,
        0x20_0000_0000_0000 * first <= xs + slack,
        0x20_0000_0000_0000 * es <= room,
        room >= 0,
        ys >= 0,
        slack >= 0,
    ensures
        0x4_0000_0000_0000 * whole <= ys + room + slack,
{
}

/// The fee for closing is the size at the price times the rate, up to rounding, and at the entry
/// price the two fees are one.
pub proof fn fees_are_shares_of_the_value(pos: Position, price: Double, fee_rate: Double)
    ensures
        pos.closing_fee(pos.entry_price, fee_rate) == pos.opening_fee(fee_rate),
        error_laws::moderate(pos.size_btc) && error_laws::moderate(price) && error_laws::moderate(
            fee_rate,
        ) ==> error_laws::near(
            pos.closing_fee(price, fee_rate).units() * pow2(1074) * pow2(1074),
            pos.size_btc.units() * price.units() * fee_rate.units(),
            50,
        ),
{
    if error_laws::moderate(pos.size_btc) && error_laws::moderate(price) && error_laws::moderate(
        fee_rate,
    ) {
        lemma_two_products(pos.size_btc, price, fee_rate);
    }
}

/// A product of three moderate numbers, rounded twice.
proof fn lemma_two_products(a: Double, b: Double, c: Double)
    requires
        error_laws::moderate(a),
        error_laws::moderate(b),
        error_laws::moderate(c),
    ensures
        error_laws::near(
            a.times(b).times(c).units() * pow2(1074) * pow2(1074),
            a.units() * b.units() * c.units(),
            50,
        ),
{
    let u = pow2(1074) as int;
    let v = a.times(b);
    lemma2_to64();
    lemma2_to64_rest();
    lemma_pow2_pos(1074);
    lemma_pow2_strictly_increases(900, 974);
    lemma_pow2_strictly_increases(1174, 1400);
    error_laws::lemma_times_moderate(a, b);
    assert(pow2(52) == 0x10_0000_0000_0000);
    liquidation_laws::lemma_product_range(
        a.units(),
        b.units(),
        v.units(),
        u,
        error_laws::distance(v.units() * u, a.units() * b.units()),
    );
    error_laws::lemma_times_loose(v, c);
    let w = v.times(c).units();
    error_laws::lemma_near_scaled(w * u, v.units() * c.units(), u, 52);
    error_laws::lemma_near_scaled(v.units() * u, a.units() * b.units(), c.units(), 52);
    assert((v.units() * u) * c.units() == (v.units() * c.units()) * u) by (nonlinear_arith);
    error_laws::lemma_near_chain(
        w * u * u,
        (v.units() * c.units()) * u,
        a.units() * b.units() * c.units(),
        52,
    );
}

/// A candle ends a position exactly where it reaches its liquidation price, or else its stop loss:
/// with its low for a long one, with its high for a short one. The price of an exit is the price
/// that was reached.
pub proof fn exits_follow_the_candle(pos: Position, candle: Candle)
    ensures
        match pos.position_type {
            PositionType::Long => {
                &&& pos.exit(candle) == Some(Exit::Liquidation) <==> candle.low.at_most(
                    pos.liquidation_price,
                )
                &&& pos.exit(candle) is None <==> !candle.low.at_most(pos.liquidation_price) && (
                pos.stop_loss is None || !candle.low.at_most(pos.stop_loss->Some_0))
            },
            PositionType::Short => {
                &&& pos.exit(candle) == Some(Exit::Liquidation) <==> pos.liquidation_price.at_most(
                    candle.high,
                )
                &&& pos.exit(candle) is None <==> !pos.liquidation_price.at_most(candle.high) && (
                pos.stop_loss is None || !pos.stop_loss->Some_0.at_most(candle.high))
            },
            PositionType::NoPosition => pos.exit(candle) is None,
        },
        pos.exit(candle) matches Some(Exit::StopLoss { price }) ==> pos.stop_loss == Some(price),
{
}

/// A candle that reaches farther against a position never spares what a milder one ends.
pub proof fn deeper_candles_end_no_less(pos: Position, mild: Candle, deep: Candle)
    requires
        deep.low.at_most(mild.low),
        mild.high.at_most(deep.high),
    ensures
        pos.exit(mild) is Some ==> pos.exit(deep) is Some,
        pos.exit(mild) == Some(Exit::Liquidation) ==> pos.exit(deep) == Some(Exit::Liquidation),
{
}

/// The score goes with the direction: ten up where the price went the way of the position, ten down
/// otherwise and at every liquidation. A long position that is closed counts as a sale, a short one
/// as a purchase, a liquidation as neither.
pub proof fn closings_are_scored_and_counted(
    book: Book,
    pos: Position,
    price: Double,
    fee_rate: Double,
)
    requires
        pos.position_type != PositionType::NoPosition,
        !price.is_nan(),
        !pos.entry_price.is_nan(),
    ensures
        ({
            let won = if pos.position_type == PositionType::Long {
                pos.entry_price.units() < price.units()
            } else {
                price.units() < pos.entry_price.units()
            };
            let sold: int = if pos.position_type == PositionType::Long {
                1
            } else {
                0
            };
            let closed = book.closed(pos, price, fee_rate);
            let stopped = book.stopped(pos, price, fee_rate);
            let liquidated = book.liquidated(pos, fee_rate);
            &&& closed.score == book.score + if won {
                10int
            } else {
                -10
            }
            &&& stopped.score == closed.score
            &&& liquidated.score == book.score - 10
            &&& closed.ventas == book.ventas + sold
            &&& closed.compras == book.compras + 1 - sold
            &&& stopped.ventas == closed.ventas
            &&& stopped.compras == closed.compras
            &&& liquidated.ventas == book.ventas
            &&& liquidated.compras == book.compras
            &&& liquidated.liquidaciones == book.liquidaciones + 1
            &&& closed.liquidaciones == book.liquidaciones
            &&& stopped.liquidaciones == book.liquidaciones
            &&& closed.pnls.len() == book.pnls.len() + 1
            &&& stopped.pnls.len() == book.pnls.len() + 2
            &&& liquidated.pnls.len() == book.pnls.len() + 2
            &&& stopped.pnls.last() == closed.pnls.last()
            &&& stopped.pnls[book.pnls.len() as int] == closed.pnls.last()
        }),
{
}

/// A liquidation loses the margin and the opening fee, up to rounding, and nothing of the balance.
pub proof fn liquidations_lose_the_margin(book: Book, pos: Position, fee_rate: Double)
    requires
        error_laws::within(pos.margin, 1300),
        error_laws::within(pos.opening_fee(fee_rate), 1300),
    ensures
        ({
            let after = book.liquidated(pos, fee_rate);
            let n = book.pnls.len() as int;
            let margin = pos.margin.units();
            let paid = pos.opening_fee(fee_rate).units();
            &&& after.saldo == book.saldo
            &&& after.pnls[n] == after.pnls[n + 1]
            &&& pow2(53) * error_laws::distance(after.pnls[n].units(), -margin - paid)
                <= error_laws::distance(margin, 0) + error_laws::distance(paid, 0) + pow2(52)
        }),
{
    double_laws::lemma_negated(pos.margin);
    error_laws::lemma_minus_within(pos.margin.negated(), pos.opening_fee(fee_rate), 1300);
}

/// What becomes of the wish to open a position, by the first thing that stands against it: nothing
/// is wanted, the box trades only the other direction, the box has no place, or the balance does
/// not cover it. Where nothing does, the position is opened.
pub proof fn openings_fail_for_a_reason(
    book: Book,
    t: PositionType,
    box_type: BoxType,
    only: Option<PositionType>,
    chosen: Option<Double>,
    stop_loss: Option<Double>,
    rules: Rules,
    equity: Double,
    price: Double,
)
    ensures
        ({
            let (after, outcome) = book.opening(
                t,
                box_type,
                only,
                chosen,
                stop_loss,
                rules,
                equity,
                price,
            );
            let refused = only is Some && only->Some_0 != t;
            let place = backtest::has_place(book.positions, box_type, t, price);
            &&& outcome is Nothing <==> t == PositionType::NoPosition
            &&& outcome is AgainstTrend <==> t != PositionType::NoPosition && refused
            &&& outcome is Blocked <==> t != PositionType::NoPosition && !refused && !place
            &&& outcome !is Opened ==> after == book
            &&& outcome is Opened ==> {
                let pos = outcome->position;
                &&& after.positions == book.positions.push(pos)
                &&& after.pnls == book.pnls
                &&& after.score == book.score
                &&& after.liquidaciones == book.liquidaciones
                &&& after.compras + after.ventas == book.compras + book.ventas + 1
                &&& t == PositionType::Long ==> after.compras == book.compras + 1
                &&& t == PositionType::Short ==> after.ventas == book.ventas + 1
                &&& pos.stop_loss is None <==> stop_loss is None
                &&& box_type == BoxType::LT ==> pos.stop_loss == stop_loss
                &&& Double::ratio_of(1, 100).below(pos.margin)
            }
        }),
{
}

/// A box has a place for a direction exactly where it holds less than two positions of it, and its
/// first position, if there is one, earns at least twice its margin.
pub proof fn places_need_a_winning_first(
    s: Seq<Position>,
    box_type: BoxType,
    t: PositionType,
    price: Double,
)
    ensures
        backtest::has_place(s, box_type, t, price) <==> {
            &&& of_direction(in_box(s, box_type), t).len() < 2
            &&& in_box(s, box_type).len() > 0 ==> Double::of(200).at_most(
                in_box(s, box_type)[0].roe(price),
            )
        },
{
    lemma_counted(s, box_type, t);
    lemma_first_is_first(s, box_type);
}

/// The positions of a direction, in their order.
pub open spec fn of_direction(s: Seq<Position>, t: PositionType) -> Seq<Position>
    decreases s.len(),
{
    if s.len() == 0 {
        Seq::empty()
    } else if s.last().position_type == t {
        of_direction(s.drop_last(), t).push(s.last())
    } else {
        of_direction(s.drop_last(), t)
    }
}

proof fn lemma_counted(s: Seq<Position>, box_type: BoxType, t: PositionType)
    ensures
        backtest::count_in_box(s, box_type, t, s.len()) == of_direction(
            in_box(s, box_type),
            t,
        ).len(),
    decreases s.len(),
{
    if s.len() > 0 {
        let rest = s.drop_last();
        lemma_counted(rest, box_type, t);
        lemma_count_prefix(s, rest, box_type, t, rest.len());
        if s.last().box_type == box_type {
            let kept = in_box(rest, box_type);
            assert(kept.push(s.last()).drop_last() =~= kept);
        }
    }
}

proof fn lemma_first_is_first(s: Seq<Position>, box_type: BoxType)
    ensures
        backtest::first_in_box(s, box_type, 0) == (if in_box(s, box_type).len() > 0 {
            Some(in_box(s, box_type)[0])
        } else {
            None
        }),
    decreases s.len(),
{
    if s.len() > 0 {
        let rest = s.drop_last();
        lemma_first_is_first(rest, box_type);
        lemma_first_grows(s, box_type, 0);
    }
}

proof fn lemma_first_grows(s: Seq<Position>, box_type: BoxType, k: nat)
    requires
        0 < s.len(),
        k < s.len(),
    ensures
        backtest::first_in_box(s, box_type, k) == (match backtest::first_in_box(
            s.drop_last(),
            box_type,
            k,
        ) {
            Some(first) => Some(first),
            None => if s.last().box_type == box_type {
                Some(s.last())
            } else {
                None
            },
        }),
    decreases s.len() - k,
{
    if k + 1 < s.len() {
        assert(s.drop_last()[k as int] == s[k as int]);
        if s[k as int].box_type != box_type {
            lemma_first_grows(s, box_type, k + 1);
        }
    } else {
        assert(backtest::first_in_box(s, box_type, k + 1) is None);
    }
}

/// The gain in percent of the margin, times the margin, is a hundred times the gain, up to rounding.
pub proof fn returns_are_gains_over_margins(pos: Position, price: Double)
    requires
        error_laws::moderate(pos.margin),
        error_laws::moderate(pos.pnl(price)),
    ensures
        error_laws::near(
            pos.roe(price).units() * pos.margin.units(),
            100 * pos.pnl(price).units() * pow2(1074),
            50,
        ),
{
    lemma_percent(pos.pnl(price), pos.margin);
}

/// A gain in percent of a base, times the base, is a hundred times the gain.
pub proof fn lemma_percent(gain: Double, base: Double)
    requires
        error_laws::moderate(gain),
        error_laws::moderate(base),
    ensures
        !gain.over(base).times(Double::of(100)).is_nan(),
        !gain.over(base).times(Double::of(100)).negative(),
        error_laws::near(
            gain.over(base).times(Double::of(100)).units() * base.units(),
            100 * gain.units() * pow2(1074),
            50,
        ),
{
    let q = gain.over(base);
    let hundred = Double::of(100);
    let u = pow2(1074) as int;
    lemma2_to64();
    lemma2_to64_rest();
    lemma_pow2_pos(1074);
    lemma_pow2_strictly_increases(800, 974);
    lemma_pow2_strictly_increases(900, 974);
    lemma_pow2_strictly_increases(1174, 1400);
    double_laws::small_naturals_are_exact(100);
    error_laws::lemma_over_moderate(gain, base);
    let x = q.units();
    let m = base.units();
    let g = gain.units();
    assert(pow2(52) == 0x10_0000_0000_0000);
    lemma_quotient_range(x, m, g, u);
    lemma_pow2_adds(7, 1074);
    lemma_pow2_strictly_increases(1081, 1400);
    lemma_pow2_strictly_increases(900, 1074);
    error_laws::lemma_times_loose(q, hundred);
    let r = q.times(hundred).units();
    error_laws::lemma_near_scaled(r * u, x * (100 * u), m, 52);
    error_laws::lemma_near_scaled(x * m, g * u, 100 * u, 52);
    assert((x * (100 * u)) * m == (x * m) * (100 * u)) by (nonlinear_arith);
    assert((r * u) * m == (r * m) * u) by (nonlinear_arith);
    assert((g * u) * (100 * u) == (100 * g * u) * u) by (nonlinear_arith);
    error_laws::lemma_near_chain((r * m) * u, (x * m) * (100 * u), (100 * g * u) * u, 52);
    error_laws::lemma_near_unscaled(r * m, 100 * g * u, u, 50);
}

proof fn lemma_quotient_range(x: int, m: int, g: int, u: int)
    requires
        u == pow2(1074),
        pow2(974) <= m <= pow2(1174),
        pow2(974) <= g <= pow2(1174),
        0x10_0000_0000_0000 * error_laws::distance(x * m, g * u) <= error_laws::distance(g * u, 0),
    ensures
        pow2(800) <= x <= pow2(1400),
{
    lemma_pow2_pos(974);
    lemma_pow2_pos(1074);
    lemma_pow2_adds(974, 1074);
    lemma_pow2_adds(1174, 1074);
    lemma_pow2_adds(800, 1174);
    lemma_pow2_adds(1400, 974);
    lemma_pow2_adds(1, 1974);
    lemma_pow2_adds(1, 2248);
    lemma2_to64();
    lemma_pow2_strictly_increases(1975, 2048);
    lemma_pow2_strictly_increases(2249, 2374);
    let y = g * u;
    assert(pow2(974) * u <= y <= pow2(1174) * u) by (nonlinear_arith)
        requires
            pow2(974) <= g <= pow2(1174),
            u > 0,
            y == g * u,
    ;
    assert(y <= 2 * (x * m) && x * m <= 2 * y);
    let low = pow2(800) as int;
    let high = pow2(1400) as int;
    assert(x > 0) by (nonlinear_arith)
        requires
            0 < y,
            y <= 2 * (x * m),
            m > 0,
    ;
    assert(x >= low) by (nonlinear_arith)
        requires
            2 * (low * pow2(1174)) <= 2 * (x * m),
            m <= pow2(1174),
            m > 0,
            x > 0,
    ;
    assert(x <= high) by (nonlinear_arith)
        requires
            x * m <= high * pow2(974),
            m >= pow2(974),
            pow2(974) > 0,
            x > 0,
    ;
}

/// After an answer that closes its box, the box holds nothing but what the same answer opened.
pub proof fn closed_boxes_hold_only_the_new(
    book: Book,
    action: BoxAction,
    box_type: BoxType,
    only: Option<PositionType>,
    rules: Rules,
    equity: Double,
    price: Double,
)
    requires
        action.cerrar,
    ensures
        ({
            let (after, outcome) = book.acted(action, box_type, only, rules, equity, price);
            in_box(after.positions, box_type) == match outcome {
                BoxOutcome::Opened { position } => seq![position],
                _ => Seq::empty(),
            }
        }),
{
    closing_empties_one_box(book, box_type, price, rules.fee_rate);
    let closed = book.box_closed(box_type, price, rules.fee_rate);
    let moved = match action.stop_loss {
        Some(stop) => closed.stops_moved(box_type, stop, price, 0),
        None => closed,
    };
    if action.stop_loss is Some {
        let stop = action.stop_loss->Some_0;
        stops_move_in_one_box(closed, box_type, stop, price);
        lemma_empty_stays_empty(closed.positions, box_type, stop);
    }
    let (after, outcome) = book.acted(action, box_type, only, rules, equity, price);
    if let BoxOutcome::Opened { position } = outcome {
        assert(after.positions.drop_last() =~= moved.positions);
        assert(in_box(after.positions, box_type) =~= seq![position]);
    }
}

proof fn lemma_empty_stays_empty(s: Seq<Position>, box_type: BoxType, stop: Double)
    requires
        in_box(s, box_type).len() == 0,
    ensures
        in_box(with_stop(s, box_type, stop), box_type) == Seq::<Position>::empty(),
    decreases s.len(),
{
    if s.len() > 0 {
        lemma_empty_stays_empty(s.drop_last(), box_type, stop);
        assert(with_stop(s, box_type, stop).drop_last() =~= with_stop(
            s.drop_last(),
            box_type,
            stop,
        ));
    } else {
        assert(with_stop(s, box_type, stop) =~= Seq::empty());
    }
}

/// The macro trend is long exactly while the average over 50 candles is not below that over 100.
pub proof fn trend_compares_fifty_with_hundred(candles: Seq<Candle>, i: int)
    requires
        !indicators::ema(candles, i, 50).is_nan(),
        !indicators::ema(candles, i, 100).is_nan(),
    ensures
        simulation::macro_trend(candles, i) != PositionType::NoPosition,
        simulation::macro_trend(candles, i) == PositionType::Short <==> indicators::ema(
            candles,
            i,
            50,
        ).units() < indicators::ema(candles, i, 100).units(),
{
}

/// What the account is worth is the balance, the margins of the open positions and what they gain at
/// the price, up to rounding.
pub proof fn equity_is_balance_margins_and_gains(book: Book, price: Double)
    requires
        book.positions.len() <= 100,
        error_laws::within(book.saldo, 1300),
        forall|i: int|
            0 <= i < book.positions.len() ==> error_laws::within(
                (#[trigger] book.positions[i]).margin,
                1300,
            ) && error_laws::within(book.positions[i].pnl(price), 1300),
    ensures
        ({
            let n = book.positions.len();
            let margins = margins_of(book.positions);
            let gains = gains_of(book.positions, price);
            let size = error_laws::distance(book.saldo.units(), 0) + error_laws::total_size(
                margins,
                n,
            ) + error_laws::total_size(gains, n);
            pow2(48) * error_laws::distance(
                book.worth(price).equity.units(),
                book.saldo.units() + error_laws::exact_total(margins, n) + error_laws::exact_total(
                    gains,
                    n,
                ),
            ) <= (n + 1) * (size + pow2(53))
        }),
{
    let n = book.positions.len();
    let margins = margins_of(book.positions);
    let gains = gains_of(book.positions, price);
    lemma_sums(book, price, n);
    assert forall|i: int| 0 <= i < n implies error_laws::within(#[trigger] margins[i], 1300) by {
        assert(margins[i] == book.positions[i].margin);
    }
    assert forall|i: int| 0 <= i < n implies error_laws::within(#[trigger] gains[i], 1300) by {
        assert(gains[i] == book.positions[i].pnl(price));
    }
    error_laws::lemma_running_error(margins, n, 1300);
    error_laws::lemma_running_error(gains, n, 1300);
    let m = book.margins(n);
    let g = book.floating(price, n);
    lemma_pow2_strictly_increases(1300, 1401);
    if n < 101 {
        lemma_pow2_strictly_increases(1300 + n, 1401);
    }
    lemma_pow2_strictly_increases(1401, 1402);
    error_laws::lemma_plus_within(book.saldo, m, 1401);
    error_laws::lemma_plus_within(book.saldo.plus(m), g, 1402);
    lemma2_to64();
    lemma2_to64_rest();
    assert(pow2(48) == 0x1_0000_0000_0000);
    assert(pow2(50) == 0x4_0000_0000_0000);
    assert(pow2(52) == 0x10_0000_0000_0000);
    assert(pow2(53) == 0x20_0000_0000_0000);
    lemma_three_sums(
        n as int,
        book.saldo.units(),
        m.units(),
        g.units(),
        book.saldo.plus(m).units(),
        book.worth(price).equity.units(),
        error_laws::exact_total(margins, n),
        error_laws::exact_total(gains, n),
        error_laws::total_size(margins, n),
        error_laws::total_size(gains, n),
    );
}

/// The margins of positions.
pub open spec fn margins_of(s: Seq<Position>) -> Seq<Double> {
    s.map_values(|p: Position| p.margin)
}

/// What positions gain at a price.
pub open spec fn gains_of(s: Seq<Position>, price: Double) -> Seq<Double> {
    s.map_values(|p: Position| p.pnl(price))
}

proof fn lemma_sums(book: Book, price: Double, n: nat)
    requires
        n <= book.positions.len(),
    ensures
        book.margins(n) == error_laws::running(margins_of(book.positions), n),
        book.floating(price, n) == error_laws::running(gains_of(book.positions, price), n),
    decreases n,
{
    if n > 0 {
        lemma_sums(book, price, (n - 1) as nat);
    }
}

proof fn lemma_three_sums(
    n: int,
    saldo: int,
    m: int,
    g: int,
    a: int,
    r: int,
    em: int,
    eg: int,
    tm: int,
    tg: int,
)
    requires
        0 <= n <= 100,
        tm >= 0,
        tg >= 0,
        error_laws::distance(em, 0) <= tm,
        error_laws::distance(eg, 0) <= tg,
        0x4_0000_0000_0000 * error_laws::distance(m, em) <= n * (tm + 0x10_0000_0000_0000),
        0x4_0000_0000_0000 * error_laws::distance(g, eg) <= n * (tg + 0x10_0000_0000_0000),
        0x20_0000_0000_0000 * error_laws::distance(a, saldo + m) <= error_laws::distance(saldo, 0)
            + error_laws::distance(m, 0) + 0x10_0000_0000_0000,
        0x20_0000_0000_0000 * error_laws::distance(r, a + g) <= error_laws::distance(a, 0)
            + error_laws::distance(g, 0) + 0x10_0000_0000_0000,
    ensures
        0x1_0000_0000_0000 * error_laws::distance(r, saldo + em + eg) <= (n + 1) * (
        error_laws::distance(saldo, 0) + tm + tg + 0x20_0000_0000_0000),
{
    let ss = error_laws::distance(saldo, 0);
    let sm = error_laws::distance(m, 0);
    let sg = error_laws::distance(g, 0);
    let sa = error_laws::distance(a, 0);
    let dm = error_laws::distance(m, em);
    let dg = error_laws::distance(g, eg);
    let da = error_laws::distance(a, saldo + m);
    let dr = error_laws::distance(r, a + g);
    let d = error_laws::distance(r, saldo + em + eg);
    assert(sm <= tm + dm) by {
        error_laws::lemma_triangle(m, em, 0);
    }
    assert(sg <= tg + dg) by {
        error_laws::lemma_triangle(g, eg, 0);
    }
    assert(sa <= ss + sm + da) by {
        error_laws::lemma_triangle(a, saldo + m, 0);
        error_laws::lemma_size_of_sum(saldo, m);
    }
    assert(d <= dr + da + dm + dg) by {
        error_laws::lemma_triangle(r, a + g, saldo + em + eg);
        error_laws::lemma_triangle(a + g, saldo + m + g, saldo + em + eg);
        error_laws::lemma_triangle(saldo + m + g, saldo + em + g, saldo + em + eg);
        error_laws::lemma_distance_shift(a, saldo + m, g);
        error_laws::lemma_distance_shift(m, em, saldo + g);
        error_laws::lemma_distance_shift(g, eg, saldo + em);
        assert(m + (saldo + g) == saldo + m + g && em + (saldo + g) == saldo + em + g);
        assert(g + (saldo + em) == saldo + em + g && eg + (saldo + em) == saldo + em + eg);
    }
    assert(ss >= 0) by {
        error_laws::lemma_triangle(saldo, 0, 0);
    }
    lemma_three_linear(n, ss, sm, sg, sa, dm, dg, da, dr, d, tm, tg);
}

proof fn lemma_three_linear(
    n: int,
    ss: int,
    sm: int,
    sg: int,
    sa: int,
    dm: int,
    dg: int,
    da: int,
    dr: int,
    d: int,
    tm: int,
    tg: int,
)
    requires
        0 <= n <= 100,
        ss >= 0,
        tm >= 0,
        tg >= 0,
        sm <= tm + dm,
        sg <= tg + dg,
        sa <= ss + sm + da,
        d <= dr + da + dm + dg,
        0x4_0000_0000_0000 * dm <= n * (tm + 0x10_0000_0000_0000),
        0x4_0000_0000_0000 * dg <= n * (tg + 0x10_0000_0000_0000),
        0x20_0000_0000_0000 * da <= ss + sm + 0x10_0000_0000_0000,
        0x20_0000_0000_0000 * dr <= sa + sg + 0x10_0000_0000_0000,
    ensures
        0x1_0000_0000_0000 * d <= (n + 1) * (ss + tm + tg + 0x20_0000_0000_0000),
{
    let wm = tm + 0x10_0000_0000_0000;
    let wg = tg + 0x10_0000_0000_0000;
    let w = ss + tm + tg + 0x20_0000_0000_0000;
    assert(n * wm <= 100 * wm) by (nonlinear_arith)
        requires
            0 <= n <= 100,
            wm >= 0,
    ;
    assert(n * wg <= 100 * wg) by (nonlinear_arith)
        requires
            0 <= n <= 100,
            wg >= 0,
    ;
    assert(n * wm + n * wg <= n * w) by (nonlinear_arith)
        requires
            0 <= n,
            wm + wg <= w,
    ;
    assert((n + 1) * w == n * w + w) by (nonlinear_arith);
}

/// The balance put into the market is worth itself at the price of its beginning, and at another
/// price as many times as much as the price is, up to rounding.
pub proof fn held_balance_follows_the_price(s: Simulation, price: Double)
    requires
        error_laws::moderate(s.initial_price),
        error_laws::moderate(price),
    ensures
        s.held(s.initial_price).units() == simulation::initial_balance().units(),
        error_laws::near(
            s.held(price).units() * s.initial_price.units(),
            simulation::initial_balance().units() * price.units(),
            50,
        ),
{
    let balance = simulation::initial_balance();
    let first = s.initial_price;
    let u = pow2(1074) as int;
    lemma2_to64();
    lemma2_to64_rest();
    lemma_pow2_pos(1074);
    lemma_pow2_pos(974);
    lemma_pow2_strictly_increases(800, 974);
    lemma_pow2_strictly_increases(900, 974);
    lemma_pow2_strictly_increases(1174, 1400);
    double_laws::small_naturals_are_exact(10000);
    error_laws::lemma_finite_below(first, 1174);
    error_laws::lemma_over_itself(first);
    error_laws::lemma_times_one(balance, first.over(first));
    error_laws::lemma_over_moderate(price, first);
    let q = price.over(first);
    let x = q.units();
    let f = first.units();
    let p = price.units();
    let b = balance.units();
    assert(pow2(52) == 0x10_0000_0000_0000);
    lemma_quotient_range(x, f, p, u);
    lemma_pow2_adds(14, 1074);
    lemma_pow2_strictly_increases(1088, 1400);
    lemma_pow2_strictly_increases(900, 1074);
    double_laws::multiplication_commutes(q, balance);
    error_laws::lemma_times_loose(q, balance);
    let h = s.held(price).units();
    error_laws::lemma_near_scaled(h * u, x * b, f, 52);
    error_laws::lemma_near_scaled(x * f, p * u, b, 52);
    assert((x * b) * f == (x * f) * b) by (nonlinear_arith);
    assert((h * u) * f == (h * f) * u) by (nonlinear_arith);
    assert((p * u) * b == (b * p) * u) by (nonlinear_arith);
    error_laws::lemma_near_chain((h * f) * u, (x * f) * b, (b * p) * u, 52);
    error_laws::lemma_near_unscaled(h * f, b * p, u, 50);
}

} // verus!
