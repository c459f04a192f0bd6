//! What the boxes are held to: their shares of the equity, the leverage, and the short-term stops.

use crate::backtest;
use crate::backtest::{BoxOutcome, Rules};
use crate::double;
use crate::double::Double;
use crate::double_laws;
use crate::error_laws;
use crate::ledger::Book;
use crate::live;
use crate::positions;
use crate::rounding;
use crate::strategy_laws;
use crate::text;
use crate::types::{BoxAction, BoxType, GemmaResponse, Position, PositionType};
use vstd::arithmetic::div_mod::*;
use vstd::arithmetic::mul::*;
use vstd::arithmetic::power2::*;
use vstd::prelude::*;

verus! {

/// No position has a margin below zero.
pub open spec fn margins_are_sound(s: Seq<Position>) -> bool {
    forall|i: int| 0 <= i < s.len() ==> Double::zero().at_most(#[trigger] s[i].margin)
}

/// A number is at most a limit, or the number right above the limit: the limit, up to one
/// rounding.
pub open spec fn about_at_most(x: Double, limit: Double) -> bool {
    ||| x.at_most(limit)
    ||| !x.is_nan() && !x.negative() && x.pattern() == limit.pattern() + 1
}

/// The margins of a box sum up to at most the share of the equity that the box may bind, up to one
/// rounding.
pub open spec fn fits_its_box(s: Seq<Position>, box_type: BoxType, equity: Double) -> bool {
    about_at_most(
        backtest::margin_in_box(s, box_type, s.len()),
        equity.times(backtest::allocation(box_type)),
    )
}

proof fn lemma_zero()
    ensures
        Double::zero().units() == 0,
        !Double::zero().is_nan(),
        Double::empty_sum().units() == 0,
        !Double::empty_sum().is_nan(),
{
    assert(0nat * pow2(0) == 0);
}

/// A larger factor does not give a smaller product.
pub proof fn lemma_times_monotone(a: Double, b: Double, c: Double)
    requires
        a.at_most(b),
        Double::zero().at_most(c),
        !a.times(c).is_nan(),
        !b.times(c).is_nan(),
    ensures
        a.times(c).at_most(b.times(c)),
{
    reveal(Double::times);
    lemma_zero();
    lemma_pow2_pos(1074);
    let p = a.magnitude() * c.magnitude();
    let q = b.magnitude() * c.magnitude();
    let u = pow2(1074);
    double_laws::lemma_nearest_sign(a.negative() != c.negative(), p, u);
    double_laws::lemma_nearest_sign(b.negative() != c.negative(), q, u);
    double_laws::lemma_nothing_nearest(false, u);
    double_laws::lemma_nothing_nearest(true, u);
    assert(0nat * pow2(0) == 0);
    double_laws::lemma_pattern_magnitude_order(
        a.times(c).pattern(),
        rounding::INFINITE as nat,
    );
    double_laws::lemma_pattern_magnitude_order(
        b.times(c).pattern(),
        rounding::INFINITE as nat,
    );
    double_laws::lemma_pattern_magnitude_order(a.pattern(), rounding::INFINITE as nat);
    double_laws::lemma_pattern_magnitude_order(b.pattern(), rounding::INFINITE as nat);
    lemma_only_infinite(a);
    lemma_only_infinite(b);
    assert(Double::infinity(true).pattern() == rounding::INFINITE);
    assert(Double::infinity(false).pattern() == rounding::INFINITE);
    if a.is_infinite() || b.is_infinite() || c.is_infinite() {
        if c.magnitude() > 0 {
            assert(!c.negative());
        }
    } else if c.magnitude() == 0 {
        assert(p == 0 && q == 0) by (nonlinear_arith)
            requires
                c.magnitude() == 0,
                p == a.magnitude() * c.magnitude(),
                q == b.magnitude() * c.magnitude(),
        ;
    } else {
        assert(!c.negative());
        if a.magnitude() <= b.magnitude() {
            assert(p * u <= q * u) by (nonlinear_arith)
                requires
                    a.magnitude() <= b.magnitude(),
                    p == a.magnitude() * c.magnitude(),
                    q == b.magnitude() * c.magnitude(),
            ;
            rounding::lemma_nearest_monotone(p, u, q, u);
            double_laws::lemma_pattern_magnitude_order(
                rounding::nearest_pattern(p, u),
                rounding::nearest_pattern(q, u),
            );
        } else {
            assert(q * u <= p * u) by (nonlinear_arith)
                requires
                    b.magnitude() <= a.magnitude(),
                    p == a.magnitude() * c.magnitude(),
                    q == b.magnitude() * c.magnitude(),
            ;
            rounding::lemma_nearest_monotone(q, u, p, u);
            double_laws::lemma_pattern_magnitude_order(
                rounding::nearest_pattern(q, u),
                rounding::nearest_pattern(p, u),
            );
        }
    }
}

/// Larger terms do not give a smaller sum.
pub proof fn lemma_plus_monotone(a: Double, b: Double, c: Double, d: Double)
    requires
        a.at_most(c),
        b.at_most(d),
        !a.plus(b).is_nan(),
        !c.plus(d).is_nan(),
    ensures
        a.plus(b).at_most(c.plus(d)),
{
    let top = rounding::INFINITE as nat;
    double_laws::lemma_pattern_magnitude_order(a.pattern(), top);
    double_laws::lemma_pattern_magnitude_order(b.pattern(), top);
    double_laws::lemma_pattern_magnitude_order(c.pattern(), top);
    double_laws::lemma_pattern_magnitude_order(d.pattern(), top);
    double_laws::lemma_pattern_magnitude_order(a.plus(b).pattern(), top);
    double_laws::lemma_pattern_magnitude_order(c.plus(d).pattern(), top);
    if a.is_infinite() || b.is_infinite() || c.is_infinite() || d.is_infinite() {
        reveal(Double::plus);
        lemma_only_infinite(a);
        lemma_only_infinite(b);
        lemma_only_infinite(c);
        lemma_only_infinite(d);
    } else {
        error_laws::lemma_plus_units(a, b);
        error_laws::lemma_plus_units(c, d);
        error_laws::lemma_rounded_monotone(a.units() + b.units(), c.units() + d.units());
    }
}

/// No finite number is as large as an infinite one.
pub proof fn lemma_only_infinite(a: Double)
    requires
        !a.is_nan(),
    ensures
        a.is_infinite() <==> a.magnitude() == double::pattern_magnitude(rounding::INFINITE as nat),
{
    if !a.is_infinite() {
        double::lemma_pattern_order(a.pattern(), rounding::INFINITE as nat);
    }
}

/// What a margin takes from the balance.
spec fn taken(margin: Double, leverage: Double, fee_rate: Double) -> Double {
    margin.plus(backtest::opening_cost(margin, leverage, fee_rate))
}

/// A larger margin does not take less from the balance.
proof fn lemma_taken_monotone(a: Double, b: Double, leverage: Double, fee_rate: Double)
    requires
        a.at_most(b),
        !leverage.below(Double::zero()),
        !fee_rate.below(Double::zero()),
        !taken(a, leverage, fee_rate).is_nan(),
        !taken(b, leverage, fee_rate).is_nan(),
    ensures
        taken(a, leverage, fee_rate).at_most(taken(b, leverage, fee_rate)),
{
    lemma_zero();
    assert(!a.times(leverage).times(fee_rate).is_nan() && !b.times(leverage).times(
        fee_rate,
    ).is_nan()) by {
        reveal(Double::plus);
        lemma_nan();
    }
    assert(!a.times(leverage).is_nan() && !b.times(leverage).is_nan() && !fee_rate.is_nan()) by {
        reveal(Double::times);
        lemma_nan();
    }
    assert(!leverage.is_nan()) by {
        reveal(Double::times);
        lemma_nan();
    }
    lemma_times_monotone(a, b, leverage);
    lemma_times_monotone(a.times(leverage), b.times(leverage), fee_rate);
    lemma_plus_monotone(
        a,
        a.times(leverage).times(fee_rate),
        b,
        b.times(leverage).times(fee_rate),
    );
}

proof fn lemma_nan()
    ensures
        Double::nan().is_nan(),
{
}

/// A margin that the balance covers is at most the margin that was asked for.
proof fn lemma_covered_is_no_more(margin: Double, leverage: Double, fee_rate: Double, saldo: Double)
    requires
        !leverage.below(Double::zero()),
        !fee_rate.below(Double::zero()),
        ({
            let covered = backtest::margin_covered(margin, leverage, fee_rate, saldo);
            backtest::affordable(
                covered,
                backtest::opening_cost(covered, leverage, fee_rate),
                saldo,
            )
        }),
    ensures
        backtest::margin_covered(margin, leverage, fee_rate, saldo).at_most(margin),
{
    let covered = backtest::margin_covered(margin, leverage, fee_rate, saldo);
    if saldo.below(taken(margin, leverage, fee_rate)) {
        assert(!margin.is_nan()) by {
            reveal(Double::plus);
            lemma_nan();
        }
        if margin.below(covered) {
            lemma_taken_monotone(margin, covered, leverage, fee_rate);
            assert(false);
        }
    }
}

/// What is left of a limit fills it up to at most the limit, up to one rounding.
proof fn lemma_filled_up(bound: Double, limit: Double)
    requires
        Double::zero().at_most(bound),
        bound.at_most(limit),
        !limit.is_infinite(),
        Double::zero().below(limit.minus(bound)),
    ensures
        !bound.plus(limit.minus(bound)).is_nan(),
        about_at_most(bound.plus(limit.minus(bound)), limit),
{
    lemma_zero();
    let top = rounding::INFINITE as nat;
    lemma_only_infinite(bound);
    lemma_only_infinite(limit);
    double_laws::lemma_pattern_magnitude_order(limit.pattern(), top);
    let left = limit.minus(bound);
    error_laws::lemma_minus_units(limit, bound);
    let d = (limit.units() - bound.units()) as nat;
    let p = limit.pattern();
    error_laws::lemma_representable(p);
    rounding::lemma_nearest_monotone(d, 1, limit.magnitude(), 1);
    double_laws::lemma_pattern_magnitude_order(rounding::nearest_pattern(d, 1), p);
    lemma_only_infinite(left);
    error_laws::lemma_nearest_error(d, 1);
    let s = double::pattern_scale(p);
    lemma_place(p, d);
    assert(1 * pow2(rounding::fit(d, 1)) == pow2(rounding::fit(d, 1)));
    let m = double::pattern_magnitude(rounding::nearest_pattern(d, 1));
    assert(m - d <= error_laws::distance((m * 1) as int, d as int));
    assert(left.units() == m);
    let exact = bound.units() + left.units();
    error_laws::lemma_next(p);
    lemma_pow2_pos(s);
    let next = double::pattern_magnitude(p + 1);
    assert(exact <= next);
    error_laws::lemma_plus_units(bound, left);
    rounding::lemma_nearest_monotone(exact as nat, 1, next, 1);
    error_laws::lemma_representable(p + 1);
    let sum = bound.plus(left);
    assert(sum.units() == double::pattern_magnitude(rounding::nearest_pattern(exact as nat, 1)));
    assert(sum.units() > 0) by {
        error_laws::lemma_rounded_monotone(left.units(), exact);
        error_laws::lemma_representable(left.pattern());
    }
    assert(sum.pattern() <= p + 1) by {
        double_laws::lemma_pattern_magnitude_order(
            rounding::nearest_pattern(exact as nat, 1),
            p + 1,
        );
        if sum.pattern() > p + 1 {
            double::lemma_pattern_order(p + 1, sum.pattern());
        }
    }
    if sum.pattern() <= p {
        double_laws::lemma_pattern_magnitude_order(sum.pattern(), p);
    }
}

/// A part of a number needs no larger place than the number.
proof fn lemma_place(p: nat, d: nat)
    requires
        p < rounding::INFINITE,
        d <= double::pattern_magnitude(p),
    ensures
        pow2(rounding::fit(d, 1)) <= pow2(double::pattern_scale(p)),
{
    let s = double::pattern_scale(p);
    let x = rounding::fit(d, 1);
    let m = (p - s * double::BINADE) as nat;
    double::lemma_pattern_parts(p);
    rounding::lemma_fit_bound(d, 1);
    lemma2_to64();
    lemma2_to64_rest();
    lemma_pow2_pos(s);
    if x > s {
        lemma_pow2_adds(53, s);
        assert(m * pow2(s) < pow2(53) * pow2(s)) by (nonlinear_arith)
            requires
                m < pow2(53),
                pow2(s) > 0,
        ;
        if x > s + 1 {
            lemma_pow2_strictly_increases((53 + s) as nat, (52 + x) as nat);
        }
        assert(1 * pow2((52 + x) as nat) == pow2((52 + x) as nat));
        assert(false);
    } else if x < s {
        lemma_pow2_strictly_increases(x, s);
    }
}

/// The share of a box is a positive number.
proof fn lemma_share(box_type: BoxType)
    ensures
        Double::zero().below(backtest::allocation(box_type)),
        !backtest::allocation(box_type).negative(),
{
    lemma_zero();
    lemma2_to64();
    lemma2_to64_rest();
    lemma_pow2_pos(1074);
    lemma_pow2_pos(1071);
    lemma_pow2_adds(3, 1071);
    lemma_pow2_strictly_increases(1071, 2090);
    let k: nat = match box_type {
        BoxType::LT => 80,
        BoxType::ST => 20,
    };
    let num = k * pow2(1074);
    assert(num * 1 >= (1 * pow2(1071)) * 100) by (nonlinear_arith)
        requires
            num == k * pow2(1074),
            k >= 20,
            pow2(1074) == 8 * pow2(1071),
    ;
    double_laws::lemma_nearest_sign(false, num, 100);
    double_laws::lemma_exact(1, 1071);
    rounding::lemma_nearest_monotone(1 * pow2(1071), 1, num, 100);
    double_laws::lemma_pattern_magnitude_order(
        rounding::nearest_pattern(1 * pow2(1071), 1),
        rounding::nearest_pattern(num, 100),
    );
}

/// What a box may bind is not below zero.
proof fn lemma_limit(equity: Double, box_type: BoxType)
    requires
        Double::zero().below(equity),
    ensures
        Double::zero().at_most(equity.times(backtest::allocation(box_type))),
        !equity.times(backtest::allocation(box_type)).negative(),
{
    reveal(Double::times);
    lemma_zero();
    lemma_share(box_type);
    let share = backtest::allocation(box_type);
    double_laws::lemma_nearest_sign(false, equity.magnitude() * share.magnitude(), pow2(1074));
    assert(Double::infinity(false).pattern() == rounding::INFINITE);
}

proof fn lemma_sum_of_prefix(s: Seq<Position>, t: Seq<Position>, box_type: BoxType, n: nat)
    requires
        n <= s.len(),
        n <= t.len(),
        forall|i: int|
            0 <= i < n ==> (#[trigger] s[i]).box_type == t[i].box_type && s[i].margin
                == t[i].margin,
    ensures
        backtest::margin_in_box(s, box_type, n) == backtest::margin_in_box(t, box_type, n),
    decreases n,
{
    if n > 0 {
        lemma_sum_of_prefix(s, t, box_type, (n - 1) as nat);
        assert(s[n - 1].box_type == t[n - 1].box_type);
    }
}

proof fn lemma_sum_of_push(s: Seq<Position>, pos: Position, box_type: BoxType)
    ensures
        backtest::margin_in_box(s.push(pos), box_type, s.push(pos).len()) == (if pos.box_type
            == box_type {
            backtest::margin_in_box(s, box_type, s.len()).plus(pos.margin)
        } else {
            backtest::margin_in_box(s, box_type, s.len())
        }),
{
    lemma_sum_of_prefix(s.push(pos), s, box_type, s.len());
}

/// Only the positions of a box count for its margin.
proof fn lemma_sum_of_box(s: Seq<Position>, box_type: BoxType)
    ensures
        backtest::margin_in_box(s, box_type, s.len()) == backtest::margin_in_box(
            strategy_laws::in_box(s, box_type),
            box_type,
            strategy_laws::in_box(s, box_type).len(),
        ),
    decreases s.len(),
{
    if s.len() > 0 {
        lemma_sum_of_box(s.drop_last(), box_type);
        assert(s.drop_last().push(s.last()) =~= s);
        lemma_sum_of_push(s.drop_last(), s.last(), box_type);
        lemma_sum_of_push(
            strategy_laws::in_box(s.drop_last(), box_type),
            s.last(),
            box_type,
        );
    }
}

/// A sum of sound margins is not below zero.
proof fn lemma_sum_is_sound(s: Seq<Position>, box_type: BoxType, n: nat)
    requires
        n <= s.len(),
        margins_are_sound(s),
    ensures
        Double::zero().at_most(backtest::margin_in_box(s, box_type, n)),
    decreases n,
{
    lemma_zero();
    if n > 0 {
        lemma_sum_is_sound(s, box_type, (n - 1) as nat);
        lemma_sum_of_two(
            backtest::margin_in_box(s, box_type, (n - 1) as nat),
            s[n - 1].margin,
        );
    }
}

proof fn lemma_sum_of_two(a: Double, b: Double)
    requires
        Double::zero().at_most(a),
        Double::zero().at_most(b),
    ensures
        Double::zero().at_most(a.plus(b)),
{
    lemma_zero();
    double_laws::sums_stay_up(a, b);
    assert(!a.plus(b).is_nan()) by {
        if a.is_infinite() || b.is_infinite() {
            reveal(Double::plus);
            lemma_only_infinite(a);
            lemma_only_infinite(b);
            double::lemma_pattern_order(0, rounding::INFINITE as nat);
        } else {
            error_laws::lemma_plus_units(a, b);
        }
    }
}

proof fn lemma_box_is_sound(s: Seq<Position>, box_type: BoxType)
    requires
        margins_are_sound(s),
    ensures
        margins_are_sound(strategy_laws::in_box(s, box_type)),
    decreases s.len(),
{
    if s.len() > 0 {
        assert(margins_are_sound(s.drop_last())) by {
            assert forall|i: int| 0 <= i < s.drop_last().len() implies Double::zero().at_most(
                #[trigger] s.drop_last()[i].margin,
            ) by {
                assert(s.drop_last()[i] == s[i]);
            }
        }
        lemma_box_is_sound(s.drop_last(), box_type);
        assert(Double::zero().at_most(s[s.len() - 1].margin));
    }
}

/// What is less than a number that is about a limit is about the limit, too.
proof fn lemma_less_is_within(x: Double, y: Double, limit: Double)
    requires
        Double::zero().at_most(x),
        x.at_most(y),
        !limit.is_nan(),
        !limit.negative(),
        about_at_most(y, limit),
    ensures
        about_at_most(x, limit),
{
    lemma_zero();
    if !y.at_most(limit) {
        if x.pattern() > y.pattern() {
            double::lemma_pattern_order(y.pattern(), x.pattern());
            assert(x.magnitude() == 0);
            double::lemma_pattern_order(0, x.pattern());
        }
        if x.pattern() < y.pattern() {
            double_laws::lemma_pattern_magnitude_order(x.pattern(), limit.pattern());
        } else {
            double::lemma_pattern_order(0, x.pattern());
        }
    }
}

proof fn lemma_opening(
    book: Book,
    t: PositionType,
    box_type: BoxType,
    only: Option<PositionType>,
    chosen: Option<Double>,
    stop_loss: Option<Double>,
    rules: Rules,
    equity: Double,
    price: Double,
)
    requires
        Double::zero().below(equity),
        !rules.fee_rate.below(Double::zero()),
        !rules.leverage.below(Double::zero()),
        margins_are_sound(book.positions),
    ensures
        ({
            let after = book.opening(
                t,
                box_type,
                only,
                chosen,
                stop_loss,
                rules,
                equity,
                price,
            ).0.positions;
            &&& margins_are_sound(after)
            &&& after == book.positions || fits_its_box(after, box_type, equity)
        }),
{
    let (next, outcome) = book.opening(
        t,
        box_type,
        only,
        chosen,
        stop_loss,
        rules,
        equity,
        price,
    );
    let s = book.positions;
    if let BoxOutcome::Opened { position } = outcome {
        let wanted = backtest::margin_wanted(s, box_type, equity, rules.risk_percent);
        let bound = backtest::margin_in_box(s, box_type, s.len());
        let limit = equity.times(backtest::allocation(box_type));
        let margin = position.margin;
        lemma_zero();
        lemma_limit(equity, box_type);
        if rules.dynamic && chosen is Some {
            chosen_leverage_lies_between_five_and_ten(rules, chosen->Some_0);
        }
        lemma_covered_is_no_more(
            wanted,
            backtest::leverage_used(rules, chosen),
            rules.fee_rate,
            book.saldo,
        );
        assert(margin.at_most(wanted));
        assert(Double::zero().below(margin)) by {
            double_laws::lemma_nearest_sign(false, 1 * pow2(1074), 100);
        }
        assert(next.positions == s.push(position));
        lemma_sum_of_push(s, position, box_type);
        lemma_sum_is_sound(s, box_type, s.len());
        lemma_sum_of_two(bound, margin);
        lemma_sum_of_two(bound, wanted);
        lemma_plus_monotone(bound, margin, bound, wanted);
        assert forall|i: int| 0 <= i < s.push(position).len() implies Double::zero().at_most(
            #[trigger] s.push(position)[i].margin,
        ) by {
            if i < s.len() {
                assert(s.push(position)[i] == s[i]);
            }
        }
        if limit.below(bound.plus(wanted)) {
            lemma_only_infinite(limit);
            double_laws::lemma_pattern_magnitude_order(
                bound.plus(wanted).pattern(),
                rounding::INFINITE as nat,
            );
            assert(!limit.is_infinite());
            lemma_not_beyond(bound, limit);
            lemma_filled_up(bound, limit);
            lemma_less_is_within(bound.plus(margin), bound.plus(wanted), limit);
        }
    }
}

/// A limit leaves nothing for what is beyond it.
proof fn lemma_not_beyond(bound: Double, limit: Double)
    requires
        !bound.is_nan(),
        !limit.is_nan(),
        !limit.is_infinite(),
        Double::zero().below(limit.minus(bound)),
    ensures
        bound.at_most(limit),
{
    lemma_zero();
    lemma_only_infinite(bound);
    lemma_only_infinite(limit);
    double_laws::lemma_pattern_magnitude_order(limit.pattern(), rounding::INFINITE as nat);
    if bound.is_infinite() {
        reveal(Double::plus);
        double_laws::lemma_negated(bound);
    } else if limit.below(bound) {
        error_laws::lemma_minus_units(limit, bound);
        error_laws::lemma_rounded_monotone(limit.units() - bound.units(), 0);
        double_laws::lemma_nothing_nearest(false, 1);
        double_laws::lemma_nearest_sign(false, 0, 1);
    }
}

/// A book without positions binds no margin: every box is within its share.
pub proof fn nothing_stays_in_its_box(equity: Double, box_type: BoxType)
    requires
        Double::zero().below(equity),
    ensures
        margins_are_sound(Seq::empty()),
        fits_its_box(Seq::empty(), box_type, equity),
{
    lemma_zero();
    lemma_limit(equity, box_type);
}

/// Whatever is done in a box, the margins of each box stay within its share of the equity, up to
/// one rounding, where they were: an opening that would go beyond the share gets only the margin
/// that is left of it. The equity is positive, and neither the fee rate nor the leverage of the
/// terms is below zero.
pub proof fn margins_stay_in_their_box(
    book: Book,
    action: BoxAction,
    box_type: BoxType,
    only: Option<PositionType>,
    rules: Rules,
    equity: Double,
    price: Double,
    held: BoxType,
)
    requires
        Double::zero().below(equity),
        !rules.fee_rate.below(Double::zero()),
        !rules.leverage.below(Double::zero()),
        margins_are_sound(book.positions),
        fits_its_box(book.positions, held, equity),
    ensures
        margins_are_sound(
            book.acted(action, box_type, only, rules, equity, price).0.positions,
        ),
        fits_its_box(
            book.acted(action, box_type, only, rules, equity, price).0.positions,
            held,
            equity,
        ),
{
    lemma_zero();
    let closed = if action.cerrar {
        book.box_closed(box_type, price, rules.fee_rate)
    } else {
        book
    };
    strategy_laws::closing_empties_one_box(book, box_type, price, rules.fee_rate);
    lemma_box_is_sound(book.positions, strategy_laws::other_box(box_type));
    lemma_sum_of_box(closed.positions, box_type);
    lemma_limit(equity, box_type);
    let moved = match action.stop_loss {
        Some(stop) => closed.stops_moved(box_type, stop, price, 0),
        None => closed,
    };
    if action.stop_loss is Some {
        strategy_laws::stops_move_in_one_box(
            closed,
            box_type,
            action.stop_loss->Some_0,
            price,
        );
        lemma_sum_of_prefix(
            moved.positions,
            closed.positions,
            box_type,
            closed.positions.len(),
        );
        assert forall|i: int| 0 <= i < moved.positions.len() implies Double::zero().at_most(
            #[trigger] moved.positions[i].margin,
        ) by {
            assert(closed.positions[i].margin == moved.positions[i].margin);
        }
    }
    lemma_opening(
        moved,
        backtest::wanted(text::uppercase_of(action.accion@)),
        box_type,
        only,
        action.apalancamiento,
        action.stop_loss,
        rules,
        equity,
        price,
    );
    strategy_laws::boxes_are_independent(book, action, box_type, only, rules, equity, price);
    let last = book.acted(action, box_type, only, rules, equity, price).0.positions;
    lemma_sum_of_box(last, strategy_laws::other_box(box_type));
    lemma_sum_of_box(book.positions, strategy_laws::other_box(box_type));
}

/// An answer for both boxes leaves the margins of each box within its share of the equity, up to
/// one rounding, where they were.
pub proof fn answers_stay_in_their_boxes(
    book: Book,
    answer: GemmaResponse,
    trend: PositionType,
    rules: Rules,
    equity: Double,
    price: Double,
    held: BoxType,
)
    requires
        Double::zero().below(equity),
        !rules.fee_rate.below(Double::zero()),
        !rules.leverage.below(Double::zero()),
        margins_are_sound(book.positions),
        fits_its_box(book.positions, held, equity),
    ensures
        margins_are_sound(book.answered(answer, trend, rules, equity, price).0.positions),
        fits_its_box(
            book.answered(answer, trend, rules, equity, price).0.positions,
            held,
            equity,
        ),
{
    margins_stay_in_their_box(
        book,
        answer.lt_box,
        BoxType::LT,
        Some(trend),
        rules,
        equity,
        price,
        held,
    );
    let lt = book.acted(answer.lt_box, BoxType::LT, Some(trend), rules, equity, price).0;
    margins_stay_in_their_box(
        lt,
        answer.st_box,
        BoxType::ST,
        None,
        rules,
        equity,
        price,
        held,
    );
}

/// A leverage that the model chooses lies between 5 and 10 when it is used, and is used as chosen
/// where it does so anyway.
pub proof fn chosen_leverage_lies_between_five_and_ten(rules: Rules, chosen: Double)
    requires
        rules.dynamic,
    ensures
        ({
            let used = backtest::leverage_used(rules, Some(chosen));
            &&& Double::of(5).at_most(used)
            &&& used.at_most(Double::of(10))
            &&& !used.below(Double::zero())
            &&& Double::of(5).at_most(chosen) && chosen.at_most(Double::of(10)) ==> used == chosen
        }),
{
    lemma_zero();
    lemma2_to64();
    lemma2_to64_rest();
    double_laws::small_naturals_are_exact(5);
    double_laws::small_naturals_are_exact(10);
    lemma_pow2_pos(1074);
}

/// The same holds of live trading, where the leverage is a whole number.
pub proof fn live_leverage_lies_between_five_and_ten(chosen: Double, leverage: u32)
    ensures
        5 <= live::whole_leverage(Some(chosen), leverage) <= 10,
{
    lemma_zero();
    lemma2_to64();
    lemma2_to64_rest();
    double_laws::small_naturals_are_exact(5);
    double_laws::small_naturals_are_exact(10);
    lemma_pow2_pos(1074);
    let used = backtest::leverage_allowed(chosen);
    let one = pow2(1074) as int;
    lemma_div_is_ordered(5 * one, used.units(), one);
    lemma_div_is_ordered(used.units(), 10 * one, one);
    lemma_div_multiples_vanish(5, one);
    lemma_div_multiples_vanish(10, one);
    lemma_mul_is_commutative(5, one);
    lemma_mul_is_commutative(10, one);
}

/// A position of the short-term box has its stop loss at most 2 percent from its entry price on
/// the losing side.
pub open spec fn stop_is_tight(pos: Position) -> bool {
    match pos.stop_loss {
        Some(stop) => pos.box_type == BoxType::ST ==> match pos.position_type {
            PositionType::Long => !stop.below(positions::lowest_stop(pos.entry_price)),
            PositionType::Short => !positions::highest_stop(pos.entry_price).below(stop),
            PositionType::NoPosition => true,
        },
        None => true,
    }
}

/// Every stop loss of the short-term box is tight.
pub open spec fn stops_are_tight(s: Seq<Position>) -> bool {
    forall|i: int| 0 <= i < s.len() ==> stop_is_tight(#[trigger] s[i])
}

/// A new position of the short-term box has its stop loss at most 2 percent from its price, on
/// either side, and where it was asked for if that is so.
pub proof fn first_stops_lie_within_two_percent(price: Double, stop: Double)
    requires
        Double::zero().at_most(price),
        !stop.is_nan(),
    ensures
        ({
            let low = positions::lowest_stop(price);
            let high = positions::highest_stop(price);
            let placed = positions::first_stop(BoxType::ST, price, stop);
            &&& low.at_most(placed)
            &&& placed.at_most(high)
            &&& low.at_most(stop) && stop.at_most(high) ==> placed == stop
        }),
{
    lemma_stop_range(price);
}

proof fn lemma_stop_range(price: Double)
    requires
        Double::zero().at_most(price),
    ensures
        positions::lowest_stop(price).at_most(positions::highest_stop(price)),
{
    let a = Double::ratio_of(98, 100);
    let b = Double::ratio_of(102, 100);
    lemma_zero();
    lemma2_to64();
    lemma2_to64_rest();
    lemma_pow2_pos(1074);
    lemma_pow2_pos(1073);
    lemma_pow2_adds(1, 1073);
    lemma_pow2_strictly_increases(1073, 2090);
    double_laws::lemma_nearest_sign(false, 98 * pow2(1074), 100);
    double_laws::lemma_nearest_sign(false, 102 * pow2(1074), 100);
    rounding::lemma_nearest_monotone(98 * pow2(1074), 100, 102 * pow2(1074), 100);
    double_laws::lemma_exact(1, 1073);
    rounding::lemma_nearest_monotone(1 * pow2(1073), 1, 98 * pow2(1074), 100);
    lemma_pow2_adds(1, 1074);
    lemma_pow2_strictly_increases(1075, 2090);
    double_laws::lemma_exact(1, 1075);
    rounding::lemma_nearest_monotone(102 * pow2(1074), 100, 1 * pow2(1075), 1);
    double_laws::lemma_pattern_magnitude_order(a.pattern(), b.pattern());
    double_laws::lemma_pattern_magnitude_order(
        rounding::nearest_pattern(1 * pow2(1073), 1),
        a.pattern(),
    );
    double_laws::multiplication_commutes(a, price);
    double_laws::multiplication_commutes(b, price);
    assert(!a.times(price).is_nan() && !b.times(price).is_nan()) by {
        reveal(Double::times);
        double_laws::lemma_nearest_sign(
            a.negative() != price.negative(),
            a.magnitude() * price.magnitude(),
            pow2(1074),
        );
        double_laws::lemma_nearest_sign(
            b.negative() != price.negative(),
            b.magnitude() * price.magnitude(),
            pow2(1074),
        );
        double::lemma_pattern_order(0, rounding::INFINITE as nat);
        lemma_only_infinite(price);
        lemma_only_infinite(a);
        lemma_only_infinite(b);
    }
    lemma_times_monotone(a, b, price);
}

/// Whatever is done in a box, the stop losses of the short-term box stay tight: at most 2 percent
/// from the entry price on the losing side. On the winning side they may follow the price.
pub proof fn short_term_stops_stay_tight(
    book: Book,
    action: BoxAction,
    box_type: BoxType,
    only: Option<PositionType>,
    rules: Rules,
    equity: Double,
    price: Double,
)
    requires
        Double::zero().at_most(price),
        stops_are_tight(book.positions),
    ensures
        stops_are_tight(book.acted(action, box_type, only, rules, equity, price).0.positions),
{
    lemma_stop_range(price);
    let closed = if action.cerrar {
        book.box_closed(box_type, price, rules.fee_rate)
    } else {
        book
    };
    strategy_laws::closing_empties_one_box(book, box_type, price, rules.fee_rate);
    lemma_box_is_tight(book.positions, strategy_laws::other_box(box_type));
    assert(stops_are_tight(closed.positions));
    let moved = match action.stop_loss {
        Some(stop) => closed.stops_moved(box_type, stop, price, 0),
        None => closed,
    };
    if let Some(stop) = action.stop_loss {
        strategy_laws::stops_move_in_one_box(closed, box_type, stop, price);
        assert forall|i: int| 0 <= i < moved.positions.len() implies stop_is_tight(
            #[trigger] moved.positions[i],
        ) by {
            assert(stop_is_tight(closed.positions[i]));
        }
    }
    let last = book.acted(action, box_type, only, rules, equity, price).0.positions;
    if last.len() > moved.positions.len() {
        assert forall|i: int| 0 <= i < last.len() implies stop_is_tight(#[trigger] last[i]) by {
            if i < moved.positions.len() {
                assert(last[i] == moved.positions[i]);
            }
        }
    }
}

proof fn lemma_box_is_tight(s: Seq<Position>, box_type: BoxType)
    requires
        stops_are_tight(s),
    ensures
        stops_are_tight(strategy_laws::in_box(s, box_type)),
    decreases s.len(),
{
    if s.len() > 0 {
        assert(stops_are_tight(s.drop_last())) by {
            assert forall|i: int| 0 <= i < s.drop_last().len() implies stop_is_tight(
                #[trigger] s.drop_last()[i],
            ) by {
                assert(s.drop_last()[i] == s[i]);
            }
        }
        lemma_box_is_tight(s.drop_last(), box_type);
        assert(stop_is_tight(s[s.len() - 1]));
    }
}

/// An answer for both boxes leaves the stop losses of the short-term box tight.
pub proof fn answers_keep_stops_tight(
    book: Book,
    answer: GemmaResponse,
    trend: PositionType,
    rules: Rules,
    equity: Double,
    price: Double,
)
    requires
        Double::zero().at_most(price),
        stops_are_tight(book.positions),
    ensures
        stops_are_tight(book.answered(answer, trend, rules, equity, price).0.positions),
{
    short_term_stops_stay_tight(
        book,
        answer.lt_box,
        BoxType::LT,
        Some(trend),
        rules,
        equity,
        price,
    );
    let lt = book.acted(answer.lt_box, BoxType::LT, Some(trend), rules, equity, price).0;
    short_term_stops_stay_tight(lt, answer.st_box, BoxType::ST, None, rules, equity, price);
}

} // verus!
