//! What is risked, what it costs and what an account is worth, up to rounding.

use crate::backtest;
use crate::bingx_answers::Report;
use crate::box_laws;
use crate::dashboard;
use crate::double::Double;
use crate::double_laws;
use crate::error_laws;
use crate::error_laws::{distance, moderate, near};
use crate::liquidation_laws;
use crate::live;
use crate::live::LivePosition;
use crate::strategy_laws;
use crate::types::{BoxType, PositionType};
use vstd::arithmetic::power2::*;
use vstd::prelude::*;

verus! {

proof fn lemma_near_tight(x: int, y: int, k: nat)
    requires
        near(x, y, k),
        4 <= k <= 52,
        y >= 0,
    ensures
        16 * x <= 17 * y,
        15 * y <= 16 * x,
{
    let d = distance(x, y);
    lemma_pow2_adds(4, (k - 4) as nat);
    lemma_pow2_pos((k - 4) as nat);
    lemma2_to64();
    assert(16 * d <= pow2(k) * d) by (nonlinear_arith)
        requires
            pow2(k) >= 16,
            d >= 0,
    ;
}

/// A share in percent of an amount.
proof fn lemma_share(amount: Double, percent: Double)
    requires
        moderate(amount),
        moderate(percent),
    ensures
        ({
            let m = amount.times(percent.over(Double::of(100)));
            &&& !m.is_nan()
            &&& !m.is_infinite()
            &&& !m.negative()
            &&& near(m.units() * 100 * pow2(1074), amount.units() * percent.units(), 50)
        }),
{
    let u = pow2(1074) as int;
    let hundred = Double::of(100);
    let q = percent.over(hundred);
    let a = amount.units();
    let p = percent.units();
    lemma2_to64();
    lemma2_to64_rest();
    lemma_pow2_pos(1074);
    lemma_pow2_pos(974);
    lemma_pow2_strictly_increases(800, 974);
    lemma_pow2_strictly_increases(900, 974);
    lemma_pow2_strictly_increases(900, 1074);
    lemma_pow2_strictly_increases(1174, 1400);
    lemma_pow2_adds(7, 1074);
    lemma_pow2_strictly_increases(1081, 1400);
    double_laws::small_naturals_are_exact(100);
    error_laws::lemma_over_moderate(percent, hundred);
    let x = q.units();
    assert(x * (100 * u) == (x * 100) * u) by (nonlinear_arith);
    error_laws::lemma_near_unscaled(x * 100, p, u, 52);
    lemma_near_tight(x * 100, p, 52);
    lemma_pow2_adds(8, 966);
    lemma_pow2_pos(966);
    lemma_pow2_strictly_increases(900, 966);
    assert(256 * x >= p);
    error_laws::lemma_times_moderate(amount, q);
    let m = amount.times(q).units();
    error_laws::lemma_near_scaled(m * u, a * x, 100, 52);
    error_laws::lemma_near_scaled(x * 100, p, a, 52);
    assert((a * x) * 100 == (x * 100) * a) by (nonlinear_arith);
    assert(p * a == a * p) by (nonlinear_arith);
    error_laws::lemma_near_chain((m * u) * 100, (a * x) * 100, a * p, 52);
    assert((m * u) * 100 == m * 100 * u) by (nonlinear_arith);
}

/// The first position of a run is opened with the risked share of the equity: its margin, times a
/// hundred, is the equity times the percentage.
pub proof fn first_margins_are_the_risked_share(
    box_type: BoxType,
    equity: Double,
    risk_percent: Double,
)
    requires
        moderate(equity),
        moderate(risk_percent),
        risk_percent.units() <= 16 * pow2(1074),
    ensures
        near(
            backtest::margin_wanted(Seq::empty(), box_type, equity, risk_percent).units() * 100
                * pow2(1074),
            equity.units() * risk_percent.units(),
            50,
        ),
{
    let u = pow2(1074) as int;
    let e = equity.units();
    let r = risk_percent.units();
    let margin = equity.times(risk_percent.over(Double::of(100)));
    let share = backtest::allocation(box_type);
    let limit = equity.times(share);
    let bound = Double::empty_sum();
    lemma2_to64();
    lemma2_to64_rest();
    lemma_pow2_pos(1074);
    lemma_pow2_pos(974);
    assert(0nat * pow2(0) == 0);
    lemma_share(equity, risk_percent);
    let m = margin.units();
    lemma_near_tight(m * 100 * u, e * r, 50);
    error_laws::lemma_plus_units(bound, margin);
    error_laws::lemma_representable(margin.pattern());
    assert(bound.plus(margin).units() == m);
    error_laws::lemma_ratio_near(80, 100);
    error_laws::lemma_ratio_near(20, 100);
    let s = share.units();
    lemma_near_tight(Double::ratio_of(80, 100).units() * 100, (80 * pow2(1074)) as int, 52);
    lemma_near_tight(Double::ratio_of(20, 100).units() * 100, (20 * pow2(1074)) as int, 52);
    assert(1600 * s >= 300 * u);
    assert(1600 * s <= 1360 * u);
    lemma_pow2_adds(3, 1071);
    lemma_pow2_pos(1071);
    lemma_pow2_strictly_increases(900, 1071);
    lemma_pow2_strictly_increases(1074, 1400);
    lemma_pow2_strictly_increases(900, 974);
    lemma_pow2_strictly_increases(1174, 1400);
    error_laws::lemma_times_moderate(equity, share);
    let l = limit.units();
    assert(e * s >= 0) by (nonlinear_arith)
        requires
            e >= 0,
            s >= 0,
    ;
    lemma_near_tight(l * u, e * s, 52);
    lemma_fits(m, l, e, r, s, u);
}

proof fn lemma_fits(m: int, l: int, e: int, r: int, s: int, u: int)
    requires
        u > 0,
        e > 0,
        0 <= r <= 16 * u,
        16 * (m * 100 * u) <= 17 * (e * r),
        15 * (e * s) <= 16 * (l * u),
        1600 * s >= 300 * u,
    ensures
        m <= l,
{
    assert(e * r <= 16 * (e * u)) by (nonlinear_arith)
        requires
            r <= 16 * u,
            e > 0,
    ;
    assert(1600 * (e * s) >= 300 * (e * u)) by (nonlinear_arith)
        requires
            1600 * s >= 300 * u,
            e > 0,
    ;
    assert(m * 100 * u == 100 * (m * u)) by (nonlinear_arith);
    // 1600 m u <= 272 e u, and 1600 l u >= 1500 e s >= 281 e u
    assert(e * u > 0) by (nonlinear_arith)
        requires
            e > 0,
            u > 0,
    ;
    assert(m * u <= l * u);
    assert(m <= l) by (nonlinear_arith)
        requires
            m * u <= l * u,
            u > 0,
    ;
}

/// Opening a position costs the fee rate of the value that margin and leverage control.
pub proof fn openings_cost_a_share_of_their_value(
    margin: Double,
    leverage: Double,
    fee_rate: Double,
)
    requires
        moderate(margin),
        moderate(leverage),
        moderate(fee_rate),
        moderate(margin.times(leverage)),
    ensures
        near(
            backtest::opening_cost(margin, leverage, fee_rate).units() * pow2(1074) * pow2(1074),
            margin.units() * leverage.units() * fee_rate.units(),
            50,
        ),
{
    let u = pow2(1074) as int;
    let value = margin.times(leverage);
    let v = value.units();
    let m = margin.units();
    let l = leverage.units();
    let f = fee_rate.units();
    lemma_pow2_pos(1074);
    lemma_pow2_strictly_increases(900, 974);
    lemma_pow2_strictly_increases(1174, 1400);
    error_laws::lemma_times_moderate(margin, leverage);
    error_laws::lemma_times_moderate(value, fee_rate);
    let c = value.times(fee_rate).units();
    error_laws::lemma_near_scaled(c * u, v * f, u, 52);
    error_laws::lemma_near_scaled(v * u, m * l, f, 52);
    assert((v * f) * u == (v * u) * f) by (nonlinear_arith);
    error_laws::lemma_near_chain(c * u * u, (v * f) * u, m * l * f, 52);
}

/// The position of an account is the first that is open, whatever is behind it; its margin, times
/// the leverage, is its size at its entry price.
pub proof fn accounts_hold_their_first_open_position(
    before: Seq<Report>,
    report: Report,
    behind: Seq<Report>,
    leverage: u32,
    size: Double,
    entry: Double,
    gain: Double,
)
    requires
        forall|k: int| 0 <= k < before.len() ==> !(#[trigger] before[k]).is_open(),
        crate::decimal_reader::read_double(report.amount) == Some(size),
        crate::decimal_reader::read_double(report.entry_price) == Some(entry),
        crate::decimal_reader::read_double(report.unrealized_profit) == Some(gain),
        moderate(size),
        moderate(entry),
        leverage > 0,
    ensures
        ({
            let held = live::current(before + seq![report] + behind, leverage, 0);
            &&& held.position_type == (if report.side == "LONG"@ {
                PositionType::Long
            } else {
                PositionType::Short
            })
            &&& held.size_btc == size
            &&& held.entry_price == entry
            &&& held.floating_pnl == gain
            &&& near(
                held.margin.units() * (leverage as int) * pow2(1074),
                size.units() * entry.units(),
                50,
            )
        }),
{
    let list = before + seq![report] + behind;
    let c = Double::of(leverage as int);
    lemma_pow2_pos(974);
    assert(0nat * pow2(0) == 0);
    lemma_first_open(before, report, behind, leverage, 0);
    assert(size.absolute() == size);
    lemma2_to64();
    lemma2_to64_rest();
    lemma_pow2_pos(1074);
    double_laws::small_naturals_are_exact(leverage as nat);
    lemma_pow2_adds(32, 1074);
    lemma_pow2_strictly_increases(974, 1074);
    lemma_pow2_strictly_increases(1106, 1174);
    let u = pow2(1074);
    assert(u <= leverage * u <= pow2(32) * u) by (nonlinear_arith)
        requires
            1 <= leverage <= pow2(32),
    ;
    liquidation_laws::lemma_size(size, entry, c);
    let m = size.times(entry).over(c).units();
    assert(m * (leverage * u) == m * (leverage as int) * u) by (nonlinear_arith);
}

proof fn lemma_first_open(
    before: Seq<Report>,
    report: Report,
    behind: Seq<Report>,
    leverage: u32,
    k: nat,
)
    requires
        k <= before.len(),
        report.is_open(),
        forall|k: int| 0 <= k < before.len() ==> !(#[trigger] before[k]).is_open(),
    ensures
        live::current(before + seq![report] + behind, leverage, k) == report.live(leverage),
    decreases before.len() - k,
{
    let list = before + seq![report] + behind;
    if k < before.len() {
        assert(list[k as int] == before[k as int]);
        lemma_first_open(before, report, behind, leverage, k + 1);
    } else {
        assert(list[k as int] == report);
    }
}

/// An account is worth what is available, the margin of its position and what that gains.
pub proof fn accounts_are_worth_all_they_hold(held: LivePosition, available: Double)
    requires
        error_laws::within(available, 1174),
        error_laws::within(held.margin, 1174),
        error_laws::within(held.floating_pnl, 1174),
    ensures
        ({
            let a = available.units();
            let m = held.margin.units();
            let g = held.floating_pnl.units();
            pow2(50) * distance(held.worth(available).units(), a + m + g) <= distance(a, 0)
                + distance(m, 0) + distance(g, 0) + pow2(52)
        }),
{
    let a = available.units();
    let m = held.margin.units();
    let g = held.floating_pnl.units();
    let sum = available.plus(held.margin);
    let s = sum.units();
    let all = sum.plus(held.floating_pnl);
    lemma2_to64();
    lemma_pow2_pos(50);
    lemma_pow2_adds(3, 50);
    lemma_pow2_adds(2, 50);
    lemma_pow2_strictly_increases(1174, 1175);
    error_laws::lemma_plus_within(available, held.margin, 1174);
    error_laws::lemma_plus_within(sum, held.floating_pnl, 1175);
    let d = distance(s, a + m);
    let e = distance(all.units(), s + g);
    let f = distance(all.units(), a + m + g);
    assert(f <= d + e) by {
        error_laws::lemma_triangle(all.units(), s + g, a + m + g);
        error_laws::lemma_distance_shift(s, a + m, g);
    }
    assert(distance(s, 0) <= distance(a, 0) + distance(m, 0) + d) by {
        error_laws::lemma_triangle(s, a + m, 0);
        error_laws::lemma_size_of_sum(a, m);
    }
    lemma_two_steps(
        pow2(50) as int,
        d,
        e,
        f,
        distance(a, 0),
        distance(m, 0),
        distance(g, 0),
        distance(s, 0),
    );
}

proof fn lemma_two_steps(q: int, d: int, e: int, f: int, a: int, m: int, g: int, s: int)
    requires
        q >= 1,
        d >= 0,
        e >= 0,
        a >= 0,
        m >= 0,
        g >= 0,
        0 <= f <= d + e,
        s <= a + m + d,
        8 * q * d <= a + m + 4 * q,
        8 * q * e <= s + g + 4 * q,
    ensures
        q * f <= a + m + g + 4 * q,
{
    assert(8 * d <= 8 * q * d) by (nonlinear_arith)
        requires
            q >= 1,
            d >= 0,
    ;
    assert(8 * (q * f) <= 8 * q * d + 8 * q * e) by (nonlinear_arith)
        requires
            f <= d + e,
            q >= 1,
    ;
}

/// A gain in percent, times the first balance, is a hundred times what the balance grew by.
pub proof fn gains_are_measured_from_the_first_balance(initial: Double, last: Double)
    requires
        moderate(initial),
        moderate(last),
        moderate(last.minus(initial)),
    ensures
        near(
            dashboard::roi(initial, last).units() * initial.units(),
            100 * (last.units() - initial.units()) * pow2(1074),
            45,
        ),
        dashboard::roi_color(dashboard::roi(initial, last)) == "text-emerald-400"@,
{
    let grown = last.minus(initial);
    let u = pow2(1074) as int;
    let y = last.units() - initial.units();
    let g = grown.units();
    let r = dashboard::roi(initial, last).units();
    lemma2_to64();
    lemma2_to64_rest();
    lemma_pow2_pos(974);
    lemma_pow2_pos(1074);
    lemma_pow2_strictly_increases(52, 974);
    assert(0nat * pow2(0) == 0);
    error_laws::lemma_finite_below(initial, 1174);
    error_laws::lemma_finite_below(last, 1174);
    error_laws::lemma_finite_below(grown, 1174);
    error_laws::lemma_minus_error(last, initial);
    lemma_grown(g, y);
    strategy_laws::lemma_percent(grown, initial);
    error_laws::lemma_near_scaled(g, y, 100 * u, 50);
    assert(g * (100 * u) == 100 * g * u) by (nonlinear_arith);
    assert(y * (100 * u) == 100 * y * u) by (nonlinear_arith);
    error_laws::lemma_near_chain(r * initial.units(), 100 * g * u, 100 * y * u, 50);
    error_laws::lemma_near_weaker(r * initial.units(), 100 * y * u, 48, 45);
}

proof fn lemma_grown(g: int, y: int)
    requires
        g >= pow2(974),
        pow2(53) * distance(g, y) <= distance(y, 0) + pow2(52),
    ensures
        near(g, y, 50),
{
    let d = distance(g, y);
    lemma2_to64();
    lemma2_to64_rest();
    lemma_pow2_adds(3, 50);
    lemma_pow2_adds(2, 50);
    lemma_pow2_strictly_increases(53, 974);
    assert(pow2(53) * d >= 8 * d) by (nonlinear_arith)
        requires
            pow2(53) >= 8,
            d >= 0,
    ;
    assert(8 * (pow2(50) * d) == pow2(53) * d) by (nonlinear_arith)
        requires
            pow2(53) == 8 * pow2(50),
    ;
}

/// A larger last balance is no smaller gain.
pub proof fn more_at_the_end_is_no_less_gain(initial: Double, less: Double, more: Double)
    requires
        moderate(initial),
        error_laws::within(less, 1174),
        error_laws::within(more, 1174),
        less.at_most(more),
    ensures
        dashboard::roi(initial, less).is_nan() || dashboard::roi(initial, more).is_nan()
            || dashboard::roi(initial, less).at_most(dashboard::roi(initial, more)),
        dashboard::roi(initial, initial).units() == 0,
{
    lemma2_to64();
    lemma2_to64_rest();
    lemma_pow2_pos(974);
    lemma_pow2_pos(1074);
    assert(0nat * pow2(0) == 0);
    error_laws::lemma_finite_below(initial, 1174);
    error_laws::lemma_finite_below(less, 1174);
    error_laws::lemma_finite_below(more, 1174);
    error_laws::lemma_minus_within(less, initial, 1174);
    error_laws::lemma_minus_within(more, initial, 1174);
    error_laws::lemma_minus_units(less, initial);
    error_laws::lemma_minus_units(more, initial);
    error_laws::lemma_rounded_monotone(
        less.units() - initial.units(),
        more.units() - initial.units(),
    );
    error_laws::lemma_over_monotone(less.minus(initial), more.minus(initial), initial);
    double_laws::small_naturals_are_exact(100);
    let a = less.minus(initial).over(initial);
    let b = more.minus(initial).over(initial);
    if !a.times(Double::of(100)).is_nan() && !b.times(Double::of(100)).is_nan() {
        box_laws::lemma_times_monotone(a, b, Double::of(100));
    }
    double_laws::nothing_is_left_of_itself(initial);
    crate::market_laws::lemma_nothing_shared(Double::zero(), initial);
    crate::market_laws::lemma_nothing_times(Double::zero().over(initial), Double::of(100));
}

/// A margin that the balance does not cover together with its fee is cut down so that margin and
/// fee, and five hundredths more of margin with its fee, are the balance.
pub proof fn cut_margins_use_up_the_balance(
    margin: Double,
    leverage: Double,
    fee_rate: Double,
    saldo: Double,
)
    requires
        moderate(saldo),
        saldo.units() >= pow2(1074),
        moderate(leverage.times(fee_rate)),
        leverage.times(fee_rate).units() <= pow2(1074),
        saldo.below(margin.plus(backtest::opening_cost(margin, leverage, fee_rate))),
    ensures
        ({
            let cut = backtest::margin_covered(margin, leverage, fee_rate, saldo).units();
            let one = pow2(1074) as int;
            let with_fee = one + leverage.times(fee_rate).units();
            near((20 * cut + one) * with_fee, 20 * saldo.units() * one, 40)
        }),
{
    let u = pow2(1074) as int;
    let x = leverage.times(fee_rate);
    let one = Double::of(1);
    let w = one.plus(x);
    let q = saldo.over(w);
    let r = Double::ratio_of(5, 100);
    let s = saldo.units();
    lemma2_to64();
    lemma2_to64_rest();
    lemma_pow2_pos(1074);
    lemma_pow2_strictly_increases(53, 1074);
    lemma_pow2_strictly_increases(974, 1074);
    lemma_pow2_adds(1, 1074);
    lemma_pow2_adds(1, 1075);
    double_laws::small_naturals_are_exact(1);
    error_laws::lemma_finite_below(x, 1174);
    error_laws::lemma_plus_within(one, x, 1074);
    error_laws::lemma_plus_error(one, x);
    let y = u + x.units();
    lemma_sum_near(w.units(), y);
    lemma_near_tight(w.units(), y, 50);
    lemma_pow2_strictly_increases(800, 974);
    lemma_pow2_adds(1, 1073);
    lemma_pow2_strictly_increases(900, 1073);
    lemma_pow2_strictly_increases(1076, 1400);
    lemma_pow2_strictly_increases(1174, 1400);
    error_laws::lemma_over_moderate(saldo, w);
    let z = q.units();
    error_laws::lemma_near_weaker(z * w.units(), s * u, 52, 50);
    assert(s * u >= u * u) by (nonlinear_arith)
        requires
            s >= u,
            u > 0,
    ;
    lemma_near_tight(z * w.units(), s * u, 50);
    assert(8 * z >= u) by {
        if 8 * z < u {
            assert(8 * (z * w.units()) <= u * (3 * u)) by (nonlinear_arith)
                requires
                    8 * z < u,
                    z >= 0,
                    0 <= w.units() <= 3 * u,
                    u > 0,
            ;
            assert(u * (3 * u) == 3 * (u * u)) by (nonlinear_arith);
            assert(u * u > 0) by (nonlinear_arith)
                requires
                    u > 0,
            ;
        }
    }
    // what is left for the cut margin
    error_laws::lemma_ratio_near(5, 100);
    lemma_near_tight(r.units() * 100, (5 * pow2(1074)) as int, 52);
    assert(z <= pow2(1176)) by {
        lemma_quotient_top(z, w.units(), s, u);
    }
    lemma_pow2_strictly_increases(1074, 1176);
    error_laws::lemma_finite_below(q, 1176);
    error_laws::lemma_finite_below(r, 1176);
    error_laws::lemma_minus_within(q, r, 1176);
    error_laws::lemma_minus_error(q, r);
    let cut = q.minus(r).units();
    lemma_cut(cut, z, r.units(), u);
    // back to the balance
    error_laws::lemma_near_scaled(20 * cut + u, 20 * z, y, 44);
    crate::market_laws::lemma_near_turned(w.units(), y, 50);
    error_laws::lemma_near_scaled(y, w.units(), 20 * z, 49);
    assert(y * (20 * z) == 20 * z * y) by (nonlinear_arith);
    assert(w.units() * (20 * z) == (z * w.units()) * 20) by (nonlinear_arith);
    error_laws::lemma_near_scaled(z * w.units(), s * u, 20, 50);
    error_laws::lemma_near_weaker((z * w.units()) * 20, (s * u) * 20, 50, 49);
    error_laws::lemma_near_chain(20 * z * y, (z * w.units()) * 20, (s * u) * 20, 49);
    error_laws::lemma_near_weaker(20 * z * y, (s * u) * 20, 47, 44);
    error_laws::lemma_near_chain((20 * cut + u) * y, 20 * z * y, (s * u) * 20, 44);
    assert((s * u) * 20 == 20 * s * u) by (nonlinear_arith);
    error_laws::lemma_near_weaker((20 * cut + u) * y, 20 * s * u, 42, 40);
}

proof fn lemma_quotient_top(z: int, w: int, s: int, u: int)
    requires
        u == pow2(1074),
        z >= 0,
        16 * w >= 15 * u,
        16 * (z * w) <= 17 * (s * u),
        s <= pow2(1174),
    ensures
        z <= pow2(1176),
{
    lemma_pow2_pos(1074);
    lemma_pow2_pos(1174);
    lemma_pow2_adds(2, 1174);
    lemma2_to64();
    assert(15 * (z * u) <= 17 * (s * u)) by (nonlinear_arith)
        requires
            z >= 0,
            16 * w >= 15 * u,
            16 * (z * w) <= 17 * (s * u),
    ;
    assert(15 * z <= 17 * s) by (nonlinear_arith)
        requires
            15 * (z * u) <= 17 * (s * u),
            u > 0,
    ;
}

proof fn lemma_sum_near(w: int, y: int)
    requires
        y >= pow2(1074),
        pow2(53) * distance(w, y) <= distance(y, 0) + pow2(52),
    ensures
        near(w, y, 50),
{
    let d = distance(w, y);
    lemma2_to64();
    lemma2_to64_rest();
    lemma_pow2_adds(3, 50);
    lemma_pow2_strictly_increases(52, 1074);
    assert(8 * (pow2(50) * d) == pow2(53) * d) by (nonlinear_arith)
        requires
            pow2(53) == 8 * pow2(50),
    ;
}

proof fn lemma_cut(cut: int, z: int, r: int, u: int)
    requires
        u == pow2(1074),
        8 * z >= u,
        near(r * 100, (5 * pow2(1074)) as int, 52),
        pow2(53) * distance(cut, z - r) <= distance(z - r, 0) + pow2(52),
        1600 * r <= 85 * u,
        r >= 0,
    ensures
        near(20 * cut + u, 20 * z, 44),
{
    let p = pow2(44) as int;
    let d = distance(cut, z - r);
    let e = distance(r * 100, 5 * u);
    lemma2_to64();
    lemma2_to64_rest();
    lemma_pow2_pos(1074);
    lemma_pow2_adds(9, 44);
    lemma_pow2_adds(8, 44);
    lemma_pow2_strictly_increases(52, 1074);
    assert(512 * (p * d) == pow2(53) * d) by (nonlinear_arith)
        requires
            pow2(53) == 512 * p,
    ;
    assert(256 * (p * e) == pow2(52) * e) by (nonlinear_arith)
        requires
            pow2(52) == 256 * p,
    ;
    assert(256 * (p * e) <= 5 * u);
    assert(512 * (p * d) <= z + r + pow2(52));
    let f = distance(20 * cut + u, 20 * z);
    assert(5 * f <= 100 * d + e);
    assert(5 * (p * f) <= 100 * (p * d) + p * e) by (nonlinear_arith)
        requires
            5 * f <= 100 * d + e,
            p >= 0,
    ;
}

} // verus!
