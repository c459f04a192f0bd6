//! What a run leaves behind, and how two runs are told apart.

use crate::dashboard;
use crate::double::Double;
use crate::error_laws;
use crate::menu;
use crate::metrics::CurvePoint;
use crate::positions;
use crate::simulation;
use crate::simulation::BacktestSummary;
use crate::types::{BoxType, Position, PositionType};
use vstd::arithmetic::power2::*;
use vstd::prelude::*;

verus! {

proof fn lemma_actions_prefix(a: Seq<CurvePoint>, b: Seq<CurvePoint>, n: nat)
    requires
        n <= a.len(),
        n <= b.len(),
        forall|k: int| 0 <= k < n ==> #[trigger] a[k] == b[k],
    ensures
        simulation::action_sequence(a, n) == simulation::action_sequence(b, n),
    decreases n,
{
    if n > 0 {
        lemma_actions_prefix(a, b, (n - 1) as nat);
        assert(a[n - 1] == b[n - 1]);
    }
}

/// A further point of a curve puts its actions and a bar behind the actions of the run, and nothing
/// where it has none.
pub proof fn actions_are_appended(curve: Seq<CurvePoint>, point: CurvePoint)
    ensures
        ({
            let before = simulation::action_sequence(curve, curve.len());
            let after = simulation::action_sequence(curve.push(point), curve.len() + 1);
            &&& point.actions@.len() == 0 ==> after == before
            &&& point.actions@.len() > 0 ==> after == before + point.actions@ + seq!['|']
        }),
{
    lemma_actions_prefix(curve, curve.push(point), curve.len());
    let before = simulation::action_sequence(curve, curve.len());
    if point.actions@.len() > 0 {
        assert((before + point.actions@).push('|') =~= before + point.actions@ + seq!['|']);
    }
}

/// The actions of every point are in the actions of the run.
pub proof fn every_action_is_in_the_sequence(curve: Seq<CurvePoint>, k: int, n: nat)
    requires
        0 <= k < n <= curve.len(),
    ensures
        exists|before: Seq<char>, behind: Seq<char>|
            simulation::action_sequence(curve, n) == #[trigger] (before + curve[k].actions@
                + behind),
    decreases n,
{
    let rest = simulation::action_sequence(curve, (n - 1) as nat);
    let actions = curve[n - 1].actions@;
    let none = Seq::<char>::empty();
    let whole = simulation::action_sequence(curve, n);
    if k == n - 1 {
        if actions.len() == 0 {
            assert(whole =~= rest + actions + none);
        } else {
            assert(whole =~= rest + actions + seq!['|']);
        }
    } else {
        every_action_is_in_the_sequence(curve, k, (n - 1) as nat);
        let (before, behind) = choose|before: Seq<char>, behind: Seq<char>|
            rest == #[trigger] (before + curve[k].actions@ + behind);
        if actions.len() == 0 {
            assert(whole == before + curve[k].actions@ + behind);
        } else {
            assert(whole =~= before + curve[k].actions@ + (behind + actions + seq!['|']));
        }
    }
}

/// Two runs are told apart by their balances where these are more than a thousandth apart, and by
/// their actions where these are not the same; it does not matter which of them is the first.
pub proof fn runs_are_told_apart(first: BacktestSummary, other: BacktestSummary)
    requires
        error_laws::within(first.final_equity, 1174),
        error_laws::within(other.final_equity, 1174),
    ensures
        ({
            let apart = error_laws::distance(
                first.final_equity.units(),
                other.final_equity.units(),
            );
            &&& 2000 * apart <= pow2(1074) ==> !menu::difference(first, other).equity
            &&& 500 * apart >= pow2(1074) ==> menu::difference(first, other).equity
            &&& menu::difference(first, other).equity == menu::difference(other, first).equity
            &&& menu::difference(first, other).actions <==> first.actions_sequence@
                != other.actions_sequence@
        }),
{
    let a = first.final_equity;
    let b = other.final_equity;
    let limit = Double::ratio_of(1, 1000);
    let u = pow2(1074) as int;
    let apart = error_laws::distance(a.units(), b.units());
    lemma2_to64();
    lemma2_to64_rest();
    lemma_pow2_pos(1074);
    error_laws::lemma_finite_below(a, 1174);
    error_laws::lemma_finite_below(b, 1174);
    error_laws::lemma_minus_within(a, b, 1174);
    error_laws::lemma_minus_within(b, a, 1174);
    error_laws::lemma_minus_error(a, b);
    error_laws::lemma_minus_error(b, a);
    error_laws::lemma_minus_units(a, b);
    error_laws::lemma_minus_units(b, a);
    let d = a.minus(b);
    let e = b.minus(a);
    assert(d.units() == -e.units());
    assert(d.absolute().pattern() == d.pattern());
    assert(e.absolute().pattern() == e.pattern());
    error_laws::lemma_ratio_near(1, 1000);
    let l = limit.units();
    let p = pow2(52) as int;
    let g = error_laws::distance(l * 1000, 1 * u);
    assert(p * g <= u);
    lemma_pow2_adds(1, 52);
    lemma_pow2_strictly_increases(60, 1074);
    let h = error_laws::distance(d.units(), a.units() - b.units());
    assert(1000000 * g <= p * g) by (nonlinear_arith)
        requires
            p >= 1000000,
            g >= 0,
    ;
    assert(pow2(53) * h >= 1000000 * h) by (nonlinear_arith)
        requires
            pow2(53) >= 1000000,
            h >= 0,
    ;
    assert(pow2(53) * h <= apart + p);
    assert(1000000 * h <= apart + p);
}

/// A stop loss is moved to where it is asked for: always in the long-term box, and in the short-term
/// box wherever it is not too far from the entry on the losing side.
pub proof fn stops_are_moved_where_asked(pos: Position, stop: Double)
    requires
        !stop.is_nan(),
    ensures
        pos.box_type == BoxType::LT ==> pos.stop_for(stop) == stop,
        pos.position_type == PositionType::Long && positions::lowest_stop(pos.entry_price).at_most(
            stop,
        ) ==> pos.stop_for(stop) == stop,
        pos.position_type == PositionType::Short && stop.at_most(
            positions::highest_stop(pos.entry_price),
        ) ==> pos.stop_for(stop) == stop,
{
}

/// A curve is summed up by the balance of its first point and that of its last.
pub proof fn curves_begin_and_end_with_their_balances(
    first: CurvePoint,
    between: Seq<CurvePoint>,
    last: CurvePoint,
)
    ensures
        dashboard::balances(seq![first] + between + seq![last]) == (first.equity, last.equity),
{
    let curve = seq![first] + between + seq![last];
    assert(curve.last() == last);
    assert(curve[0] == first);
}

} // verus!
