//! What the answers at the console mean.

use crate::decimal;
use crate::decimal_laws;
use crate::decimal_reader;
use crate::decimal_reader::parse_double;
use crate::double::Double;
use crate::double_laws;
use crate::simulation::BacktestSummary;
use crate::text;
use crate::text::{chars_of, lowercase, replace_char, same_text, text_between, trim};
use crate::types::PositionType;
use vstd::arithmetic::power2::*;
use vstd::prelude::*;
use vstd::string::*;

verus! {

/// The choices of the main menu.
#[derive(Debug, Clone, Copy, PartialEq, Eq, Structural)]
pub enum MainChoice {
    UpdateDb,
    Backtest,
    BacktestVerbose,
    BacktestDynamic,
    ConfigureModel,
    LiveTrading,
    Quit,
    DeterminismTest,
    Unknown,
}

/// The meaning of an answer in the main menu.
pub open spec fn main_choice(answer: Seq<char>) -> MainChoice {
    let s = text::trimmed(answer);
    if s == "1"@ {
        MainChoice::UpdateDb
    } else if s == "2"@ {
        MainChoice::Backtest
    } else if s == "3"@ {
        MainChoice::BacktestVerbose
    } else if s == "4"@ {
        MainChoice::BacktestDynamic
    } else if s == "5"@ {
        MainChoice::ConfigureModel
    } else if s == "6"@ {
        MainChoice::LiveTrading
    } else if s == "7"@ {
        MainChoice::Quit
    } else if s == "8"@ {
        MainChoice::DeterminismTest
    } else {
        MainChoice::Unknown
    }
}

/// The meaning of an answer in the main menu.
pub fn read_main_choice(answer: &str) -> (r: MainChoice)
    ensures
        r == main_choice(answer@),
{
    let s = trim(answer);
    let s = s.as_str();
    if same_text(s, "1") {
        MainChoice::UpdateDb
    } else if same_text(s, "2") {
        MainChoice::Backtest
    } else if same_text(s, "3") {
        MainChoice::BacktestVerbose
    } else if same_text(s, "4") {
        MainChoice::BacktestDynamic
    } else if same_text(s, "5") {
        MainChoice::ConfigureModel
    } else if same_text(s, "6") {
        MainChoice::LiveTrading
    } else if same_text(s, "7") {
        MainChoice::Quit
    } else if same_text(s, "8") {
        MainChoice::DeterminismTest
    } else {
        MainChoice::Unknown
    }
}

/// The choices of the menu for live trading.
#[derive(Debug, Clone, Copy, PartialEq, Eq, Structural)]
pub enum LiveChoice {
    Configure,
    DeleteCredentials,
    TestApi,
    ManualOrders,
    Automatic,
    Back,
    Unknown,
}

/// The meaning of an answer in the menu for live trading.
pub open spec fn live_choice(answer: Seq<char>) -> LiveChoice {
    let s = text::trimmed(answer);
    if s == "1"@ {
        LiveChoice::Configure
    } else if s == "2"@ {
        LiveChoice::DeleteCredentials
    } else if s == "3"@ {
        LiveChoice::TestApi
    } else if s == "4"@ {
        LiveChoice::ManualOrders
    } else if s == "5"@ {
        LiveChoice::Automatic
    } else if s == "6"@ {
        LiveChoice::Back
    } else {
        LiveChoice::Unknown
    }
}

/// The meaning of an answer in the menu for live trading.
pub fn read_live_choice(answer: &str) -> (r: LiveChoice)
    ensures
        r == live_choice(answer@),
{
    let s = trim(answer);
    let s = s.as_str();
    if same_text(s, "1") {
        LiveChoice::Configure
    } else if same_text(s, "2") {
        LiveChoice::DeleteCredentials
    } else if same_text(s, "3") {
        LiveChoice::TestApi
    } else if same_text(s, "4") {
        LiveChoice::ManualOrders
    } else if same_text(s, "5") {
        LiveChoice::Automatic
    } else if same_text(s, "6") {
        LiveChoice::Back
    } else {
        LiveChoice::Unknown
    }
}

/// The choices of the menu for manual orders.
#[derive(Debug, Clone, Copy, PartialEq, Eq, Structural)]
pub enum OrderChoice {
    Open,
    Close,
    Back,
}

/// The meaning of an answer in the menu for manual orders.
pub fn read_order_choice(answer: &str) -> (r: OrderChoice)
    ensures
        r == (if text::trimmed(answer@) == "1"@ {
            OrderChoice::Open
        } else if text::trimmed(answer@) == "2"@ {
            OrderChoice::Close
        } else {
            OrderChoice::Back
        }),
{
    let s = trim(answer);
    if same_text(s.as_str(), "1") {
        OrderChoice::Open
    } else if same_text(s.as_str(), "2") {
        OrderChoice::Close
    } else {
        OrderChoice::Back
    }
}

/// The timeframe that an answer chooses: four hours, a day, or else one hour.
pub open spec fn timeframe(answer: Seq<char>) -> Seq<char> {
    let s = text::trimmed(answer);
    if s == "2"@ {
        "4h"@
    } else if s == "3"@ {
        "1d"@
    } else {
        "1h"@
    }
}

/// The timeframe that an answer chooses.
pub fn chosen_timeframe(answer: &str) -> (r: &'static str)
    ensures
        r@ == timeframe(answer@),
{
    let s = trim(answer);
    if same_text(s.as_str(), "2") {
        "4h"
    } else if same_text(s.as_str(), "3") {
        "1d"
    } else {
        "1h"
    }
}

/// The timeframes to download that an answer chooses: all three for "4", else one.
pub fn chosen_timeframes(answer: &str) -> (r: Vec<&'static str>)
    ensures
        text::trimmed(answer@) == "4"@ ==> r@.len() == 3 && r@[0]@ == "1h"@ && r@[1]@ == "4h"@
            && r@[2]@ == "1d"@,
        text::trimmed(answer@) != "4"@ ==> r@.len() == 1 && r@[0]@ == timeframe(answer@),
{
    let mut out: Vec<&'static str> = Vec::new();
    let s = trim(answer);
    if same_text(s.as_str(), "4") {
        out.push("1h");
        out.push("4h");
        out.push("1d");
    } else {
        out.push(chosen_timeframe(answer));
    }
    out
}

/// The words that agree to a clean download, in small letters.
pub open spec fn agreement(s: Seq<char>) -> bool {
    s == "s"@ || s == "si"@ || s == "sí"@
}

/// Whether a word in small letters agrees to a clean download.
pub fn is_agreement(s: &str) -> (r: bool)
    ensures
        r == agreement(s@),
{
    same_text(s, "s") || same_text(s, "si") || same_text(s, "sí")
}

/// Whether an answer agrees to a clean download.
pub fn agrees(answer: &str) -> (r: bool)
    ensures
        r == agreement(text::lowercase_of(text::trimmed(answer@))),
{
    let s = trim(answer);
    let small = lowercase(s.as_str());
    is_agreement(small.as_str())
}

/// The words that confirm a setting of live trading, in small letters.
pub open spec fn confirmation(s: Seq<char>) -> bool {
    s == "s"@ || s == "si"@ || s == "y"@ || s == "yes"@
}

/// Whether a word in small letters confirms a setting of live trading.
pub fn is_confirmation(s: &str) -> (r: bool)
    ensures
        r == confirmation(s@),
{
    same_text(s, "s") || same_text(s, "si") || same_text(s, "y") || same_text(s, "yes")
}

/// Whether an answer confirms a setting of live trading.
pub fn confirms(answer: &str) -> (r: bool)
    ensures
        r == confirmation(text::lowercase_of(text::trimmed(answer@))),
{
    let s = trim(answer);
    let small = lowercase(s.as_str());
    is_confirmation(small.as_str())
}

/// The number that an answer holds, if it holds one.
pub open spec fn number(answer: Seq<char>) -> Option<Double> {
    decimal_reader::read_double(text::trimmed(answer))
}

fn number_of(answer: &str) -> (r: Option<Double>)
    ensures
        r == number(answer@),
{
    let s = trim(answer);
    parse_double(s.as_str())
}

/// The leverage of a simulation: a number above zero, else ten.
pub fn chosen_leverage(answer: &str) -> (r: Double)
    ensures
        r == (match number(answer@) {
            Some(x) => if Double::zero().below(x) {
                x
            } else {
                Double::of(10)
            },
            None => Double::of(10),
        }),
{
    let zero = Double { bits: 0 };
    match number_of(answer) {
        Some(x) => if zero.lt(x) {
            x
        } else {
            Double::from_u64(10)
        },
        None => Double::from_u64(10),
    }
}

/// The share of the capital that is risked, in percent: above zero and up to a hundred, else a
/// hundred.
pub fn chosen_risk(answer: &str) -> (r: Double)
    ensures
        r == (match number(answer@) {
            Some(x) => if Double::zero().below(x) && x.at_most(Double::of(100)) {
                x
            } else {
                Double::of(100)
            },
            None => Double::of(100),
        }),
{
    let zero = Double { bits: 0 };
    let hundred = Double::from_u64(100);
    match number_of(answer) {
        Some(x) => if zero.lt(x) && x.le(hundred) {
            x
        } else {
            hundred
        },
        None => hundred,
    }
}

/// The margin of a manual order: a number, else ten.
pub fn chosen_margin(answer: &str) -> (r: Double)
    ensures
        r == (match number(answer@) {
            Some(x) => x,
            None => Double::of(10),
        }),
{
    match number_of(answer) {
        Some(x) => x,
        None => Double::from_u64(10),
    }
}

/// A numeral without its plus sign.
pub open spec fn unsigned(s: Seq<char>) -> Seq<char> {
    if s.len() > 0 && s[0] == '+' {
        s.skip(1)
    } else {
        s
    }
}

pub open spec fn all_digits(s: Seq<char>) -> bool {
    forall|i: int| 0 <= i < s.len() ==> #[trigger] decimal_reader::is_digit(s[i])
}

/// The natural number that digits spell, with or without a plus sign, up to a limit.
pub open spec fn natural(s: Seq<char>, limit: nat) -> Option<nat> {
    let body = unsigned(s);
    if body.len() > 0 && all_digits(body) && decimal_reader::whole_number(body) <= limit {
        Some(decimal_reader::whole_number(body))
    } else {
        None
    }
}

proof fn lemma_whole_number_grows(s: Seq<char>, k: int)
    requires
        0 <= k <= s.len(),
    ensures
        decimal_reader::whole_number(s.take(k)) <= decimal_reader::whole_number(s),
    decreases s.len() - k,
{
    if k < s.len() {
        lemma_whole_number_grows(s, k + 1);
        assert(s.take(k + 1).drop_last() =~= s.take(k));
    } else {
        assert(s.take(k) =~= s);
    }
}

/// The natural number that digits spell, up to a limit.
pub fn parse_natural(text: &str, limit: u64) -> (r: Option<u64>)
    ensures
        match r {
            Some(n) => natural(text@, limit as nat) == Some(n as nat),
            None => natural(text@, limit as nat) is None,
        },
{
    let s = chars_of(text);
    let from: usize = if s.len() > 0 && s[0] == '+' {
        1
    } else {
        0
    };
    let ghost body = s@.skip(from as int);
    proof {
        if from == 0 {
            assert(body =~= s@);
        }
    }
    if s.len() == from {
        return None;
    }
    let mut n: u128 = 0;
    let mut i: usize = from;
    assert(body.take(0) =~= Seq::empty());
    while i < s.len()
        invariant
            from <= i <= s@.len(),
            s@ == text@,
            body == s@.skip(from as int),
            body.len() > 0,
            body == unsigned(text@),
            n == decimal_reader::whole_number(body.take(i - from)),
            n <= limit,
            forall|k: int| 0 <= k < i - from ==> #[trigger] decimal_reader::is_digit(body[k]),
        decreases s@.len() - i,
    {
        let c = s[i];
        assert(body[i - from] == c);
        if !('0' <= c && c <= '9') {
            assert(!decimal_reader::is_digit(body[i - from]));
            assert(!all_digits(body));
            return None;
        }
        proof {
            let next = body.take(i - from + 1);
            assert(next.drop_last() =~= body.take(i - from));
            assert(next.last() == c);
            lemma_whole_number_grows(body, i - from + 1);
        }
        n = n * 10 + ((c as u32) - 48) as u128;
        if n > limit as u128 {
            return None;
        }
        i = i + 1;
    }
    assert(body.take(body.len() as int) =~= body);
    Some(n as u64)
}

/// The count that an answer holds, if it holds one.
pub open spec fn count(answer: Seq<char>) -> Option<nat> {
    natural(text::trimmed(answer), usize::MAX as nat)
}

fn count_of(answer: &str) -> (r: Option<usize>)
    ensures
        match r {
            Some(n) => count(answer@) == Some(n as nat),
            None => count(answer@) is None,
        },
{
    let s = trim(answer);
    match parse_natural(s.as_str(), usize::MAX as u64) {
        Some(n) => Some(n as usize),
        None => None,
    }
}

/// How many candles a simulation takes: a count above zero, else all of them.
pub fn chosen_limit(answer: &str) -> (r: Option<usize>)
    ensures
        match r {
            Some(n) => n > 0 && count(answer@) == Some(n as nat),
            None => count(answer@) is None || count(answer@) == Some(0nat),
        },
{
    match count_of(answer) {
        Some(n) => if n > 0 {
            Some(n)
        } else {
            None
        },
        None => None,
    }
}

/// How many candles the test of determinism takes: a count above zero, all of them for zero, else
/// fifty.
pub fn chosen_test_limit(answer: &str) -> (r: Option<usize>)
    ensures
        match r {
            Some(n) => (count(answer@) == Some(n as nat) && n > 0) || (count(answer@) is None && n
                == 50),
            None => count(answer@) == Some(0nat),
        },
{
    match count_of(answer) {
        Some(n) => if n > 0 {
            Some(n)
        } else {
            None
        },
        None => Some(50),
    }
}

/// An answer, or what stands where it is left empty.
pub fn answer_or(answer: &str, other: &str) -> (r: String)
    ensures
        r@ == (if text::trimmed(answer@).len() == 0 {
            other@
        } else {
            text::trimmed(answer@)
        }),
{
    let s = trim(answer);
    if chars_of(s.as_str()).len() == 0 {
        other.to_owned()
    } else {
        s
    }
}

/// The day on which trading starts: the answer, or 2020-04-20 where it is left empty.
pub fn chosen_start(answer: &str) -> (r: String)
    ensures
        r@ == (if text::trimmed(answer@).len() == 0 {
            "2020-04-20"@
        } else {
            text::trimmed(answer@)
        }),
{
    answer_or(answer, "2020-04-20")
}

/// The leverage at the exchange: a natural number, else `other`.
pub fn chosen_whole_leverage(answer: &str, other: u32) -> (r: u32)
    ensures
        match natural(text::trimmed(answer@), u32::MAX as nat) {
            Some(n) => r == n,
            None => r == other,
        },
{
    let s = trim(answer);
    match parse_natural(s.as_str(), u32::MAX as u64) {
        Some(n) => n as u32,
        None => other,
    }
}

/// Whether credentials are complete.
pub fn complete_credentials(api_key: &str, api_secret: &str) -> (r: bool)
    ensures
        r == (api_key@.len() > 0 && api_secret@.len() > 0),
{
    chars_of(api_key).len() > 0 && chars_of(api_secret).len() > 0
}

/// The direction of a manual order.
pub fn chosen_direction(answer: &str) -> (r: PositionType)
    ensures
        r == (if text::trimmed(answer@) == "2"@ {
            PositionType::Short
        } else {
            PositionType::Long
        }),
{
    let s = trim(answer);
    if same_text(s.as_str(), "2") {
        PositionType::Short
    } else {
        PositionType::Long
    }
}

/// The place in a list, counted from zero, that an answer chooses, counted from one; the first
/// where it is no count; none where the list has no such place.
pub fn chosen_place(answer: &str, length: usize) -> (r: Option<usize>)
    ensures
        ({
            let n = match count(answer@) {
                Some(n) => n,
                None => 1nat,
            };
            match r {
                Some(k) => n == k + 1 && k < length,
                None => n == 0 || n > length,
            }
        }),
{
    let n: usize = match count_of(answer) {
        Some(n) => n,
        None => 1,
    };
    if n > 0 && n <= length {
        Some(n - 1)
    } else {
        None
    }
}

/// How two runs of a simulation differ.
#[derive(Debug, Clone, Copy, PartialEq, Eq, Structural)]
pub struct Difference {
    /// The final equities lie more than a thousandth apart.
    pub equity: bool,
    /// The actions are not the same.
    pub actions: bool,
}

/// How two runs of a simulation differ.
pub open spec fn difference(first: BacktestSummary, other: BacktestSummary) -> Difference {
    Difference {
        equity: Double::ratio_of(1, 1000).below(
            first.final_equity.minus(other.final_equity).absolute(),
        ),
        actions: first.actions_sequence@ != other.actions_sequence@,
    }
}

/// How two runs of a simulation differ.
pub fn compare_runs(first: &BacktestSummary, other: &BacktestSummary) -> (r: Difference)
    ensures
        r == difference(*first, *other),
{
    Difference {
        equity: Double::ratio(1, 1000).lt(first.final_equity.sub(other.final_equity).abs()),
        actions: !same_text(first.actions_sequence.as_str(), other.actions_sequence.as_str()),
    }
}

/// Whether all runs agree with the first.
pub fn is_deterministic(runs: &Vec<BacktestSummary>) -> (r: bool)
    ensures
        r == (forall|k: int|
            1 <= k < runs@.len() ==> difference(runs@[0], #[trigger] runs@[k]) == (Difference {
                equity: false,
                actions: false,
            })),
{
    let mut k: usize = 1;
    while k < runs.len()
        invariant
            1 <= k,
            forall|j: int|
                1 <= j < k && j < runs@.len() ==> difference(runs@[0], #[trigger] runs@[j]) == (
                Difference { equity: false, actions: false }),
        decreases runs@.len() - k,
    {
        let d = compare_runs(&runs[0], &runs[k]);
        if d.equity || d.actions {
            assert(difference(runs@[0], runs@[k as int]) == d);
            return false;
        }
        k = k + 1;
    }
    true
}

/// The actions of a run in short: the first fifteen characters, on one line.
pub open spec fn shortened(actions: Seq<char>) -> Seq<char> {
    if actions.len() == 0 {
        "N/A"@
    } else {
        let cut = if actions.len() > 15 {
            actions.take(15) + "..."@
        } else {
            actions
        };
        let line = text::replaced(cut, '\n', " "@, cut.len());
        text::replaced(line, '|', ", "@, line.len())
    }
}

/// The actions of a run in short.
pub fn short_actions(actions: &str) -> (r: String)
    ensures
        r@ == shortened(actions@),
{
    let chars = chars_of(actions);
    if chars.len() == 0 {
        return "N/A".to_owned();
    }
    let cut = if chars.len() > 15 {
        let mut head = text_between(&chars, 0, 15);
        assert(chars@.subrange(0, 15) =~= chars@.take(15));
        head.append("...");
        head
    } else {
        actions.to_owned()
    };
    let line = replace_char(cut.as_str(), '\n', " ");
    replace_char(line.as_str(), '|', ", ")
}

/// A run agrees with itself, whatever it came to.
pub proof fn a_run_agrees_with_itself(run: BacktestSummary)
    ensures
        difference(run, run) == (Difference { equity: false, actions: false }),
{
    double_laws::nothing_is_left_of_itself(run.final_equity);
    let gap = run.final_equity.minus(run.final_equity).absolute();
    assert(Double::zero().absolute() == Double::zero());
    assert(Double::zero().units() == 0) by {
        assert(0nat * pow2(0) == 0);
    }
    double_laws::ratios_of_positives_are_not_negative(1, 1000);
}

/// A natural number is read back from its numeral, and not read where it exceeds the limit.
pub proof fn numerals_are_read_back(n: nat, limit: nat)
    ensures
        natural(decimal::numeral(n), limit) == (if n <= limit {
            Some(n)
        } else {
            None
        }),
{
    decimal_laws::lemma_numeral_digits(n);
    let s = decimal::numeral(n);
    assert(decimal_reader::is_digit(s[0]));
    assert(unsigned(s) == s);
    assert forall|i: int| 0 <= i < s.len() implies #[trigger] decimal_reader::is_digit(s[i]) by {
        assert(decimal_reader::is_digit(s[i]));
    }
}

} // verus!
