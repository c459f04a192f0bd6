//! What is written with a fixed count of decimals is read back.

use crate::bingx;
use crate::decimal;
use crate::decimal_reader;
use crate::double;
use crate::double::Double;
use crate::double_laws;
use crate::rounding;
use vstd::arithmetic::div_mod::*;
use vstd::arithmetic::mul::*;
use vstd::arithmetic::power::*;
use vstd::arithmetic::power2::*;
use vstd::prelude::*;

verus! {

proof fn lemma_digit(d: nat)
    requires
        d < 10,
    ensures
        decimal_reader::is_digit(decimal::digit(d)),
        decimal_reader::digit_value(decimal::digit(d)) == d,
{
}

/// Every character is a digit.
pub open spec fn digits_only(s: Seq<char>) -> bool {
    forall|i: int| 0 <= i < s.len() ==> decimal_reader::is_digit(#[trigger] s[i])
}

pub proof fn lemma_numeral_digits(n: nat)
    ensures
        decimal::numeral(n).len() > 0,
        digits_only(decimal::numeral(n)),
        decimal_reader::whole_number(decimal::numeral(n)) == n,
    decreases n,
{
    let s = decimal::numeral(n);
    lemma_digit(n % 10);
    if n < 10 {
        assert(s.drop_last() =~= Seq::empty());
        assert(decimal_reader::whole_number(s.drop_last()) == 0);
    } else {
        lemma_numeral_digits(n / 10);
        assert(s.drop_last() =~= decimal::numeral(n / 10));
    }
}

proof fn lemma_last_digits(lead: Seq<char>, n: nat, width: nat)
    ensures
        decimal::last_digits(n, width).len() == width,
        digits_only(decimal::last_digits(n, width)),
        pow(10, width) > 0,
        decimal_reader::whole_number(lead + decimal::last_digits(n, width))
            == decimal_reader::whole_number(lead) * pow(10, width) + n as int % pow(10, width),
    decreases width,
{
    lemma_pow_positive(10, width);
    let tail = decimal::last_digits(n, width);
    if width == 0 {
        lemma_pow0(10);
        assert(lead + tail =~= lead);
        assert(decimal_reader::whole_number(lead) * 1 == decimal_reader::whole_number(lead));
        assert(n as int % 1 == 0);
    } else {
        let w = (width - 1) as nat;
        lemma_last_digits(lead, n / 10, w);
        lemma_digit(n % 10);
        lemma_pow_positive(10, w);
        let head = decimal::last_digits(n / 10, w);
        assert((lead + tail).drop_last() =~= lead + head);
        assert((lead + tail).last() == decimal::digit(n % 10));
        let whole = decimal_reader::whole_number(lead);
        lemma_pow_adds(10, 1, w);
        lemma_pow1(10);
        lemma_mod_breakdown(n as int, 10, pow(10, w));
        let rest = (n as int / 10) % pow(10, w);
        assert(n as int % pow(10, width) == 10 * rest + n as int % 10);
        assert((whole * pow(10, w) + rest) * 10 + n as int % 10 == whole * (10 * pow(10, w)) + (10
            * rest + n as int % 10)) by (nonlinear_arith);
    }
}

proof fn lemma_run(s: Seq<char>, i: int, n: nat)
    requires
        0 <= i,
        i + n <= s.len(),
        forall|j: int| i <= j < i + n ==> decimal_reader::is_digit(#[trigger] s[j]),
        i + n == s.len() || !decimal_reader::is_digit(s[i + n]),
    ensures
        decimal_reader::digit_run(s, i) == n,
    decreases n,
{
    if n > 0 {
        assert(decimal_reader::is_digit(s[i]));
        lemma_run(s, i + 1, (n - 1) as nat);
    }
}

proof fn lemma_read_back(scaled: nat, places: nat)
    ensures
        ({
            let text = decimal::numeral(scaled / (pow(10, places) as nat)) + (if places == 0 {
                Seq::empty()
            } else {
                seq!['.'] + decimal::last_digits(scaled, places)
            });
            &&& text.len() > 0
            &&& decimal_reader::is_digit(text[0])
            &&& decimal_reader::read_unsigned(text) == Some((scaled, -(places as int)))
        }),
{
    lemma_pow_positive(10, places);
    let unit = pow(10, places) as nat;
    let q = scaled / unit;
    let head = decimal::numeral(q);
    lemma_numeral_digits(q);
    lemma_last_digits(head, scaled, places);
    lemma_fundamental_div_mod(scaled as int, unit as int);
    lemma_mul_is_commutative(q as int, unit as int);
    let tail = decimal::last_digits(scaled, places);
    if places == 0 {
        lemma_pow0(10);
        let text = head + Seq::<char>::empty();
        assert(text =~= head);
        lemma_run(text, 0, text.len());
        assert(text.subrange(0, text.len() as int) =~= head);
        assert(scaled / 1 == scaled);
    } else {
        let text = head + (seq!['.'] + tail);
        let a = head.len();
        assert(text[a as int] == '.');
        assert forall|j: int| 0 <= j < a implies decimal_reader::is_digit(#[trigger] text[j]) by {
            assert(text[j] == head[j]);
        }
        lemma_run(text, 0, a);
        assert forall|j: int| a + 1 <= j < text.len() implies decimal_reader::is_digit(
            #[trigger] text[j],
        ) by {
            assert(text[j] == tail[j - a - 1]);
        }
        lemma_run(text, a as int + 1, places);
        assert(text.subrange(0, a as int) + text.subrange(a as int + 1, a as int + 1 + places)
            =~= head + tail);
        assert(text[0] == head[0]);
    }
}

/// A number that is written with a fixed count of decimals is read back as the number nearest to
/// the decimals that were written; infinities and NaN are read back as themselves.
pub proof fn fixed_decimals_are_read_back(x: Double, places: nat)
    ensures
        decimal_reader::read_double(decimal::fixed(x, places)) == Some(
            if x.is_nan() {
                Double::nan()
            } else if x.is_infinite() {
                Double::infinity(x.negative())
            } else {
                Double::decimal(
                    x.negative(),
                    decimal::fixed_scaled(x, places),
                    -(places as int),
                )
            },
        ),
{
    reveal_strlit("NaN");
    reveal_strlit("inf");
    reveal_strlit("infinity");
    reveal_strlit("nan");
    let text = decimal::fixed(x, places);
    if x.is_nan() {
        assert(text.len() == 3 && text[0] == 'N' && text[1] == 'a' && text[2] == 'N');
        assert(decimal_reader::digit_run(text, 0) == 0);
        assert(decimal_reader::read_unsigned(text) is None);
        assert(decimal_reader::lower(text[0]) == 'n');
        assert(decimal_reader::spells(text, "nan"@));
        assert(!decimal_reader::spells(text, "inf"@)) by {
            assert(decimal_reader::lower(text[0]) != "inf"@[0]);
        }
    } else if x.is_infinite() {
        let body = if x.negative() {
            text.skip(1)
        } else {
            text
        };
        assert(body =~= "inf"@);
        assert(decimal_reader::digit_run(body, 0) == 0);
        assert(decimal_reader::read_unsigned(body) is None);
        assert(decimal_reader::spells(body, "inf"@));
    } else {
        let scaled = decimal::fixed_scaled(x, places);
        lemma_read_back(scaled, places);
        let body = decimal::numeral(scaled / (pow(10, places) as nat)) + (if places == 0 {
            Seq::empty()
        } else {
            seq!['.'] + decimal::last_digits(scaled, places)
        });
        if x.negative() {
            assert(text =~= seq!['-'] + body);
            assert(text.skip(1) =~= body);
        } else {
            assert(text =~= body);
            assert(body[0] != '-' && body[0] != '+');
        }
    }
}

proof fn lemma_zero_pattern(den: nat)
    requires
        den > 0,
    ensures
        rounding::nearest_pattern(0, den) == 0,
{
    lemma_pow2_pos(53);
    assert(0 < den * pow2(53)) by (nonlinear_arith)
        requires
            den > 0,
            pow2(53) > 0,
    ;
    assert(rounding::fit(0, den) == 0);
    lemma2_to64();
    assert(den * pow2(0) == den);
    lemma_div_basics(den as int);
    assert(0nat / den == 0 && 0nat % den == 0);
}

proof fn lemma_positive_pattern(num: nat, den: nat)
    requires
        den > 0,
        num >= den,
    ensures
        rounding::nearest_pattern(num, den) > 0,
{
    let x = rounding::fit(num, den);
    if x == 0 {
        lemma2_to64();
        assert(den * pow2(0) == den);
        lemma_div_non_zero(num as int, den as int);
    } else {
        assert(x * 0x10_0000_0000_0000 > 0);
    }
}

/// An order is refused for its quantity exactly where the quantity, written with four decimals, is
/// zero or has a minus sign.
pub proof fn only_what_rounds_to_nothing_is_too_small(quantity: Double)
    ensures
        bingx::too_small(quantity) == (!quantity.is_nan() && (quantity.negative() || (
        !quantity.is_infinite() && decimal::fixed_scaled(quantity, 4) == 0))),
{
    fixed_decimals_are_read_back(quantity, 4);
    let zero = Double::zero();
    assert(zero.units() == 0) by {
        assert(0nat * pow2(0) == 0);
    }
    if quantity.is_nan() {
        assert(Double::nan().is_nan());
    } else if quantity.is_infinite() {
        let x = Double::infinity(quantity.negative());
        assert(x.pattern() == rounding::INFINITE);
        assert(x.negative() == quantity.negative());
        double::lemma_pattern_order(0, x.pattern());
        assert(double::pattern_magnitude(0) == 0) by {
            assert(0nat * pow2(0) == 0);
        }
    } else {
        let scaled = decimal::fixed_scaled(quantity, 4);
        let x = Double::decimal(quantity.negative(), scaled, -4);
        lemma_pow_positive(10, 4);
        let unit = pow(10, 4) as nat;
        assert(unit == 10000) by {
            reveal_with_fuel(pow, 5);
        }
        let num = scaled * pow2(1074);
        double_laws::lemma_nearest_sign(quantity.negative(), num, unit);
        assert(double::pattern_magnitude(0) == 0) by {
            assert(0nat * pow2(0) == 0);
        }
        if scaled == 0 {
            assert(num == 0) by (nonlinear_arith)
                requires
                    num == scaled * pow2(1074),
                    scaled == 0,
            ;
            lemma_zero_pattern(unit);
        } else {
            lemma2_to64();
            lemma_pow2_strictly_increases(64, 1074);
            assert(num >= unit) by (nonlinear_arith)
                requires
                    num == scaled * pow2(1074),
                    scaled >= 1,
                    pow2(1074) >= unit,
            ;
            lemma_positive_pattern(num, unit);
            double::lemma_pattern_order(0, x.pattern());
        }
    }
}

} // verus!
