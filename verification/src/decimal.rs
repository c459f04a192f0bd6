//! Decimal text of integers and of binary64 numbers.

use crate::double::{power, Double, SIGN};
use crate::rounding;
use vstd::arithmetic::div_mod::*;
use vstd::arithmetic::mul::*;
use vstd::arithmetic::power::*;
use vstd::arithmetic::power2::*;
use vstd::prelude::*;
use vstd::string::*;

verus! {

/// `String::push` appends one character.
pub assume_specification[ String::push ](s: &mut String, c: char)
    ensures
        final(s)@ == old(s)@.push(c),
;

/// The character of a decimal digit.
pub open spec fn digit(d: nat) -> char {
    ((48 + d) as u8) as char
}

/// The decimal numeral of `n`, without leading zeros.
pub open spec fn numeral(n: nat) -> Seq<char>
    decreases n,
{
    if n < 10 {
        seq![digit(n)]
    } else {
        numeral(n / 10).push(digit(n % 10))
    }
}

/// The last `width` decimal digits of `n`.
pub open spec fn last_digits(n: nat, width: nat) -> Seq<char>
    decreases width,
{
    if width == 0 {
        Seq::empty()
    } else {
        last_digits(n / 10, (width - 1) as nat).push(digit(n % 10))
    }
}

/// The decimal numeral of an integer with its minus sign.
pub open spec fn signed_numeral(n: int) -> Seq<char> {
    if n < 0 {
        seq!['-'] + numeral((-n) as nat)
    } else {
        numeral(n as nat)
    }
}

fn digit_char(d: u8) -> (c: char)
    requires
        d < 10,
    ensures
        c == digit(d as nat),
{
    (48 + d) as char
}

/// The decimal numeral of `n`.
pub fn numeral_text(n: u128) -> (r: String)
    ensures
        r@ == numeral(n as nat),
    decreases n,
{
    if n < 10 {
        let mut s = String::new();
        s.push(digit_char(n as u8));
        assert(s@ =~= seq![digit(n as nat)]);
        s
    } else {
        let mut s = numeral_text(n / 10);
        s.push(digit_char((n % 10) as u8));
        s
    }
}

/// The decimal text of a signed integer.
pub fn integer_text(n: i128) -> (r: String)
    ensures
        r@ == signed_numeral(n as int),
{
    if n < 0 {
        let mut s = String::new();
        s.push('-');
        let m = numeral_text((-(n + 1)) as u128 + 1);
        s.append(m.as_str());
        assert(s@ =~= seq!['-'] + numeral((-n) as nat));
        s
    } else {
        numeral_text(n as u128)
    }
}

/// The decimal text of a number with a fixed count of decimals, rounded to the nearest, halfway
/// cases to the even digit.
pub open spec fn fixed(x: Double, places: nat) -> Seq<char> {
    let sign = if x.negative() {
        seq!['-']
    } else {
        Seq::empty()
    };
    if x.is_nan() {
        "NaN"@
    } else if x.is_infinite() {
        sign + "inf"@
    } else {
        let scaled = fixed_scaled(x, places);
        sign + numeral(scaled / (pow(10, places) as nat)) + (if places == 0 {
            Seq::empty()
        } else {
            seq!['.'] + last_digits(scaled, places)
        })
    }
}

/// The absolute value times `10^places`, rounded to an integer.
pub open spec fn fixed_scaled(x: Double, places: nat) -> nat {
    rounding::round_half_even(x.magnitude() * (pow(10, places) as nat), pow2(1074))
}

/// The same text with a plus sign in front of what has no minus sign.
pub open spec fn fixed_signed(x: Double, places: nat) -> Seq<char> {
    if x.is_nan() || x.negative() {
        fixed(x, places)
    } else {
        seq!['+'] + fixed(x, places)
    }
}

/// The number that decimal digits stand for, the lowest digit first.
pub open spec fn value(ds: Seq<u8>) -> nat
    decreases ds.len(),
{
    if ds.len() == 0 {
        0
    } else {
        value(ds.drop_last()) + ds.last() as nat * pow(10, (ds.len() - 1) as nat) as nat
    }
}

pub open spec fn are_digits(ds: Seq<u8>) -> bool {
    forall|i: int| 0 <= i < ds.len() ==> #[trigger] ds[i] < 10
}

pub proof fn lemma_ten(e: nat)
    ensures
        pow(10, e) > 0,
        pow(10, e + 1) == 10 * pow(10, e),
{
    lemma_pow_positive(10, e);
    lemma_pow_adds(10, 1, e);
    lemma_pow1(10);
}

pub proof fn lemma_value_push(ds: Seq<u8>, d: u8)
    ensures
        value(ds.push(d)) == value(ds) + d as nat * pow(10, ds.len()) as nat,
{
    assert(ds.push(d).drop_last() =~= ds);
}

pub proof fn lemma_value_low(ds: Seq<u8>)
    requires
        ds.len() > 0,
    ensures
        value(ds) == ds[0] as nat + 10 * value(ds.drop_first()),
    decreases ds.len(),
{
    reveal(pow);
    if ds.len() == 1 {
        assert(ds.drop_last() =~= Seq::empty());
        assert(ds.drop_first() =~= Seq::empty());
        assert(pow(10, 0) == 1);
        assert(value(ds.drop_last()) == 0);
        assert(ds.last() as nat * 1 == ds[0] as nat);
    } else {
        let body = ds.drop_last();
        lemma_value_low(body);
        assert(ds.drop_first().drop_last() =~= body.drop_first());
        let n = ds.len();
        lemma_ten((n - 2) as nat);
        let d = ds.last() as nat;
        let p = pow(10, (n - 2) as nat);
        assert(d * (10 * p) == 10 * (d * p)) by (nonlinear_arith);
        assert(value(ds.drop_first()) == value(body.drop_first()) + d * (p as nat));
    }
}

proof fn lemma_value_numeral(ds: Seq<u8>)
    requires
        ds.len() > 0,
        are_digits(ds),
        ds.last() != 0 || ds.len() == 1,
    ensures
        numeral(value(ds)) == ds.reverse().map_values(|d: u8| digit(d as nat)),
        value(ds) == 0 ==> ds.len() == 1,
    decreases ds.len(),
{
    let out = ds.reverse().map_values(|d: u8| digit(d as nat));
    lemma_value_low(ds);
    if ds.len() == 1 {
        assert(ds.drop_first() =~= Seq::empty());
        assert(out =~= seq![digit(ds[0] as nat)]);
    } else {
        let rest = ds.drop_first();
        lemma_value_numeral(rest);
        assert(rest.last() == ds.last());
        if value(rest) == 0 {
            assert(rest.len() == 1);
            assert(rest.drop_last() =~= Seq::empty());
            reveal(pow);
            assert(pow(10, 0) == 1);
            assert(rest.last() as nat * 1 == 0);
            assert(false);
        }
        assert(value(ds) / 10 == value(rest));
        assert(value(ds) % 10 == ds[0]);
        assert(out =~= rest.reverse().map_values(|d: u8| digit(d as nat)).push(digit(ds[0] as nat)));
    }
}

/// Twice the number, digit by digit.
pub(crate) fn doubled(ds: &Vec<u8>) -> (r: Vec<u8>)
    requires
        are_digits(ds@),
    ensures
        are_digits(r@),
        value(r@) == 2 * value(ds@),
        ds@.len() <= r@.len() <= ds@.len() + 1,
        ds@.len() > 0 && (ds@.last() != 0 || ds@.len() == 1) ==> r@.last() != 0 || r@.len() == 1,
{
    let mut out: Vec<u8> = Vec::new();
    let mut carry: u8 = 0;
    let mut i: usize = 0;
    proof {
        assert(ds@.take(0) =~= Seq::empty());
    }
    while i < ds.len()
        invariant
            i <= ds@.len(),
            out@.len() == i,
            carry <= 1,
            are_digits(ds@),
            are_digits(out@),
            value(out@) + carry as nat * pow(10, i as nat) as nat == 2 * value(ds@.take(i as int)),
            i > 0 ==> 2 * ds@[i - 1] <= out@[i - 1] + 10 * carry,
        decreases ds@.len() - i,
    {
        let d: u8 = 2 * ds[i] + carry;
        let (low, high): (u8, u8) = if d >= 10 {
            (d - 10, 1)
        } else {
            (d, 0)
        };
        proof {
            lemma_value_push(out@, low);
            lemma_ten(i as nat);
            assert(ds@.take(i + 1) =~= ds@.take(i as int).push(ds@[i as int]));
            lemma_value_push(ds@.take(i as int), ds@[i as int]);
            let p = pow(10, i as nat) as nat;
            let q = ds@[i as int] as nat;
            assert(low as nat * p + high as nat * (10 * p) == carry as nat * p + 2 * (q * p))
                by (nonlinear_arith)
                requires
                    low + 10 * high == 2 * q + carry,
            ;
        }
        out.push(low);
        carry = high;
        i = i + 1;
    }
    proof {
        assert(ds@.take(ds@.len() as int) =~= ds@);
        lemma_ten(i as nat);
    }
    if carry > 0 {
        proof {
            lemma_value_push(out@, 1);
        }
        out.push(1);
    }
    out
}

/// The digits of a 64-bit integer, the lowest first.
fn small_digits(n: u64) -> (r: Vec<u8>)
    ensures
        are_digits(r@),
        0 < r@.len() <= 20,
        value(r@) == n,
        r@.last() != 0 || r@.len() == 1,
{
    let mut out: Vec<u8> = Vec::new();
    let mut left: u64 = n;
    proof {
        reveal(pow);
        assert(pow(10, 0) == 1);
        assert(left as nat * 1 == n);
    }
    while left >= 10
        invariant
            are_digits(out@),
            value(out@) + left as nat * pow(10, out@.len()) as nat == n,
            left > 0 || out@.len() == 0,
            out@.len() <= 19,
        decreases left,
    {
        proof {
            let p = pow(10, out@.len()) as nat;
            lemma_ten(out@.len());
            lemma_value_push(out@, (left % 10) as u8);
            let a = (left / 10) as nat;
            let b = (left % 10) as nat;
            assert(b * p + a * (10 * p) == left as nat * p) by (nonlinear_arith)
                requires
                    left == 10 * a + b,
            ;
            if out@.len() == 19 {
                assert(pow(10, 19) == 10_000_000_000_000_000_000) by {
                    reveal_with_fuel(pow, 20);
                }
                assert(left as nat * p >= 10 * p) by (nonlinear_arith)
                    requires
                        left >= 10,
                ;
                assert(false);
            }
        }
        out.push((left % 10) as u8);
        left = left / 10;
    }
    proof {
        lemma_value_push(out@, left as u8);
    }
    out.push(left as u8);
    out
}

/// The numeral of `m * 2^j`.
fn large_numeral(m: u64, j: u32) -> (r: String)
    requires
        j <= 2000,
    ensures
        r@ == numeral(m as nat * pow2(j as nat)),
{
    let mut ds = small_digits(m);
    let mut t: u32 = 0;
    proof {
        lemma2_to64();
        assert(m as nat * 1 == m as nat);
    }
    while t < j
        invariant
            t <= j <= 2000,
            are_digits(ds@),
            0 < ds@.len() <= 20 + t,
            ds@.last() != 0 || ds@.len() == 1,
            value(ds@) == m as nat * pow2(t as nat),
        decreases j - t,
    {
        ds = doubled(&ds);
        proof {
            lemma_pow2_unfold((t + 1) as nat);
            assert(2 * (m as nat * pow2(t as nat)) == m as nat * (2 * pow2(t as nat)))
                by (nonlinear_arith);
        }
        t = t + 1;
    }
    let mut out = String::new();
    let mut i: usize = ds.len();
    let ghost whole = ds@.reverse().map_values(|d: u8| digit(d as nat));
    while i > 0
        invariant
            i <= ds@.len(),
            are_digits(ds@),
            whole == ds@.reverse().map_values(|d: u8| digit(d as nat)),
            out@ == whole.take(ds@.len() - i),
        decreases i,
    {
        i = i - 1;
        out.push(digit_char(ds[i]));
        assert(whole.take(ds@.len() - i) =~= whole.take(ds@.len() - i - 1).push(digit(ds@[i as int] as nat)));
    }
    proof {
        lemma_value_numeral(ds@);
        assert(whole.take(ds@.len() as int) =~= whole);
    }
    out
}

/// The last `width` decimal digits of `n`.
fn last_digits_text(n: u128, width: u32) -> (r: String)
    ensures
        r@ == last_digits(n as nat, width as nat),
    decreases width,
{
    if width == 0 {
        String::new()
    } else {
        let mut s = last_digits_text(n / 10, width - 1);
        s.push(digit_char((n % 10) as u8));
        s
    }
}

proof fn lemma_last_digits_zero(n: nat, width: nat)
    ensures
        last_digits(n * pow(10, width) as nat, width) == last_digits(0, width),
    decreases width,
{
    if width > 0 {
        lemma_ten((width - 1) as nat);
        let p = pow(10, (width - 1) as nat) as nat;
        assert(n * (10 * p) == 10 * (n * p)) by (nonlinear_arith);
        lemma_last_digits_zero(n, (width - 1) as nat);
    }
}

fn ten_power(places: u32) -> (r: u64)
    requires
        places <= 6,
    ensures
        r == pow(10, places as nat),
        0 < r <= 1_000_000,
{
    proof {
        reveal_with_fuel(pow, 7);
    }
    if places == 0 {
        1
    } else if places == 1 {
        10
    } else if places == 2 {
        100
    } else if places == 3 {
        1000
    } else if places == 4 {
        10_000
    } else if places == 5 {
        100_000
    } else {
        1_000_000
    }
}

/// The decimal text of a number with at most six decimals.
pub fn fixed_text(x: Double, places: u32) -> (r: String)
    requires
        places <= 6,
    ensures
        r@ == fixed(x, places as nat),
{
    let p: u64 = x.bits % SIGN;
    if p > rounding::INFINITE {
        return "NaN".to_owned();
    }
    let mut out = String::new();
    if x.is_negative() {
        out.push('-');
    }
    let ghost sign = if x.negative() {
        seq!['-']
    } else {
        Seq::empty()
    };
    assert(out@ =~= sign);
    if p == rounding::INFINITE {
        out.append("inf");
        return out;
    }
    let ten = ten_power(places);
    let ghost scaled = fixed_scaled(x, places as nat);
    let (m, e) = x.parts();
    let ghost t = ten as nat;
    let ghost unit = pow2(e as nat);
    proof {
        assert((m * unit) * t == (m * t) * unit) by (nonlinear_arith);
        lemma_pow2_pos(e as nat);
    }
    let ghost head = sign + numeral(scaled / t);
    if e >= 1074 {
        let j: u32 = e - 1074;
        let whole = large_numeral(m, j);
        proof {
            let v = m as nat * pow2(j as nat);
            let u = pow2(1074);
            lemma_pow2_pos(1074);
            lemma_pow2_adds(j as nat, 1074);
            assert((m * t) * unit == u * (v * t)) by (nonlinear_arith)
                requires
                    unit == pow2(j as nat) * u,
                    v == m * pow2(j as nat),
            ;
            lemma_div_multiples_vanish((v * t) as int, u as int);
            lemma_mod_multiples_basic((v * t) as int, u as int);
            assert(u * (v * t) == (v * t) * u) by (nonlinear_arith);
            assert(scaled == v * t);
            lemma_div_multiples_vanish(v as int, t as int);
            assert(t * v == v * t) by (nonlinear_arith);
            assert(scaled / t == v);
            lemma_last_digits_zero(v, places as nat);
        }
        out.append(whole.as_str());
        assert(out@ =~= head);
        if places > 0 {
            out.push('.');
            let zeros = last_digits_text(0, places);
            out.append(zeros.as_str());
            assert(out@ =~= head + (seq!['.'] + last_digits(scaled, places as nat)));
        } else {
            assert(out@ =~= head + Seq::empty());
        }
        out
    } else {
        let k: u32 = 1074 - e;
        proof {
            lemma2_to64();
            lemma_pow2_adds(64, 9);
            assert(m * t < 0x20_0000_0000_0000 * 1_000_000) by (nonlinear_arith)
                requires
                    m < 0x20_0000_0000_0000,
                    0 < t <= 1_000_000,
            ;
        }
        let n: u128 = (m as u128) * (ten as u128);
        let r: u128 = if k >= 75 {
            0
        } else {
            let u: u128 = power(k);
            proof {
                lemma_pow2_strictly_increases(k as nat, 75);
                lemma_pow2_adds(64, 11);
                lemma_pow2_pos(k as nat);
                assert(n / u <= n) by (nonlinear_arith)
                    requires
                        u >= 1,
                ;
            }
            let q: u128 = n / u;
            let rest: u128 = n % u;
            if 2 * rest < u {
                q
            } else if 2 * rest > u {
                q + 1
            } else {
                q + q % 2
            }
        };
        proof {
            let u = pow2(k as nat);
            lemma_pow2_pos(k as nat);
            lemma_pow2_adds(e as nat, k as nat);
            rounding::lemma_round_scales(n as nat, u, unit);
            assert(unit * n == (m * t) * unit) by (nonlinear_arith)
                requires
                    n == m * t,
            ;
            assert(scaled == rounding::round_half_even(n as nat, u));
            if k >= 75 {
                lemma_pow2_adds(64, 11);
                if k > 75 {
                    lemma_pow2_strictly_increases(75, k as nat);
                }
                lemma_small_mod(n as nat, u);
                lemma_basic_div(n as int, u as int);
            }
            assert(r == scaled);
        }
        let whole = numeral_text(r / (ten as u128));
        out.append(whole.as_str());
        assert(out@ =~= head);
        if places > 0 {
            out.push('.');
            let tail = last_digits_text(r, places);
            out.append(tail.as_str());
            assert(out@ =~= head + (seq!['.'] + last_digits(scaled, places as nat)));
        } else {
            assert(out@ =~= head + Seq::empty());
        }
        out
    }
}

/// The same with an explicit plus sign.
pub fn fixed_signed_text(x: Double, places: u32) -> (r: String)
    requires
        places <= 6,
    ensures
        r@ == fixed_signed(x, places as nat),
{
    let body = fixed_text(x, places);
    if x.nan_value() || x.is_negative() {
        body
    } else {
        let mut out = String::new();
        out.push('+');
        out.append(body.as_str());
        assert(out@ =~= seq!['+'] + body@);
        out
    }
}

} // verus!
