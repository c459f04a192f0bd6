//! Reading decimal numerals as binary64 numbers, correctly rounded.

use crate::decimal;
use crate::decimal::doubled;
use crate::double;
use crate::double::{settle_long, Double, QUIET_NAN, SIGN};
use crate::rounding;
use crate::text::chars_of;
use vstd::arithmetic::div_mod::*;
use vstd::arithmetic::mul::*;
use vstd::arithmetic::power::*;
use vstd::arithmetic::power2::*;
use vstd::prelude::*;
use vstd::string::*;

verus! {

pub open spec fn is_digit(c: char) -> bool {
    '0' <= c && c <= '9'
}

pub open spec fn digit_value(c: char) -> nat {
    (c as int - 48) as nat
}

/// How many digits follow one another from position `i` on.
pub open spec fn digit_run(s: Seq<char>, i: int) -> nat
    decreases s.len() - i,
{
    if 0 <= i < s.len() && is_digit(s[i]) {
        1 + digit_run(s, i + 1)
    } else {
        0
    }
}

/// The number that a row of digits stands for.
pub open spec fn whole_number(s: Seq<char>) -> nat
    decreases s.len(),
{
    if s.len() == 0 {
        0
    } else {
        whole_number(s.drop_last()) * 10 + digit_value(s.last())
    }
}

/// Digits, an optional point with digits on at least one side of it, and an optional exponent:
/// the digits as one integer and the power of ten that belongs to them.
pub open spec fn read_unsigned(s: Seq<char>) -> Option<(nat, int)> {
    let a = digit_run(s, 0) as int;
    let point = a < s.len() && s[a] == '.';
    let b = if point {
        digit_run(s, a + 1) as int
    } else {
        0
    };
    let end = if point {
        a + 1 + b
    } else {
        a
    };
    let digits = if point {
        s.subrange(0, a) + s.subrange(a + 1, a + 1 + b)
    } else {
        s.subrange(0, a)
    };
    if a + b == 0 {
        None
    } else if end == s.len() {
        Some((whole_number(digits), -b))
    } else if s[end] == 'e' || s[end] == 'E' {
        let minus = end + 1 < s.len() && s[end + 1] == '-';
        let plus = end + 1 < s.len() && s[end + 1] == '+';
        let start = if minus || plus {
            end + 2
        } else {
            end + 1
        };
        let c = digit_run(s, start) as int;
        if c == 0 || start + c != s.len() {
            None
        } else {
            let e = whole_number(s.subrange(start, start + c));
            Some((whole_number(digits), (if minus { -(e as int) } else { e as int }) - b))
        }
    } else {
        None
    }
}

pub open spec fn lower(c: char) -> char {
    if 'A' <= c && c <= 'Z' {
        ((c as int + 32) as u8) as char
    } else {
        c
    }
}

/// Whether `s` spells `word`, whatever the case of its letters.
pub open spec fn spells(s: Seq<char>, word: Seq<char>) -> bool {
    s.len() == word.len() && forall|i: int| 0 <= i < s.len() ==> lower(#[trigger] s[i]) == word[i]
}

/// The number that a text stands for, if it is a numeral, an infinity or NaN.
pub open spec fn read_double(s: Seq<char>) -> Option<Double> {
    if s.len() == 0 {
        None
    } else {
        let negative = s[0] == '-';
        let body = if s[0] == '-' || s[0] == '+' {
            s.skip(1)
        } else {
            s
        };
        match read_unsigned(body) {
            Some((d, e)) => Some(Double::decimal(negative, d, e)),
            None => if spells(body, "inf"@) || spells(body, "infinity"@) {
                Some(Double::infinity(negative))
            } else if spells(body, "nan"@) {
                Some(Double::nan())
            } else {
                None
            },
        }
    }
}

/// `a - b` on digits, the lowest first; nothing if `b` is the larger number.
fn less(a: &Vec<u8>, b: &Vec<u8>) -> (r: Option<Vec<u8>>)
    requires
        decimal::are_digits(a@),
        decimal::are_digits(b@),
    ensures
        match r {
            Some(d) => decimal::are_digits(d@) && decimal::value(a@) >= decimal::value(b@)
                && decimal::value(d@) == decimal::value(a@) - decimal::value(b@),
            None => decimal::value(a@) < decimal::value(b@),
        },
{
    let mut out: Vec<u8> = Vec::new();
    let mut borrow: u8 = 0;
    let mut i: usize = 0;
    let n: usize = if a.len() >= b.len() {
        a.len()
    } else {
        b.len()
    };
    proof {
        reveal(pow);
        assert(pow(10, 0) == 1);
    }
    while i < n
        invariant
            i <= n,
            n >= a@.len(),
            n >= b@.len(),
            out@.len() == i,
            borrow <= 1,
            decimal::are_digits(a@),
            decimal::are_digits(b@),
            decimal::are_digits(out@),
            low_part(a@, i as nat) + borrow as nat * pow(10, i as nat) == low_part(b@, i as nat)
                + decimal::value(out@),
        decreases n - i,
    {
        let x: u8 = if i < a.len() {
            a[i]
        } else {
            0
        };
        let y: u8 = if i < b.len() {
            b[i]
        } else {
            0
        };
        let (d, next): (u8, u8) = if x >= y + borrow {
            (x - y - borrow, 0)
        } else {
            (x + 10 - y - borrow, 1)
        };
        proof {
            lemma_low_part(a@, i as nat);
            lemma_low_part(b@, i as nat);
            decimal::lemma_value_push(out@, d);
            decimal::lemma_ten(i as nat);
            let p = pow(10, i as nat);
            assert(x as int * p + next as int * (10 * p) == y as int * p + borrow as int * p + d as int * p)
                by (nonlinear_arith)
                requires
                    x + 10 * next == y + borrow + d,
            ;
        }
        out.push(d);
        borrow = next;
        i = i + 1;
    }
    proof {
        lemma_low_part_all(a@, n as nat);
        lemma_low_part_all(b@, n as nat);
        lemma_value_below(out@);
        decimal::lemma_ten(n as nat);
    }
    if borrow == 0 {
        Some(out)
    } else {
        None
    }
}

/// The number that the lowest `i` digits stand for.
spec fn low_part(ds: Seq<u8>, i: nat) -> nat {
    if i <= ds.len() {
        decimal::value(ds.take(i as int))
    } else {
        decimal::value(ds)
    }
}

proof fn lemma_low_part(ds: Seq<u8>, i: nat)
    ensures
        low_part(ds, 0) == 0,
        low_part(ds, i + 1) == low_part(ds, i) + (if i < ds.len() {
            ds[i as int] as nat
        } else {
            0
        }) * pow(10, i) as nat,
{
    assert(ds.take(0) =~= Seq::empty());
    decimal::lemma_ten(i);
    if i < ds.len() {
        assert(ds.take((i + 1) as int) =~= ds.take(i as int).push(ds[i as int]));
        decimal::lemma_value_push(ds.take(i as int), ds[i as int]);
    } else {
        assert(0 * (pow(10, i) as nat) == 0);
        assert(ds.take(ds.len() as int) =~= ds);
    }
}

proof fn lemma_low_part_all(ds: Seq<u8>, i: nat)
    requires
        i >= ds.len(),
    ensures
        low_part(ds, i) == decimal::value(ds),
{
    assert(ds.take(ds.len() as int) =~= ds);
}

/// A number of `n` digits is below `10^n`.
proof fn lemma_value_below(ds: Seq<u8>)
    requires
        decimal::are_digits(ds),
    ensures
        decimal::value(ds) < pow(10, ds.len()),
    decreases ds.len(),
{
    reveal(pow);
    if ds.len() > 0 {
        lemma_value_below(ds.drop_last());
        let p = pow(10, (ds.len() - 1) as nat);
        decimal::lemma_ten((ds.len() - 1) as nat);
        assert(ds.last() as nat * (p as nat) <= 9 * p) by (nonlinear_arith)
            requires
                ds.last() <= 9,
                p > 0,
        ;
    }
}

/// Whether all digits are zero.
fn is_zero(ds: &Vec<u8>) -> (r: bool)
    requires
        decimal::are_digits(ds@),
    ensures
        r == (decimal::value(ds@) == 0),
{
    let mut i: usize = 0;
    proof {
        assert(ds@.take(0) =~= Seq::empty());
    }
    while i < ds.len()
        invariant
            i <= ds@.len(),
            decimal::value(ds@.take(i as int)) == 0,
        decreases ds@.len() - i,
    {
        proof {
            assert(ds@.take(i + 1) =~= ds@.take(i as int).push(ds@[i as int]));
            decimal::lemma_value_push(ds@.take(i as int), ds@[i as int]);
            decimal::lemma_ten(i as nat);
            assert(0 * (pow(10, i as nat) as nat) == 0);
        }
        if ds[i] != 0 {
            proof {
                let p = pow(10, i as nat) as nat;
                assert(ds@[i as int] as nat * p > 0) by (nonlinear_arith)
                    requires
                        ds@[i as int] as nat > 0,
                        p > 0,
                ;
                lemma_value_prefix(ds@, (i + 1) as nat);
            }
            return false;
        }
        i = i + 1;
    }
    proof {
        assert(ds@.take(ds@.len() as int) =~= ds@);
    }
    true
}

proof fn lemma_value_prefix(ds: Seq<u8>, i: nat)
    requires
        i <= ds.len(),
    ensures
        decimal::value(ds.take(i as int)) <= decimal::value(ds),
    decreases ds.len(),
{
    if i == ds.len() {
        assert(ds.take(i as int) =~= ds);
    } else {
        lemma_value_prefix(ds.drop_last(), i);
        assert(ds.drop_last().take(i as int) =~= ds.take(i as int));
        decimal::lemma_ten((ds.len() - 1) as nat);
        let p = pow(10, (ds.len() - 1) as nat) as nat;
        assert(ds.last() as nat * p >= 0) by (nonlinear_arith);
    }
}

/// The exponents within which a quotient must lie for the long division.
spec fn in_reach(a: nat, b: nat) -> bool {
    a > 0 && b > 0 && a <= b * pow2(2000) && b <= a * pow2(2000)
}

/// The number with this sign nearest to `a / b`, by long division on decimal digits.
fn divide(negative: bool, a: Vec<u8>, b: Vec<u8>) -> (r: Double)
    requires
        decimal::are_digits(a@),
        decimal::are_digits(b@),
        in_reach(decimal::value(a@), decimal::value(b@)),
    ensures
        r == Double::nearest(negative, decimal::value(a@) * pow2(1074), decimal::value(b@)),
{
    let ghost na = decimal::value(a@);
    let ghost nb = decimal::value(b@);
    let mut x: Vec<u8> = a;
    let mut y: Vec<u8> = b;
    let mut c: u32 = 0;
    let mut g: u32 = 0;
    proof {
        lemma2_to64();
        assert(na * 1 == na && nb * 1 == nb);
    }
    let mut small = less(&x, &y).is_none();
    while small
        invariant
            decimal::are_digits(x@),
            decimal::are_digits(y@),
            in_reach(na, nb),
            decimal::value(y@) == nb,
            decimal::value(x@) == na * pow2(c as nat),
            c <= 2000,
            small == (decimal::value(x@) < decimal::value(y@)),
            c > 0 ==> decimal::value(x@) < 2 * decimal::value(y@),
        decreases 2000 - c,
    {
        proof {
            if c >= 2000 {
                assert(na * pow2(2000) >= nb);
            }
            lemma_pow2_unfold((c + 1) as nat);
            assert(2 * (na * pow2(c as nat)) == na * (2 * pow2(c as nat))) by (nonlinear_arith);
        }
        x = doubled(&x);
        c = c + 1;
        small = less(&x, &y).is_none();
    }
    let ghost top = decimal::value(x@);
    assert(c == 0 || top < 2 * nb);
    let mut y2 = doubled(&y);
    let mut large = less(&x, &y2).is_some();
    while large
        invariant
            decimal::are_digits(x@),
            decimal::are_digits(y@),
            decimal::are_digits(y2@),
            in_reach(na, nb),
            c == 0 ==> top == na,
            c > 0 ==> top < 2 * nb,
            decimal::value(x@) == top,
            decimal::value(y@) == nb * pow2(g as nat),
            decimal::value(y2@) == 2 * decimal::value(y@),
            top >= decimal::value(y@),
            g <= 2000,
            large == (top >= decimal::value(y2@)),
        decreases 2000 - g,
    {
        proof {
            lemma2_to64();
            lemma_pow2_pos(g as nat);
            lemma_pow2_unfold((g + 1) as nat);
            assert(2 * (nb * pow2(g as nat)) == nb * (2 * pow2(g as nat))) by (nonlinear_arith);
            if c > 0 {
                assert(nb * pow2(g as nat) >= nb) by (nonlinear_arith)
                    requires
                        pow2(g as nat) >= 1,
                ;
                assert(false);
            }
            if g >= 2000 {
                assert(nb * pow2(2000) > 0) by (nonlinear_arith)
                    requires
                        nb > 0,
                        pow2(g as nat) > 0,
                        g == 2000,
                ;
                assert(false);
            }
        }
        y = y2;
        y2 = doubled(&y);
        g = g + 1;
        large = less(&x, &y2).is_some();
    }
    let ghost va = top;
    let ghost vb = decimal::value(y@);
    assert(vb <= va < 2 * vb);
    let mut q: u64 = 0;
    let mut i: u32 = 0;
    let mut rest: Vec<u8> = x;
    proof {
        lemma2_to64();
        assert(va * 1 == va);
        assert((2 * vb) * 0 == 0);
    }
    while i < 64
        invariant
            i <= 64,
            decimal::are_digits(rest@),
            decimal::are_digits(y@),
            decimal::value(y@) == vb,
            vb <= va < 2 * vb,
            decimal::value(rest@) < 2 * vb,
            va * pow2(i as nat) == (2 * vb) * q + decimal::value(rest@),
            q < pow2(i as nat),
        decreases 64 - i,
    {
        let ghost r0 = decimal::value(rest@);
        proof {
            lemma_pow2_unfold((i + 1) as nat);
            lemma2_to64();
            lemma2_to64_rest();
            if i < 63 {
                lemma_pow2_strictly_increases((i + 1) as nat, 64);
            }
        }
        match less(&rest, &y) {
            Some(d) => {
                proof {
                    assert(va * (2 * pow2(i as nat)) == (2 * vb) * (2 * q + 1) + 2 * (r0 - vb))
                        by (nonlinear_arith)
                        requires
                            va * pow2(i as nat) == (2 * vb) * q + r0,
                    ;
                }
                rest = doubled(&d);
                q = 2 * q + 1;
            },
            None => {
                proof {
                    assert(va * (2 * pow2(i as nat)) == (2 * vb) * (2 * q) + 2 * r0)
                        by (nonlinear_arith)
                        requires
                            va * pow2(i as nat) == (2 * vb) * q + r0,
                    ;
                }
                rest = doubled(&rest);
                q = 2 * q;
            },
        }
        i = i + 1;
    }
    let left_over = !is_zero(&rest);
    let e: i32 = 1011 + g as i32 - c as i32;
    let ghost n = va * pow2(64);
    let ghost dn = 2 * vb;
    proof {
        lemma2_to64();
        let left = decimal::value(rest@);
        assert(n == q * dn + left) by (nonlinear_arith)
            requires
                n == (2 * vb) * q + left,
                dn == 2 * vb,
        ;
        lemma_fundamental_div_mod_converse(n as int, dn as int, q as int, left as int);
        assert(q >= 0x8000_0000_0000_0000) by (nonlinear_arith)
            requires
                va * 0x1_0000_0000_0000_0000 == (2 * vb) * q + left,
                left < 2 * vb,
                vb <= va,
                vb > 0,
        ;
        lemma_value_of_quotient(na, nb, c as nat, g as nat, va, vb, e as int);
        reveal(Double::nearest);
    }
    settle_long(negative, q, left_over, e, Ghost(n), Ghost(dn))
}

proof fn lemma_value_of_quotient(na: nat, nb: nat, c: nat, g: nat, va: nat, vb: nat, e: int)
    requires
        na > 0,
        nb > 0,
        c <= 2000,
        g <= 2000,
        va == na * pow2(c),
        vb == nb * pow2(g),
        e == 1011 + g - c,
    ensures
        rounding::nearest_pattern(
            double::scaled_num(va * pow2(64), e),
            (2 * vb) * double::scaled_den(e),
        ) == rounding::nearest_pattern(na * pow2(1074), nb),
        (2 * vb) * double::scaled_den(e) > 0,
{
    let pc = pow2(c);
    let pg = pow2(g);
    lemma_pow2_pos(c);
    lemma_pow2_pos(g);
    lemma2_to64();
    let n1 = double::scaled_num(va * pow2(64), e);
    let d1 = (2 * vb) * double::scaled_den(e);
    lemma_pow2_adds(1, g);
    lemma_pow2_adds(c, 64);
    if e >= 0 {
        let en = e as nat;
        let pe = pow2(en);
        lemma_pow2_adds((c + 64) as nat, en);
        lemma_pow2_adds((1 + g) as nat, 1074);
        assert(c + 64 + en == 1 + g + 1074);
        assert(((na * pc) * pow2(64)) * pe == na * ((pc * pow2(64)) * pe)) by (nonlinear_arith);
        assert((2 * (nb * pg)) * 1 == nb * (2 * pg)) by (nonlinear_arith);
        assert((na * ((2 * pg) * pow2(1074))) * nb == (na * pow2(1074)) * (nb * (2 * pg)))
            by (nonlinear_arith);
        assert(n1 * nb == (na * pow2(1074)) * d1);
        assert(d1 > 0) by (nonlinear_arith)
            requires
                d1 == nb * (2 * pg),
                nb > 0,
                pg > 0,
        ;
    } else {
        let f = (-e) as nat;
        let pf = pow2(f);
        lemma_pow2_pos(f);
        lemma_pow2_adds((1 + g) as nat, 1074);
        lemma_pow2_adds((1 + g + 1074) as nat, f);
        assert(1 + g + 1074 + f == c + 64);
        assert((na * pc) * pow2(64) == na * (pc * pow2(64))) by (nonlinear_arith);
        assert((2 * (nb * pg)) * pf == nb * ((2 * pg) * pf)) by (nonlinear_arith);
        assert((na * (((2 * pg) * pow2(1074)) * pf)) * nb == (na * pow2(1074)) * (nb * ((2 * pg) * pf)))
            by (nonlinear_arith);
        assert(n1 * nb == (na * pow2(1074)) * d1);
        assert(d1 > 0) by (nonlinear_arith)
            requires
                d1 == nb * ((2 * pg) * pf),
                nb > 0,
                pg > 0,
                pf > 0,
        ;
    }
    rounding::lemma_nearest_same_value(n1, d1, na * pow2(1074), nb);
}

proof fn lemma_ten_between(k: nat)
    ensures
        pow2(3 * k) <= pow(10, k) <= pow2(4 * k),
    decreases k,
{
    reveal(pow);
    lemma2_to64();
    if k > 0 {
        lemma_ten_between((k - 1) as nat);
        decimal::lemma_ten((k - 1) as nat);
        lemma_pow2_adds(3, (3 * (k - 1)) as nat);
        lemma_pow2_adds(4, (4 * (k - 1)) as nat);
        assert(3 + 3 * (k - 1) == 3 * k);
        assert(4 + 4 * (k - 1) == 4 * k);
    }
}

/// A number whose highest digit is not zero has at least its place value.
proof fn lemma_value_at_least(ds: Seq<u8>)
    requires
        ds.len() > 0,
        ds.last() != 0,
    ensures
        decimal::value(ds) >= pow(10, (ds.len() - 1) as nat),
{
    decimal::lemma_ten((ds.len() - 1) as nat);
    let p = pow(10, (ds.len() - 1) as nat) as nat;
    assert(ds.last() as nat * p >= p) by (nonlinear_arith)
        requires
            ds.last() as nat >= 1,
    ;
}

proof fn lemma_huge(negative: bool, num: nat, den: nat)
    requires
        den > 0,
        num >= den * pow2(2270),
    ensures
        Double::nearest(negative, num, den) == Double::infinity(negative),
{
    reveal(Double::nearest);
    let x = rounding::fit(num, den);
    rounding::lemma_fit_bound(num, den);
    if x < 2100 {
        lemma_pow2_strictly_increases(53 + x, 2270);
        assert(den * pow2(53 + x) <= den * pow2(2270)) by (nonlinear_arith)
            requires
                pow2(53 + x) < pow2(2270),
        ;
        assert(false);
    }
    lemma_pow2_pos(x);
    assert(den * pow2(x) > 0) by (nonlinear_arith)
        requires
            den > 0,
            pow2(x) > 0,
    ;
    assert(rounding::round_half_even(num, den * pow2(x)) >= 0);
}

proof fn lemma_tiny(negative: bool, num: nat, den: nat)
    requires
        den > 0,
        2 * num < den,
    ensures
        Double::nearest(negative, num, den) == (Double { bits: if negative { SIGN } else { 0 } }),
{
    reveal(Double::nearest);
    lemma_pow2_pos(53);
    assert(den * pow2(53) >= den) by (nonlinear_arith)
        requires
            pow2(53) >= 1,
    ;
    lemma2_to64();
    assert(den * pow2(0) == den);
    lemma_small_mod(num, den);
    lemma_basic_div(num as int, den as int);
}

/// `count` zeros below the digits.
fn raised(ds: Vec<u8>, count: u128) -> (r: Vec<u8>)
    requires
        decimal::are_digits(ds@),
    ensures
        decimal::are_digits(r@),
        decimal::value(r@) == decimal::value(ds@) * pow(10, count as nat),
{
    let mut out: Vec<u8> = Vec::new();
    let mut i: u128 = 0;
    while i < count
        invariant
            i <= count,
            out@ =~= Seq::new(i as nat, |k: int| 0u8),
        decreases count - i,
    {
        out.push(0);
        i = i + 1;
    }
    let mut j: usize = 0;
    while j < ds.len()
        invariant
            j <= ds@.len(),
            out@ =~= Seq::new(count as nat, |k: int| 0u8) + ds@.take(j as int),
        decreases ds@.len() - j,
    {
        out.push(ds[j]);
        j = j + 1;
    }
    proof {
        assert(ds@.take(ds@.len() as int) =~= ds@);
        lemma_raised(ds@, count as nat);
    }
    out
}

proof fn lemma_raised(ds: Seq<u8>, count: nat)
    ensures
        decimal::value(Seq::new(count, |k: int| 0u8) + ds) == decimal::value(ds) * pow(10, count),
    decreases count,
{
    let out = Seq::new(count, |k: int| 0u8) + ds;
    if count == 0 {
        reveal(pow);
        assert(out =~= ds);
        assert(decimal::value(ds) * 1 == decimal::value(ds));
    } else {
        let c = (count - 1) as nat;
        lemma_raised(ds, c);
        assert(out.drop_first() =~= Seq::new(c, |k: int| 0u8) + ds);
        decimal::lemma_value_low(out);
        decimal::lemma_ten(c);
        let v = decimal::value(ds);
        let p = pow(10, c);
        assert(10 * (v * p) == v * (10 * p)) by (nonlinear_arith);
    }
}

/// The number with this sign nearest to `value(ds) * 10^e`.
fn assemble(negative: bool, ds: Vec<u8>, e: i128) -> (r: Double)
    requires
        decimal::are_digits(ds@),
        -0x100_0000_0000_0000_0000_0000 <= e <= 0x100_0000_0000_0000_0000_0000,
    ensures
        r == Double::decimal(negative, decimal::value(ds@), e as int),
{
    let ghost d = decimal::value(ds@);
    let mut digits: Vec<u8> = ds;
    while digits.len() > 0 && digits[digits.len() - 1] == 0
        invariant
            decimal::are_digits(digits@),
            decimal::value(digits@) == d,
        decreases digits@.len(),
    {
        proof {
            decimal::lemma_ten((digits@.len() - 1) as nat);
            assert(0 * (pow(10, (digits@.len() - 1) as nat) as nat) == 0);
            assert(digits@.drop_last() =~= digits@.subrange(0, digits@.len() - 1));
        }
        let _ = digits.pop();
    }
    let signed_zero = Double {
        bits: if negative {
            SIGN
        } else {
            0
        },
    };
    if digits.len() == 0 {
        proof {
            assert(0 * pow2(1074) == 0);
            if e >= 0 {
                assert(0 * (pow(10, e as nat) as nat) == 0);
                lemma_tiny(negative, 0, 1);
            } else {
                decimal::lemma_ten((-e) as nat);
                lemma_tiny(negative, 0, pow(10, (-e) as nat) as nat);
            }
        }
        return signed_zero;
    }
    let n: i128 = digits.len() as i128;
    let place: i128 = n + e;
    proof {
        lemma_value_at_least(digits@);
        lemma_value_below(digits@);
        lemma_place_bounds(d, n as nat, e as int);
    }
    if place > 401 {
        proof {
            if e >= 0 {
                lemma_huge(negative, (d * pow(10, e as nat) as nat) * pow2(1074), 1);
            } else {
                lemma_huge(negative, d * pow2(1074), pow(10, (-e) as nat) as nat);
            }
        }
        return Double {
            bits: if negative {
                SIGN + rounding::INFINITE
            } else {
                rounding::INFINITE
            },
        };
    }
    if place < -400 {
        proof {
            lemma_tiny(negative, d * pow2(1074), pow(10, (-e) as nat) as nat);
        }
        return signed_zero;
    }
    let mut one: Vec<u8> = Vec::new();
    one.push(1);
    proof {
        reveal(pow);
        assert(one@.drop_last() =~= Seq::empty());
        assert(pow(10, 0) == 1);
        assert(decimal::value(one@.drop_last()) == 0);
        assert(1 * (pow(10, 0) as nat) == 1);
        assert(decimal::value(one@) == 1);
    }
    if e >= 0 {
        proof {
            decimal::lemma_ten(e as nat);
        }
        divide(negative, raised(digits, e as u128), one)
    } else {
        proof {
            decimal::lemma_ten((-e) as nat);
            assert(1 * pow(10, (-e) as nat) == pow(10, (-e) as nat));
        }
        divide(negative, digits, raised(one, (-e) as u128))
    }
}

/// What the place of the highest digit says about the size of `d * 10^e`.
proof fn lemma_place_bounds(d: nat, n: nat, e: int)
    requires
        n > 0,
        pow(10, (n - 1) as nat) <= d < pow(10, n),
    ensures
        n + e > 401 && e >= 0 ==> (d * pow(10, e as nat) as nat) * pow2(1074) >= 1 * pow2(2270),
        n + e > 401 && e < 0 ==> d * pow2(1074) >= (pow(10, (-e) as nat) as nat) * pow2(2270),
        n + e < -400 ==> e < 0 && 2 * (d * pow2(1074)) < pow(10, (-e) as nat),
        -400 <= n + e <= 401 && e >= 0 ==> in_reach((d * pow(10, e as nat)) as nat, 1),
        -400 <= n + e <= 401 && e < 0 ==> in_reach(d, pow(10, (-e) as nat) as nat),
        e < 0 ==> pow(10, (-e) as nat) > 0,
{
    let place = n + e;
    let low = pow(10, (n - 1) as nat);
    let high = pow(10, n);
    decimal::lemma_ten((n - 1) as nat);
    decimal::lemma_ten(n);
    lemma_pow2_pos(1074);
    lemma_pow2_adds(1200, 1074);
    lemma_ten_between(400);
    lemma_ten_between(401);
    decimal::lemma_ten(401);
    lemma_pow2_strictly_increases(2270, 2274);
    lemma_pow2_strictly_increases(1604, 2000);
    lemma_pow2_strictly_increases(1075, 1200);
    lemma_pow2_unfold(1075);
    let t400 = pow(10, 400);
    let t401 = pow(10, 401);
    if e >= 0 {
        let t = pow(10, e as nat);
        decimal::lemma_ten(e as nat);
        assert(d * t >= 1) by (nonlinear_arith)
            requires
                d >= low,
                low > 0,
                t > 0,
        ;
        if place > 401 {
            lemma_pow_adds(10, (n - 1) as nat, e as nat);
            lemma_pow_increases(10, 400, (place - 1) as nat);
            assert((n - 1) + e == place - 1);
            assert(d * t >= low * t) by (nonlinear_arith)
                requires
                    d >= low,
                    t > 0,
            ;
            assert((d * t) * pow2(1074) >= pow2(1200) * pow2(1074)) by (nonlinear_arith)
                requires
                    d * t >= pow2(1200),
            ;
        } else {
            lemma_pow_adds(10, n, e as nat);
            lemma_pow_increases(10, place as nat, 401);
            assert(d * t <= high * t) by (nonlinear_arith)
                requires
                    d < high,
                    t > 0,
            ;
            lemma_pow2_pos(2000);
            assert((d * t) * pow2(2000) >= 1) by (nonlinear_arith)
                requires
                    d * t >= 1,
                    pow2(2000) > 0,
            ;
        }
    } else {
        let f = (-e) as nat;
        let t = pow(10, f);
        decimal::lemma_ten(f);
        if place > 401 {
            lemma_pow_adds(10, 400, f);
            lemma_pow_increases(10, (400 + f) as nat, (n - 1) as nat);
            assert(d * pow2(1074) >= t * (pow2(1200) * pow2(1074))) by (nonlinear_arith)
                requires
                    d >= t400 * t,
                    t400 >= pow2(1200),
                    t > 0,
            ;
            assert(t * pow2(2270) <= t * pow2(2274)) by (nonlinear_arith)
                requires
                    pow2(2270) <= pow2(2274),
                    t > 0,
            ;
        } else if place < -400 {
            lemma_pow_adds(10, 400, n);
            lemma_pow_increases(10, (400 + n) as nat, f);
            assert(2 * (d * pow2(1074)) < t400 * high) by (nonlinear_arith)
                requires
                    d < high,
                    2 * pow2(1074) <= t400,
                    high > 0,
                    pow2(1074) > 0,
            ;
        } else {
            // the quotient is not larger than 10^401
            lemma_pow_adds(10, 401, f);
            lemma_pow_increases(10, n, (401 + f) as nat);
            assert(d <= t * pow2(2000)) by (nonlinear_arith)
                requires
                    d < t401 * t,
                    t401 <= pow2(2000),
                    t > 0,
            ;
            // nor smaller than 10^-401
            lemma_pow_adds(10, 401, (n - 1) as nat);
            lemma_pow_increases(10, f, (401 + (n - 1)) as nat);
            assert(t <= d * pow2(2000)) by (nonlinear_arith)
                requires
                    t <= t401 * low,
                    t401 <= pow2(2000),
                    low <= d,
                    low > 0,
                    t401 > 0,
            ;
        }
    }
}

proof fn lemma_run(s: Seq<char>, i: int)
    requires
        0 <= i <= s.len(),
    ensures
        i + digit_run(s, i) <= s.len(),
        forall|k: int| i <= k < i + digit_run(s, i) ==> is_digit(#[trigger] s[k]),
        i + digit_run(s, i) < s.len() ==> !is_digit(s[i + digit_run(s, i)]),
    decreases s.len() - i,
{
    if i < s.len() && is_digit(s[i]) {
        lemma_run(s, i + 1);
    }
}

fn run_from(s: &Vec<char>, i: usize) -> (r: usize)
    requires
        i <= s@.len(),
    ensures
        r == digit_run(s@, i as int),
        i + r <= s@.len(),
        forall|k: int| i <= k < i + r ==> is_digit(#[trigger] s@[k]),
{
    let mut j: usize = i;
    proof {
        lemma_run(s@, i as int);
    }
    while j < s.len() && '0' <= s[j] && s[j] <= '9'
        invariant
            i <= j <= s@.len(),
            digit_run(s@, i as int) == (j - i) + digit_run(s@, j as int),
        decreases s@.len() - j,
    {
        j = j + 1;
    }
    j - i
}

/// The digits of a row of digit characters, the lowest first.
fn digits_of(s: &Vec<char>) -> (r: Vec<u8>)
    requires
        forall|k: int| 0 <= k < s@.len() ==> is_digit(#[trigger] s@[k]),
    ensures
        decimal::are_digits(r@),
        decimal::value(r@) == whole_number(s@),
        r@.len() == s@.len(),
{
    let mut out: Vec<u8> = Vec::new();
    let mut i: usize = s.len();
    while i > 0
        invariant
            i <= s@.len(),
            forall|k: int| 0 <= k < s@.len() ==> is_digit(#[trigger] s@[k]),
            out@ =~= Seq::new((s@.len() - i) as nat, |k: int| digit_value(s@[s@.len() - 1 - k]) as u8),
        decreases i,
    {
        i = i - 1;
        let c: char = s[i];
        assert(is_digit(s@[i as int]));
        out.push((c as u8) - 48);
    }
    proof {
        lemma_digits_value(s@);
        assert forall|k: int| 0 <= k < out@.len() implies #[trigger] out@[k] < 10 by {
            assert(is_digit(s@[s@.len() - 1 - k]));
        }
    }
    out
}

proof fn lemma_digits_value(s: Seq<char>)
    requires
        forall|k: int| 0 <= k < s.len() ==> is_digit(#[trigger] s[k]),
    ensures
        decimal::value(Seq::new(s.len(), |k: int| digit_value(s[s.len() - 1 - k]) as u8))
            == whole_number(s),
    decreases s.len(),
{
    let out = Seq::new(s.len(), |k: int| digit_value(s[s.len() - 1 - k]) as u8);
    if s.len() > 0 {
        let body = s.drop_last();
        lemma_digits_value(body);
        assert(out.drop_first() =~= Seq::new(body.len(), |k: int| digit_value(body[body.len() - 1 - k]) as u8));
        decimal::lemma_value_low(out);
        assert(is_digit(s[s.len() - 1]));
    }
}

/// The number that digits stand for, as far as it is below `2^70`.
fn exponent_of(s: &Vec<char>, from: usize, to: usize) -> (r: u128)
    requires
        from <= to <= s@.len(),
        forall|k: int| from <= k < to ==> is_digit(#[trigger] s@[k]),
    ensures
        r <= 0x40_0000_0000_0000_0000,
        r < 0x40_0000_0000_0000_0000 ==> r == whole_number(s@.subrange(from as int, to as int)),
        r == 0x40_0000_0000_0000_0000 ==> whole_number(s@.subrange(from as int, to as int)) >= r,
{
    let mut i: usize = from;
    let mut r: u128 = 0;
    assert(s@.subrange(from as int, from as int) =~= Seq::empty());
    while i < to
        invariant
            from <= i <= to <= s@.len(),
            forall|k: int| from <= k < to ==> is_digit(#[trigger] s@[k]),
            r <= 0x40_0000_0000_0000_0000,
            r < 0x40_0000_0000_0000_0000 ==> r == whole_number(s@.subrange(from as int, i as int)),
            r == 0x40_0000_0000_0000_0000 ==> whole_number(s@.subrange(from as int, i as int)) >= r,
        decreases to - i,
    {
        assert(is_digit(s@[i as int]));
        let d: u8 = (s[i] as u8) - 48;
        proof {
            assert(s@.subrange(from as int, i + 1).drop_last() =~= s@.subrange(from as int, i as int));
        }
        let next: u128 = r * 10 + d as u128;
        r = if next >= 0x40_0000_0000_0000_0000 {
            0x40_0000_0000_0000_0000
        } else {
            next
        };
        i = i + 1;
    }
    r
}

/// `value(ds) * 10^e` for an exponent that is out of all proportion.
fn assemble_far(negative: bool, ds: Vec<u8>, up: bool, Ghost(e): Ghost<int>) -> (r: Double)
    requires
        decimal::are_digits(ds@),
        up ==> e >= 0x20_0000_0000_0000_0000,
        !up ==> e <= -0x20_0000_0000_0000_0000,
    ensures
        r == Double::decimal(negative, decimal::value(ds@), e),
{
    let ghost d = decimal::value(ds@);
    let mut digits: Vec<u8> = ds;
    while digits.len() > 0 && digits[digits.len() - 1] == 0
        invariant
            decimal::are_digits(digits@),
            decimal::value(digits@) == d,
        decreases digits@.len(),
    {
        proof {
            decimal::lemma_ten((digits@.len() - 1) as nat);
            assert(0 * (pow(10, (digits@.len() - 1) as nat) as nat) == 0);
            assert(digits@.drop_last() =~= digits@.subrange(0, digits@.len() - 1));
        }
        let _ = digits.pop();
    }
    proof {
        let n = digits@.len();
        assert(n <= usize::MAX);
        if n == 0 {
            assert(0 * pow2(1074) == 0);
            if e >= 0 {
                assert(0 * (pow(10, e as nat) as nat) == 0);
                lemma_tiny(negative, 0, 1);
            } else {
                decimal::lemma_ten((-e) as nat);
                lemma_tiny(negative, 0, pow(10, (-e) as nat) as nat);
            }
        } else {
            lemma_value_at_least(digits@);
            lemma_value_below(digits@);
            lemma_place_bounds(d, n, e);
            if up {
                lemma_huge(negative, (d * pow(10, e as nat) as nat) * pow2(1074), 1);
            } else {
                lemma_tiny(negative, d * pow2(1074), pow(10, (-e) as nat) as nat);
            }
        }
    }
    if digits.len() > 0 && up {
        Double {
            bits: if negative {
                SIGN + rounding::INFINITE
            } else {
                rounding::INFINITE
            },
        }
    } else {
        Double {
            bits: if negative {
                SIGN
            } else {
                0
            },
        }
    }
}

/// An unsigned numeral as a number with this sign.
fn unsigned_of(negative: bool, s: &Vec<char>) -> (r: Option<Double>)
    ensures
        match read_unsigned(s@) {
            Some((d, e)) => r == Some(Double::decimal(negative, d, e)),
            None => r is None,
        },
{
    let a = run_from(s, 0);
    let point = a < s.len() && s[a] == '.';
    let b: usize = if point {
        run_from(s, a + 1)
    } else {
        0
    };
    let end: usize = if point {
        a + 1 + b
    } else {
        a
    };
    if a == 0 && b == 0 {
        return None;
    }
    let mut all: Vec<char> = Vec::new();
    let mut i: usize = 0;
    while i < a
        invariant
            i <= a <= s@.len(),
            all@ =~= s@.subrange(0, i as int),
        decreases a - i,
    {
        all.push(s[i]);
        i = i + 1;
    }
    if point {
        let mut j: usize = 0;
        while j < b
            invariant
                j <= b,
                a + 1 + b <= s.len(),
                all@ =~= s@.subrange(0, a as int) + s@.subrange(a + 1, a + 1 + j),
            decreases b - j,
        {
            all.push(s[a + 1 + j]);
            j = j + 1;
        }
    }
    let ghost digits = if point {
        s@.subrange(0, a as int) + s@.subrange(a + 1, a + 1 + b)
    } else {
        s@.subrange(0, a as int)
    };
    assert(all@ =~= digits);
    proof {
        assert forall|k: int| 0 <= k < all@.len() implies is_digit(#[trigger] all@[k]) by {
            if k < a {
                assert(all@[k] == s@[k]);
            } else {
                assert(all@[k] == s@[k + 1]);
            }
        }
    }
    let ds = digits_of(&all);
    if end == s.len() {
        return Some(assemble(negative, ds, -(b as i128)));
    }
    if !(s[end] == 'e' || s[end] == 'E') {
        return None;
    }
    let minus = end + 1 < s.len() && s[end + 1] == '-';
    let plus = end + 1 < s.len() && s[end + 1] == '+';
    let start: usize = if minus || plus {
        end + 2
    } else {
        end + 1
    };
    let c = run_from(s, start);
    if c == 0 || start + c != s.len() {
        return None;
    }
    let e = exponent_of(s, start, start + c);
    let ghost ee = whole_number(s@.subrange(start as int, start + c));
    if e < 0x40_0000_0000_0000_0000 {
        let signed: i128 = if minus {
            -(e as i128)
        } else {
            e as i128
        };
        Some(assemble(negative, ds, signed - b as i128))
    } else {
        Some(
            assemble_far(
                negative,
                ds,
                !minus,
                Ghost((if minus { -(ee as int) } else { ee as int }) - b),
            ),
        )
    }
}

fn lower_char(c: char) -> (r: char)
    ensures
        r == lower(c),
{
    if 'A' <= c && c <= 'Z' {
        ((c as u8) + 32) as char
    } else {
        c
    }
}

pub(crate) fn spells_word(s: &Vec<char>, word: &str) -> (r: bool)
    ensures
        r == spells(s@, word@),
{
    let w = chars_of(word);
    if s.len() != w.len() {
        return false;
    }
    let mut i: usize = 0;
    while i < s.len()
        invariant
            i <= s@.len(),
            s@.len() == w@.len(),
            w@ == word@,
            forall|k: int| 0 <= k < i ==> lower(#[trigger] s@[k]) == w@[k],
        decreases s@.len() - i,
    {
        if lower_char(s[i]) != w[i] {
            return false;
        }
        i = i + 1;
    }
    true
}

/// The number that a text stands for.
pub fn parse_double(text: &str) -> (r: Option<Double>)
    ensures
        r == read_double(text@),
{
    let s = chars_of(text);
    if s.len() == 0 {
        return None;
    }
    let negative = s[0] == '-';
    let skip: usize = if s[0] == '-' || s[0] == '+' {
        1
    } else {
        0
    };
    let mut body: Vec<char> = Vec::new();
    let mut i: usize = skip;
    while i < s.len()
        invariant
            skip <= i <= s@.len(),
            body@ =~= s@.subrange(skip as int, i as int),
        decreases s@.len() - i,
    {
        body.push(s[i]);
        i = i + 1;
    }
    assert(body@ =~= (if skip == 1 { s@.skip(1) } else { s@ }));
    match unsigned_of(negative, &body) {
        Some(x) => Some(x),
        None => if spells_word(&body, "inf") || spells_word(&body, "infinity") {
            Some(
                Double {
                    bits: if negative {
                        SIGN + rounding::INFINITE
                    } else {
                        rounding::INFINITE
                    },
                },
            )
        } else if spells_word(&body, "nan") {
            Some(Double { bits: QUIET_NAN })
        } else {
            None
        },
    }
}

/// The number that a text stands for, or `other` where it is none.
pub fn parse_double_or(text: &str, other: Double) -> (r: Double)
    ensures
        r == (match read_double(text@) {
            Some(x) => x,
            None => other,
        }),
{
    match parse_double(text) {
        Some(x) => x,
        None => other,
    }
}

} // verus!
