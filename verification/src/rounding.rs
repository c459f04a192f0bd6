//! Rounding of exact non-negative rationals to 53 significant binary digits.

use vstd::arithmetic::div_mod::*;
use vstd::arithmetic::mul::*;
use vstd::arithmetic::power2::*;
use vstd::prelude::*;

verus! {

/// `num / den` rounded to the nearest integer, halfway cases to the even one.
pub open spec fn round_half_even(num: nat, den: nat) -> nat {
    let q = num / den;
    let r = num % den;
    if 2 * r < den {
        q
    } else if 2 * r > den {
        q + 1
    } else {
        q + q % 2
    }
}

/// The least `x` for which `num / den` is below `2^(53 + x)`.
pub open spec fn fit(num: nat, den: nat) -> nat
    decreases (if num < den * pow2(53) { 0 } else { num - den * pow2(53) + 1 }),
{
    if den == 0 || num < den * pow2(53) {
        0
    } else {
        proof {
            lemma_pow2_pos(53);
            assert((2 * den) * pow2(53) == 2 * (den * pow2(53))) by (nonlinear_arith);
            assert(den * pow2(53) > 0) by (nonlinear_arith)
                requires
                    den > 0,
                    pow2(53) > 0,
            ;
        }
        1 + fit(num, 2 * den)
    }
}

/// The bit pattern of positive infinity.
pub const INFINITE: u64 = 0x7FF0_0000_0000_0000;

/// The binary64 pattern nearest to `num / den`, counted in units of `2^-1074`: the pattern of
/// `m * 2^x` with `m < 2^53` is `x * 2^52 + m`, and all that is too large becomes infinite.
pub open spec fn nearest_pattern(num: nat, den: nat) -> nat {
    let x = fit(num, den);
    let pattern = x * 0x10_0000_0000_0000 + round_half_even(num, den * pow2(x));
    if pattern < INFINITE {
        pattern as nat
    } else {
        INFINITE as nat
    }
}

pub proof fn lemma_fit_is(num: nat, den: nat, x: nat)
    requires
        den > 0,
        num < den * pow2(53 + x),
        x == 0 || num >= den * pow2((52 + x) as nat),
    ensures
        fit(num, den) == x,
    decreases x,
{
    if x > 0 {
        lemma_pow2_unfold(53 + x);
        assert((2 * den) * pow2((52 + x) as nat) == den * (2 * pow2((52 + x) as nat)))
            by (nonlinear_arith);
        if x > 1 {
            lemma_pow2_unfold((52 + x) as nat);
            assert((2 * den) * pow2((51 + x) as nat) == den * (2 * pow2((51 + x) as nat)))
                by (nonlinear_arith);
            lemma_pow2_strictly_increases(53, (52 + x) as nat);
        }
        assert(den * pow2(53) <= den * pow2((52 + x) as nat)) by (nonlinear_arith)
            requires
                pow2(53) <= pow2((52 + x) as nat),
        ;
        lemma_fit_is(num, 2 * den, (x - 1) as nat);
    }
}

pub proof fn lemma_fit_bound(num: nat, den: nat)
    requires
        den > 0,
    ensures
        num < den * pow2(53 + fit(num, den)),
        fit(num, den) > 0 ==> num >= den * pow2((52 + fit(num, den)) as nat),
    decreases (if num < den * pow2(53) { 0 } else { num - den * pow2(53) + 1 }),
{
    if num >= den * pow2(53) {
        lemma_pow2_pos(53);
        assert((2 * den) * pow2(53) == 2 * (den * pow2(53))) by (nonlinear_arith);
        assert(den * pow2(53) > 0) by (nonlinear_arith)
            requires
                den > 0,
                pow2(53) > 0,
        ;
        lemma_fit_bound(num, 2 * den);
        let y = fit(num, 2 * den);
        lemma_pow2_unfold(54 + y);
        assert((2 * den) * pow2(53 + y) == den * (2 * pow2(53 + y))) by (nonlinear_arith);
        if y > 0 {
            lemma_pow2_unfold(53 + y);
            assert((2 * den) * pow2((52 + y) as nat) == den * (2 * pow2((52 + y) as nat)))
                by (nonlinear_arith);
        }
    }
}

pub proof fn lemma_round_scales(num: nat, den: nat, c: nat)
    requires
        den > 0,
        c > 0,
    ensures
        round_half_even(c * num, c * den) == round_half_even(num, den),
{
    let q = num / den;
    let r = num % den;
    lemma_fundamental_div_mod(num as int, den as int);
    assert(c * num == q * (c * den) + c * r) by (nonlinear_arith)
        requires
            num == den * q + r,
    ;
    assert(0 <= c * r < c * den) by (nonlinear_arith)
        requires
            0 <= r < den,
            c > 0,
    ;
    lemma_fundamental_div_mod_converse((c * num) as int, (c * den) as int, q as int, (c * r) as int);
    assert(2 * (c * r) < c * den <==> 2 * r < den) by (nonlinear_arith)
        requires
            c > 0,
    ;
    assert(2 * (c * r) > c * den <==> 2 * r > den) by (nonlinear_arith)
        requires
            c > 0,
    ;
}

pub proof fn lemma_nearest_scales(num: nat, den: nat, c: nat)
    requires
        den > 0,
        c > 0,
    ensures
        nearest_pattern(c * num, c * den) == nearest_pattern(num, den),
{
    let x = fit(num, den);
    lemma_fit_bound(num, den);
    assert((c * den) * pow2(53 + x) == c * (den * pow2(53 + x))) by (nonlinear_arith);
    assert(c * num < c * (den * pow2(53 + x))) by (nonlinear_arith)
        requires
            num < den * pow2(53 + x),
            c > 0,
    ;
    if x > 0 {
        assert((c * den) * pow2((52 + x) as nat) == c * (den * pow2((52 + x) as nat)))
            by (nonlinear_arith);
        assert(c * num >= c * (den * pow2((52 + x) as nat))) by (nonlinear_arith)
            requires
                num >= den * pow2((52 + x) as nat),
        ;
    }
    assert(c * den > 0) by (nonlinear_arith)
        requires
            c > 0,
            den > 0,
    ;
    lemma_fit_is(c * num, c * den, x);
    lemma_pow2_pos(x);
    assert(den * pow2(x) > 0) by (nonlinear_arith)
        requires
            den > 0,
            pow2(x) > 0,
    ;
    lemma_round_scales(num, den * pow2(x), c);
    assert((c * den) * pow2(x) == c * (den * pow2(x))) by (nonlinear_arith);
}

/// Equal quotients are rounded alike.
pub proof fn lemma_nearest_same_value(n1: nat, d1: nat, n2: nat, d2: nat)
    requires
        d1 > 0,
        d2 > 0,
        n1 * d2 == n2 * d1,
    ensures
        nearest_pattern(n1, d1) == nearest_pattern(n2, d2),
{
    lemma_nearest_scales(n1, d1, d2);
    lemma_nearest_scales(n2, d2, d1);
    assert(d2 * n1 == d1 * n2) by (nonlinear_arith)
        requires
            n1 * d2 == n2 * d1,
    ;
    assert(d2 * d1 == d1 * d2) by (nonlinear_arith);
}

/// `1` where a division leaves a remainder, else `0`.
pub open spec fn inexact(num: nat, den: nat) -> nat {
    if num % den == 0 {
        0
    } else {
        1
    }
}

proof fn lemma_sticky_below(num: nat, den: nat, j: nat)
    requires
        den > 0,
    ensures
        num < den * pow2(j) <==> 2 * (num / den) + inexact(num, den) < 2 * pow2(j),
{
    let q = num / den;
    let r = num % den;
    lemma_fundamental_div_mod(num as int, den as int);
    lemma_pow2_pos(j);
    if q < pow2(j) {
        assert(den * q + r < den * pow2(j)) by (nonlinear_arith)
            requires
                r < den,
                q + 1 <= pow2(j),
        ;
    } else {
        assert(den * q >= den * pow2(j)) by (nonlinear_arith)
            requires
                q >= pow2(j),
        ;
    }
}

proof fn lemma_sticky_round(num: nat, den: nat, h: nat)
    requires
        den > 0,
        h >= 1,
    ensures
        round_half_even(num, den * pow2(h)) == round_half_even(
            2 * (num / den) + inexact(num, den),
            2 * pow2(h),
        ),
{
    let q = num / den;
    let r = num % den;
    let t = inexact(num, den);
    let p = pow2(h);
    lemma_pow2_pos(h);
    lemma_pow2_unfold(h);
    let half = pow2((h - 1) as nat);
    let qq = q / p;
    let qr = q % p;
    lemma_fundamental_div_mod(num as int, den as int);
    lemma_fundamental_div_mod(q as int, p as int);
    let rem = den * qr + r;
    assert(num == qq * (den * p) + rem) by (nonlinear_arith)
        requires
            num == den * q + r,
            q == p * qq + qr,
            rem == den * qr + r,
    ;
    assert(0 <= rem < den * p) by (nonlinear_arith)
        requires
            0 <= r < den,
            0 <= qr,
            qr + 1 <= p,
            rem == den * qr + r,
    ;
    lemma_fundamental_div_mod_converse(num as int, (den * p) as int, qq as int, rem as int);
    let rem2 = 2 * qr + t;
    assert(2 * q + t == qq * (2 * p) + rem2) by (nonlinear_arith)
        requires
            q == p * qq + qr,
            rem2 == 2 * qr + t,
    ;
    lemma_fundamental_div_mod_converse((2 * q + t) as int, (2 * p) as int, qq as int, rem2 as int);
    if qr < half {
        assert(2 * rem < den * p) by (nonlinear_arith)
            requires
                rem == den * qr + r,
                r < den,
                qr + 1 <= half,
                p == 2 * half,
        ;
    } else {
        assert(2 * (den * qr) >= den * p) by (nonlinear_arith)
            requires
                qr >= half,
                p == 2 * half,
        ;
        if qr > half {
            assert(2 * (den * qr) > den * p) by (nonlinear_arith)
                requires
                    qr >= half + 1,
                    den > 0,
                    p == 2 * half,
            ;
        } else {
            assert(2 * (den * qr) == den * p) by (nonlinear_arith)
                requires
                    qr == half,
                    p == 2 * half,
            ;
        }
    }
}

/// Below the rounding position only whether something is left over matters.
pub proof fn lemma_nearest_sticky_down(num: nat, den: nat, f: nat)
    requires
        den > 0,
        f >= 1,
    ensures
        nearest_pattern(num, den * pow2(f)) == nearest_pattern(
            2 * (num / den) + inexact(num, den),
            2 * pow2(f),
        ),
{
    let s = 2 * (num / den) + inexact(num, den);
    let d = den * pow2(f);
    lemma_pow2_pos(f);
    assert(d > 0) by (nonlinear_arith)
        requires
            den > 0,
            pow2(f) > 0,
            d == den * pow2(f),
    ;
    let x = fit(num, d);
    lemma_fit_bound(num, d);
    lemma_pow2_adds(f, 53 + x);
    assert(d * pow2(53 + x) == den * (pow2(f) * pow2(53 + x))) by (nonlinear_arith)
        requires
            d == den * pow2(f),
    ;
    assert((2 * pow2(f)) * pow2(53 + x) == 2 * (pow2(f) * pow2(53 + x))) by (nonlinear_arith);
    lemma_sticky_below(num, den, f + (53 + x));
    if x > 0 {
        let y = (52 + x) as nat;
        lemma_pow2_adds(f, y);
        assert(d * pow2(y) == den * (pow2(f) * pow2(y))) by (nonlinear_arith)
            requires
                d == den * pow2(f),
        ;
        assert((2 * pow2(f)) * pow2(y) == 2 * (pow2(f) * pow2(y))) by (nonlinear_arith);
        lemma_sticky_below(num, den, f + y);
    }
    lemma_fit_is(s, 2 * pow2(f), x);
    lemma_pow2_adds(f, x);
    assert(d * pow2(x) == den * (pow2(f) * pow2(x))) by (nonlinear_arith)
        requires
            d == den * pow2(f),
    ;
    assert((2 * pow2(f)) * pow2(x) == 2 * (pow2(f) * pow2(x))) by (nonlinear_arith);
    lemma_sticky_round(num, den, f + x);
}

/// The same for a quotient that is scaled up and has more than 53 digits of its own.
pub proof fn lemma_nearest_sticky_up(num: nat, den: nat, e: nat)
    requires
        den > 0,
        num / den >= pow2(54),
    ensures
        nearest_pattern(num * pow2(e), den) == nearest_pattern(
            (2 * (num / den) + inexact(num, den)) * pow2(e),
            2,
        ),
{
    let s = 2 * (num / den) + inexact(num, den);
    let n = num * pow2(e);
    let x = fit(n, den);
    lemma_fit_bound(n, den);
    lemma_pow2_pos(e);
    if x <= e + 1 {
        // the quotient alone has too many digits for so small an exponent
        lemma_fundamental_div_mod(num as int, den as int);
        assert(n >= den * (pow2(54) * pow2(e))) by (nonlinear_arith)
            requires
                n == num * pow2(e),
                num >= den * (num / den),
                num / den >= pow2(54),
        ;
        lemma_pow2_adds(54, e);
        if 53 + x < 54 + e {
            lemma_pow2_strictly_increases(53 + x, 54 + e);
        }
        assert(den * pow2(53 + x) <= den * pow2(54 + e)) by (nonlinear_arith)
            requires
                pow2(53 + x) <= pow2(54 + e),
        ;
        assert(false);
    }
    let y = (x - e) as nat;
    lemma_pow2_adds(e, 53 + y);
    assert(e + (53 + y) == 53 + x);
    assert(den * pow2(53 + x) == pow2(e) * (den * pow2(53 + y))) by (nonlinear_arith)
        requires
            pow2(53 + x) == pow2(e) * pow2(53 + y),
    ;
    assert(num < den * pow2(53 + y)) by (nonlinear_arith)
        requires
            num * pow2(e) < pow2(e) * (den * pow2(53 + y)),
            pow2(e) > 0,
    ;
    lemma_sticky_below(num, den, 53 + y);
    assert(s * pow2(e) < 2 * pow2(53 + x)) by (nonlinear_arith)
        requires
            s < 2 * pow2(53 + y),
            pow2(e) > 0,
            pow2(53 + x) == pow2(e) * pow2(53 + y),
    ;
    let z = (52 + y) as nat;
    let zx = (52 + x) as nat;
    lemma_pow2_adds(e, z);
    assert(e + z == zx);
    assert(den * pow2(zx) == pow2(e) * (den * pow2(z))) by (nonlinear_arith)
        requires
            pow2(zx) == pow2(e) * pow2(z),
    ;
    assert(num >= den * pow2(z)) by (nonlinear_arith)
        requires
            num * pow2(e) >= pow2(e) * (den * pow2(z)),
            pow2(e) > 0,
    ;
    lemma_sticky_below(num, den, z);
    assert(s * pow2(e) >= 2 * pow2(zx)) by (nonlinear_arith)
        requires
            s >= 2 * pow2(z),
            pow2(e) > 0,
            pow2(zx) == pow2(e) * pow2(z),
    ;
    lemma_fit_is(s * pow2(e), 2, x);
    lemma_pow2_adds(e, y);
    assert(e + y == x);
    lemma_pow2_pos(y);
    lemma_sticky_round(num, den, y);
    assert(den * pow2(y) > 0) by (nonlinear_arith)
        requires
            den > 0,
            pow2(y) > 0,
    ;
    lemma_round_scales(num, den * pow2(y), pow2(e));
    assert(pow2(e) * (den * pow2(y)) == den * pow2(x)) by (nonlinear_arith)
        requires
            pow2(x) == pow2(e) * pow2(y),
    ;
    assert(pow2(e) * num == num * pow2(e)) by (nonlinear_arith);
    lemma_round_scales(s, 2 * pow2(y), pow2(e));
    assert(pow2(e) * (2 * pow2(y)) == 2 * pow2(x)) by (nonlinear_arith)
        requires
            pow2(x) == pow2(e) * pow2(y),
    ;
    assert(pow2(e) * s == s * pow2(e)) by (nonlinear_arith);
}

/// Whether `s` is the integer part of the square root of `n`.
pub open spec fn is_root(n: nat, s: nat) -> bool {
    s * s <= n < (s + 1) * (s + 1)
}

/// The integer part of the square root of `n`.
pub open spec fn integer_root_of(n: nat) -> nat {
    choose|s: nat| #[trigger] is_root(n, s)
}

/// The least `x` for which the square root of `n` is below `2^(53 + x)`.
pub open spec fn root_fit(n: nat) -> nat
    decreases n,
{
    if n < pow2(106) {
        0
    } else {
        proof {
            lemma_pow2_pos(106);
        }
        1 + root_fit(n / 4)
    }
}

/// The binary64 pattern nearest to the square root of `n`.
pub open spec fn root_pattern(n: nat) -> nat {
    let x = root_fit(n);
    let q = integer_root_of(n / pow2(2 * x));
    let middle = (2 * q + 1) * (2 * q + 1) * pow2(2 * x);
    x * 0x10_0000_0000_0000 + (if 4 * n < middle {
        q
    } else if 4 * n > middle {
        q + 1
    } else {
        q + q % 2
    })
}

pub proof fn lemma_root_unique(n: nat, s: nat, t: nat)
    requires
        is_root(n, s),
        is_root(n, t),
    ensures
        s == t,
{
    if s < t {
        assert((s + 1) * (s + 1) <= t * t) by (nonlinear_arith)
            requires
                s + 1 <= t,
        ;
    } else if t < s {
        assert((t + 1) * (t + 1) <= s * s) by (nonlinear_arith)
            requires
                t + 1 <= s,
        ;
    }
}

pub proof fn lemma_root_fit_is(n: nat, x: nat)
    requires
        n < pow2(106 + 2 * x),
        x == 0 || n >= pow2((104 + 2 * x) as nat),
    ensures
        root_fit(n) == x,
    decreases x,
{
    if x > 0 {
        lemma_pow2_adds(2, (104 + 2 * x) as nat);
        lemma2_to64();
        assert(2 + (104 + 2 * x) == 106 + 2 * x);
        if x > 1 {
            lemma_pow2_adds(2, (102 + 2 * x) as nat);
            assert(2 + (102 + 2 * x) == 104 + 2 * x);
            lemma_pow2_strictly_increases(106, (104 + 2 * x) as nat);
        }
        lemma_root_fit_is(n / 4, (x - 1) as nat);
    }
}

proof fn lemma_round_monotone(n: nat, m: nat, den: nat)
    requires
        den > 0,
        n <= m,
    ensures
        round_half_even(n, den) <= round_half_even(m, den),
{
    lemma_div_is_ordered(n as int, m as int, den as int);
    if n / den == m / den {
        lemma_fundamental_div_mod(n as int, den as int);
        lemma_fundamental_div_mod(m as int, den as int);
        assert(n % den <= m % den);
    }
}

pub proof fn lemma_round_between(n: nat, den: nat, low: nat, high: nat)
    requires
        den > 0,
        low * den <= n < high * den,
    ensures
        low <= round_half_even(n, den) <= high,
{
    lemma_fundamental_div_mod(n as int, den as int);
    let q = n / den;
    let r = n % den;
    assert(low <= q) by (nonlinear_arith)
        requires
            low * den <= n,
            n == den * q + r,
            r < den,
            den > 0,
    ;
    assert(q < high) by (nonlinear_arith)
        requires
            n < high * den,
            n == den * q + r,
            den > 0,
    ;
}

proof fn lemma_nearest_monotone_over(n: nat, m: nat, den: nat)
    requires
        den > 0,
        n <= m,
    ensures
        nearest_pattern(n, den) <= nearest_pattern(m, den),
{
    let x = fit(n, den);
    let y = fit(m, den);
    lemma_fit_bound(n, den);
    lemma_fit_bound(m, den);
    lemma_pow2_pos(x);
    lemma_pow2_pos(y);
    assert(den * pow2(x) > 0 && den * pow2(y) > 0) by (nonlinear_arith)
        requires
            den > 0,
            pow2(x) > 0,
            pow2(y) > 0,
    ;
    if x == y {
        lemma_round_monotone(n, m, den * pow2(x));
    } else {
        lemma2_to64();
        lemma2_to64_rest();
        if x > y {
            lemma_pow2_adds(52, x);
            if 53 + y < 52 + x {
                lemma_pow2_strictly_increases((53 + y) as nat, (52 + x) as nat);
            }
            assert(den * pow2((53 + y) as nat) <= den * pow2((52 + x) as nat)) by (nonlinear_arith)
                requires
                    pow2((53 + y) as nat) <= pow2((52 + x) as nat),
            ;
            assert(false);
        }
        lemma_pow2_adds(53, x);
        lemma_pow2_adds(52, y);
        lemma_pow2_adds(53, y);
        assert(den * pow2((53 + x) as nat) == pow2(53) * (den * pow2(x))) by (nonlinear_arith)
            requires
                pow2((53 + x) as nat) == pow2(53) * pow2(x),
        ;
        assert(den * pow2((52 + y) as nat) == pow2(52) * (den * pow2(y))) by (nonlinear_arith)
            requires
                pow2((52 + y) as nat) == pow2(52) * pow2(y),
        ;
        assert(den * pow2((53 + y) as nat) == pow2(53) * (den * pow2(y))) by (nonlinear_arith)
            requires
                pow2((53 + y) as nat) == pow2(53) * pow2(y),
        ;
        assert(0 * (den * pow2(x)) == 0);
        lemma_round_between(n, den * pow2(x), 0, pow2(53));
        lemma_round_between(m, den * pow2(y), pow2(52), pow2(53));
        assert(x * 0x10_0000_0000_0000 + pow2(53) <= y * 0x10_0000_0000_0000 + pow2(52));
    }
}

/// A larger quotient is not rounded to a smaller number.
pub proof fn lemma_nearest_monotone(n1: nat, d1: nat, n2: nat, d2: nat)
    requires
        d1 > 0,
        d2 > 0,
        n1 * d2 <= n2 * d1,
    ensures
        nearest_pattern(n1, d1) <= nearest_pattern(n2, d2),
{
    lemma_nearest_scales(n1, d1, d2);
    lemma_nearest_scales(n2, d2, d1);
    lemma_mul_is_commutative(n1 as int, d2 as int);
    lemma_mul_is_commutative(n2 as int, d1 as int);
    lemma_mul_is_commutative(d1 as int, d2 as int);
    assert(d2 * d1 > 0) by (nonlinear_arith)
        requires
            d1 > 0,
            d2 > 0,
    ;
    lemma_nearest_monotone_over(d2 * n1, d1 * n2, d2 * d1);
}

} // verus!
