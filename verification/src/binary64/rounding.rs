//! Facts about rounding that the arithmetic rests on.
use super::model::{
    log2_floor, nearest_even, nearest_even_scaled, nearest_half_up, round_magnitude, ulp_exponent,
};
use vstd::arithmetic::div_mod::{
    lemma_div_multiples_vanish_quotient, lemma_fundamental_div_mod,
    lemma_fundamental_div_mod_converse, lemma_truncate_middle,
};
use vstd::arithmetic::power2::{
    lemma_pow2_adds, lemma_pow2_pos, lemma_pow2_strictly_increases, lemma_pow2_unfold, pow2,
};
use vstd::prelude::*;

verus! {

/// `2^(k + 1)` is twice `2^k`, and both are positive.
pub proof fn lemma_pow2_double(k: nat)
    ensures
        pow2(k + 1) == 2 * pow2(k),
        pow2(k) > 0,
{
    lemma_pow2_unfold(k + 1);
    lemma_pow2_pos(k);
}

/// Powers of two grow with the exponent.
pub proof fn lemma_pow2_monotone(a: nat, b: nat)
    requires
        a <= b,
    ensures
        pow2(a) <= pow2(b),
{
    if a < b {
        lemma_pow2_strictly_increases(a, b);
    }
}

/// `2^k <= n / d < 2^(k + 1)`, written without division.
pub open spec fn brackets(n: nat, d: nat, k: int) -> bool {
    if k >= 0 {
        d * pow2(k as nat) <= n < 2 * (d * pow2(k as nat))
    } else {
        d <= n * pow2((-k) as nat) < 2 * d
    }
}

/// Only one exponent brackets a ratio, and `log2_floor` returns it.
pub proof fn lemma_log2_floor_unique(n: nat, d: nat, k: int)
    requires
        n > 0,
        d > 0,
        brackets(n, d, k),
    ensures
        log2_floor(n, d) == k,
    decreases
            (if k >= 0 {
                k
            } else {
                -k
            }),
{
    if k > 0 {
        let p = pow2((k - 1) as nat);
        lemma_pow2_double((k - 1) as nat);
        assert(pow2(k as nat) == 2 * p);
        assert(d * (2 * p) == (2 * d) * p) by (nonlinear_arith);
        assert(d * (2 * p) >= 2 * d) by (nonlinear_arith)
            requires
                p >= 1,
                d >= 1,
        ;
        lemma_log2_floor_unique(n, (2 * d) as nat, k - 1);
    } else if k < 0 {
        let j = (-k) as nat;
        let p = pow2((j - 1) as nat);
        lemma_pow2_double((j - 1) as nat);
        assert(pow2(j) == 2 * p);
        assert(n * (2 * p) == (2 * n) * p) by (nonlinear_arith);
        assert(n * (2 * p) >= 2 * n) by (nonlinear_arith)
            requires
                p >= 1,
                n >= 1,
        ;
        if k == -1 {
            lemma_pow2_pos(0);
            assert(pow2(0) == 1) by {
                vstd::arithmetic::power2::lemma2_to64();
            }
            assert(d * 1 == d);
        }
        lemma_log2_floor_unique((2 * n) as nat, d, k + 1);
    } else {
        assert(pow2(0) == 1) by {
            vstd::arithmetic::power2::lemma2_to64();
        }
        assert(d * 1 == d);
    }
}

/// The exponent that `log2_floor` returns brackets the ratio.
pub proof fn lemma_log2_floor_brackets(n: nat, d: nat)
    requires
        n > 0,
        d > 0,
    ensures
        brackets(n, d, log2_floor(n, d)),
    decreases
            (if n < d {
                d - n
            } else {
                0
            }),
            (if n >= d {
                n - d
            } else {
                0
            }),
{
    assert(pow2(0) == 1) by {
        vstd::arithmetic::power2::lemma2_to64();
    }
    if n < d {
        lemma_log2_floor_brackets((2 * n) as nat, d);
        let k1 = log2_floor((2 * n) as nat, d);
        if k1 >= 1 {
            let p = pow2((k1 - 1) as nat);
            lemma_pow2_double((k1 - 1) as nat);
            assert(d * (2 * p) >= 2 * d) by (nonlinear_arith)
                requires
                    p >= 1,
                    d >= 1,
            ;
            assert(false);
        }
        let j = (-k1) as nat;
        lemma_pow2_double(j);
        let p = pow2(j);
        assert(n * (2 * p) == (2 * n) * p) by (nonlinear_arith);
        if k1 == 0 {
            assert(d * 1 == d);
            assert((2 * n) * 1 == 2 * n);
        }
    } else if n >= 2 * d {
        lemma_log2_floor_brackets(n, (2 * d) as nat);
        let k1 = log2_floor(n, (2 * d) as nat);
        if k1 < 0 {
            let j = (-k1) as nat;
            let p = pow2((j - 1) as nat);
            lemma_pow2_double((j - 1) as nat);
            assert(n * (2 * p) >= 2 * n) by (nonlinear_arith)
                requires
                    p >= 1,
                    n >= 1,
            ;
            assert(false);
        }
        let p = pow2(k1 as nat);
        lemma_pow2_double(k1 as nat);
        assert(d * (2 * p) == (2 * d) * p) by (nonlinear_arith);
    } else {
        assert(d * 1 == d);
    }
}

/// Doubling the numerator raises the exponent by one.
pub proof fn lemma_log2_floor_double(n: nat, d: nat)
    requires
        n > 0,
        d > 0,
    ensures
        log2_floor((2 * n) as nat, d) == log2_floor(n, d) + 1,
{
    assert(pow2(0) == 1) by {
        vstd::arithmetic::power2::lemma2_to64();
    }
    lemma_log2_floor_brackets(n, d);
    let k = log2_floor(n, d);
    if k >= 0 {
        let p = pow2(k as nat);
        lemma_pow2_double(k as nat);
        assert(d * (2 * p) == 2 * (d * p)) by (nonlinear_arith);
    } else if k == -1 {
        lemma_pow2_double(0);
        assert(n * 2 == 2 * n);
        assert(d * 1 == d);
    } else {
        let j = (-k) as nat;
        let p = pow2((j - 1) as nat);
        lemma_pow2_double((j - 1) as nat);
        assert(n * (2 * p) == (2 * n) * p) by (nonlinear_arith);
    }
    lemma_log2_floor_unique((2 * n) as nat, d, k + 1);
}

/// Scaling the numerator by `2^j` raises the exponent by `j`.
pub proof fn lemma_log2_floor_scale(n: nat, d: nat, j: nat)
    requires
        n > 0,
        d > 0,
    ensures
        log2_floor(n * pow2(j), d) == log2_floor(n, d) + j,
    decreases j,
{
    if j == 0 {
        assert(pow2(0) == 1) by {
            vstd::arithmetic::power2::lemma2_to64();
        }
        assert(n * 1 == n);
    } else {
        let p = pow2((j - 1) as nat);
        lemma_pow2_double((j - 1) as nat);
        lemma_log2_floor_scale(n, d, (j - 1) as nat);
        assert(n * p > 0) by (nonlinear_arith)
            requires
                n > 0,
                p > 0,
        ;
        lemma_log2_floor_double(n * p, d);
        assert(n * (2 * p) == 2 * (n * p)) by (nonlinear_arith);
    }
}

/// A common factor of numerator and denominator does not change the rounding.
pub proof fn lemma_nearest_even_cancel(n: nat, d: nat, c: nat)
    requires
        d > 0,
        c > 0,
    ensures
        nearest_even(n * c, d * c) == nearest_even(n, d),
{
    let r = n % d;
    lemma_div_multiples_vanish_quotient(c as int, n as int, d as int);
    lemma_truncate_middle(n as int, c as int, d as int);
    assert(n * c == c * n && d * c == c * d) by (nonlinear_arith);
    assert((n * c) / (d * c) == n / d);
    assert((n * c) % (d * c) == c * r);
    assert(2 * (c * r) > c * d <==> 2 * r > d) by (nonlinear_arith)
        requires
            c > 0,
    ;
    assert(2 * (c * r) == c * d <==> 2 * r == d) by (nonlinear_arith)
        requires
            c > 0,
    ;
}

/// A multiple of the denominator rounds to the exact quotient.
pub proof fn lemma_nearest_even_exact(x: nat, d: nat)
    requires
        d > 0,
    ensures
        nearest_even(x * d, d) == x,
{
    lemma_fundamental_div_mod_converse((x * d) as int, d as int, x as int, 0);
}

/// `nearest_even` is a nearest integer: it lies within one half of `n / d`,
/// and where `n / d` is midway between two integers it is the even one.
pub proof fn lemma_nearest_even_is_nearest(n: nat, d: nat)
    requires
        d > 0,
    ensures
        2 * (nearest_even(n, d) * d) - d <= 2 * n <= 2 * (nearest_even(n, d) * d) + d,
        2 * n == 2 * (nearest_even(n, d) * d) - d || 2 * n == 2 * (nearest_even(n, d) * d) + d
            ==> nearest_even(n, d) % 2 == 0,
{
    let q = n / d;
    lemma_fundamental_div_mod(n as int, d as int);
    assert((q + 1) * d == q * d + d && d * q == q * d) by (nonlinear_arith);
}

/// `nearest_half_up` is a nearest integer: `n / d` is less than one half
/// above it and at most one half below it, so that a value midway between
/// two integers goes to the larger.
pub proof fn lemma_nearest_half_up_is_nearest(n: nat, d: nat)
    requires
        d > 0,
    ensures
        2 * (nearest_half_up(n, d) * d) - d <= 2 * n < 2 * (nearest_half_up(n, d) * d) + d,
{
    let r = nearest_half_up(n, d);
    lemma_fundamental_div_mod((2 * n + d) as int, (2 * d) as int);
    assert((2 * d) * r == 2 * (r * d)) by (nonlinear_arith);
}

/// Rounding from a truncated quotient: with `q = n / d` and a flag that says
/// whether anything was cut off, `q / 2^k` rounds as `n / (d * 2^k)` does.
pub open spec fn round_truncated(q: nat, k: nat, sticky: bool) -> nat {
    let unit = pow2(k);
    let half = pow2((k - 1) as nat);
    let whole = q / unit;
    let rest = q % unit;
    if rest > half || (rest == half && (sticky || whole % 2 == 1)) {
        whole + 1
    } else {
        whole
    }
}

pub proof fn lemma_round_truncated(n: nat, d: nat, k: nat)
    requires
        d > 0,
        k >= 1,
    ensures
        nearest_even(n, d * pow2(k)) == round_truncated(n / d, k, n % d != 0),
{
    let q = n / d;
    let r0 = n % d;
    let half = pow2((k - 1) as nat);
    let unit = pow2(k);
    lemma_pow2_double((k - 1) as nat);
    assert(unit == 2 * half);
    let whole = q / unit;
    let rest = q % unit;
    lemma_fundamental_div_mod(n as int, d as int);
    lemma_fundamental_div_mod(q as int, unit as int);
    assert(n == d * q + r0);
    assert(q == unit * whole + rest);
    let big = d * unit;
    let rem = d * rest + r0;
    assert(n == whole * big + rem) by (nonlinear_arith)
        requires
            n == d * q + r0,
            q == unit * whole + rest,
            big == d * unit,
            rem == d * rest + r0,
    ;
    assert(0 <= rem < big) by (nonlinear_arith)
        requires
            rem == d * rest + r0,
            big == d * unit,
            0 <= rest < unit,
            0 <= r0 < d,
    ;
    lemma_fundamental_div_mod_converse(n as int, big as int, whole as int, rem as int);
    assert(n / big == whole);
    assert(n % big == rem);
    assert(big == 2 * (d * half)) by (nonlinear_arith)
        requires
            big == d * unit,
            unit == 2 * half,
    ;
    if rest > half {
        assert(d * rest >= d * half + d) by (nonlinear_arith)
            requires
                rest >= half + 1,
                d > 0,
        ;
    } else if rest == half {
    } else {
        assert(d * rest + d <= d * half) by (nonlinear_arith)
            requires
                rest + 1 <= half,
                d > 0,
        ;
    }
}

/// Scaling the numerator by `2^j` and the scale by `2^-j` leaves the
/// rounded integer unchanged.
pub proof fn lemma_nearest_even_scaled_shift(n: nat, d: nat, s: int, j: nat)
    requires
        d > 0,
    ensures
        nearest_even_scaled(n * pow2(j), d, s + j) == nearest_even_scaled(n, d, s),
{
    let pj = pow2(j);
    lemma_pow2_pos(j);
    if s >= 0 {
        let ps = pow2(s as nat);
        lemma_pow2_pos(s as nat);
        lemma_pow2_adds(s as nat, j);
        assert(d * ps > 0) by (nonlinear_arith)
            requires
                d > 0,
                ps > 0,
        ;
        assert(d * (ps * pj) == (d * ps) * pj) by (nonlinear_arith);
        lemma_nearest_even_cancel(n, d * ps, pj);
    } else if s + j >= 0 {
        let a = (-s) as nat;
        let b = (s + j) as nat;
        let pa = pow2(a);
        let pb = pow2(b);
        lemma_pow2_pos(b);
        lemma_pow2_adds(a, b);
        assert(n * (pa * pb) == (n * pa) * pb) by (nonlinear_arith);
        lemma_nearest_even_cancel(n * pa, d, pb);
    } else {
        let a = (-(s + j)) as nat;
        let pa = pow2(a);
        lemma_pow2_adds(j, a);
        assert(n * (pj * pa) == (n * pj) * pa) by (nonlinear_arith);
    }
}

/// The rounded magnitude depends on the value alone: moving a power of two
/// between the numerator and the exponent does not change it.
pub proof fn lemma_round_magnitude_scale(n: nat, d: nat, e: int, j: nat)
    requires
        d > 0,
    ensures
        round_magnitude(n * pow2(j), d, e - j) == round_magnitude(n, d, e),
{
    lemma_pow2_pos(j);
    if n == 0 {
        assert(0 * pow2(j) == 0);
    } else {
        assert(n * pow2(j) > 0) by (nonlinear_arith)
            requires
                n > 0,
                pow2(j) > 0,
        ;
        lemma_log2_floor_scale(n, d, j);
        let ulp = ulp_exponent(n, d, e);
        assert(ulp_exponent(n * pow2(j), d, e - j) == ulp);
        lemma_nearest_even_scaled_shift(n, d, ulp - e, j);
    }
}

} // verus!
