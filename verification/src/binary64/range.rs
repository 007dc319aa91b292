//! How large a rounded result is: which results are finite, and which
//! exponent they have.
use super::model::{
    from_integer, log2_floor, nearest_even, nearest_even_scaled, nearest_half_up, nearest_integer,
    product, quotient, round_magnitude, ulp_exponent, with_sign, Binary64, HIDDEN_BIT,
    INFINITY_BITS,
};
use super::rounding::{
    brackets, lemma_log2_floor_brackets, lemma_log2_floor_double, lemma_log2_floor_scale,
    lemma_nearest_even_scaled_shift, lemma_nearest_half_up_is_nearest, lemma_pow2_double,
    lemma_pow2_monotone,
};
use vstd::arithmetic::div_mod::lemma_fundamental_div_mod;
use vstd::arithmetic::power2::{lemma2_to64, lemma2_to64_rest, lemma_pow2_adds, lemma_pow2_pos, pow2};
use vstd::prelude::*;

verus! {

/// A finite number with a full significand: neither zero nor subnormal.
pub open spec fn is_normal(x: Binary64) -> bool {
    HIDDEN_BIT <= x.magnitude() < INFINITY_BITS
}

/// A ratio below `2^k` has an exponent below `k`.
pub proof fn lemma_log2_floor_below(n: nat, d: nat, k: nat)
    requires
        n > 0,
        d > 0,
        n < d * pow2(k),
    ensures
        log2_floor(n, d) < k,
{
    lemma_log2_floor_brackets(n, d);
    let l = log2_floor(n, d);
    if l >= k {
        lemma_pow2_monotone(k, l as nat);
        assert(d * pow2(k) <= d * pow2(l as nat)) by (nonlinear_arith)
            requires
                pow2(k) <= pow2(l as nat),
                d > 0,
        ;
    }
}

/// A ratio of at least `2^k` has an exponent of at least `k`.
pub proof fn lemma_log2_floor_at_least(n: nat, d: nat, k: nat)
    requires
        n > 0,
        d > 0,
        n >= d * pow2(k),
    ensures
        log2_floor(n, d) >= k,
{
    lemma_log2_floor_brackets(n, d);
    let l = log2_floor(n, d);
    lemma_pow2_pos(k);
    assert(d * pow2(k) >= d) by (nonlinear_arith)
        requires
            pow2(k) >= 1,
            d > 0,
    ;
    if 0 <= l < k {
        lemma_pow2_double(l as nat);
        lemma_pow2_monotone((l + 1) as nat, k);
        assert(d * (2 * pow2(l as nat)) <= d * pow2(k)) by (nonlinear_arith)
            requires
                2 * pow2(l as nat) <= pow2(k),
                d > 0,
        ;
        assert(d * (2 * pow2(l as nat)) == 2 * (d * pow2(l as nat))) by (nonlinear_arith);
    } else if l < 0 {
        let p = pow2((-l - 1) as nat);
        lemma_pow2_double((-l - 1) as nat);
        assert(n * (2 * p) >= 2 * n) by (nonlinear_arith)
            requires
                p >= 1,
        ;
    }
}

/// The rounded significand has at most 53 bits and one carry: it is at most
/// `2^53`. Unless the value falls below the normal numbers, it is at least
/// `2^52`.
pub proof fn lemma_rounded_significand(n: nat, d: nat, e: int)
    requires
        n > 0,
        d > 0,
    ensures
        nearest_even_scaled(n, d, ulp_exponent(n, d, e) - e) <= 0x0020_0000_0000_0000,
        log2_floor(n, d) + e - 52 >= -1074 ==> nearest_even_scaled(
            n,
            d,
            ulp_exponent(n, d, e) - e,
        ) >= 0x0010_0000_0000_0000,
{
    let l = log2_floor(n, d);
    let s = ulp_exponent(n, d, e) - e;
    assert(s >= l - 52);
    // Scale the numerator until exponent and shift are both positive, so
    // that only one arrangement of signs is left.
    let j: nat = (if l < 52 {
        52 - l
    } else {
        0
    } + if s < 0 {
        -s
    } else {
        0
    }) as nat;
    let scaled = n * pow2(j);
    let lift = (l + j) as nat;
    let shift = (s + j) as nat;
    lemma_pow2_pos(j);
    assert(scaled > 0) by (nonlinear_arith)
        requires
            scaled == n * pow2(j),
            n > 0,
            pow2(j) > 0,
    ;
    lemma_log2_floor_scale(n, d, j);
    lemma_nearest_even_scaled_shift(n, d, s, j);
    lemma_log2_floor_brackets(scaled, d);
    assert(brackets(scaled, d, lift as int));
    let unit = d * pow2(shift);
    lemma_pow2_pos(shift);
    assert(unit > 0) by (nonlinear_arith)
        requires
            unit == d * pow2(shift),
            d > 0,
            pow2(shift) > 0,
    ;
    let rounded = nearest_even(scaled, unit);
    assert(nearest_even_scaled(n, d, s) == rounded);
    let q = scaled / unit;
    lemma_fundamental_div_mod(scaled as int, unit as int);
    lemma2_to64();
    lemma2_to64_rest();
    // Above: scaled < d * 2^(lift + 1) <= unit * 2^53.
    lemma_pow2_double(lift);
    lemma_pow2_monotone(lift + 1, shift + 53);
    lemma_pow2_adds(shift, 53);
    assert(scaled < unit * pow2(53)) by (nonlinear_arith)
        requires
            scaled < 2 * (d * pow2(lift)),
            2 * pow2(lift) <= pow2(shift + 53),
            pow2(shift + 53) == pow2(shift) * pow2(53),
            unit == d * pow2(shift),
            d > 0,
    ;
    assert(q < pow2(53)) by (nonlinear_arith)
        requires
            scaled == unit * q + scaled % unit,
            scaled % unit >= 0,
            scaled < unit * pow2(53),
            unit > 0,
    ;
    if l + e - 52 >= -1074 {
        // Below: scaled >= d * 2^lift == unit * 2^52.
        assert(shift + 52 == lift);
        lemma_pow2_adds(shift, 52);
        assert(scaled >= unit * pow2(52)) by (nonlinear_arith)
            requires
                scaled >= d * pow2(lift),
                pow2(lift) == pow2(shift) * pow2(52),
                unit == d * pow2(shift),
        ;
        assert(q >= pow2(52)) by (nonlinear_arith)
            requires
                scaled == unit * q + scaled % unit,
                scaled % unit < unit,
                scaled >= unit * pow2(52),
                unit > 0,
        ;
    }
}

/// What a rounded magnitude stands for: where the result is finite, its
/// significand and exponent give the value's nearest multiple of its unit in
/// the last place. The exponent is that of the unit, or one more where the
/// significand carried into the next power of two.
pub proof fn lemma_round_magnitude_decodes(n: nat, d: nat, e: int)
    requires
        n > 0,
        d > 0,
        round_magnitude(n, d, e) < INFINITY_BITS,
    ensures
        ({
            let r = with_sign(false, round_magnitude(n, d, e));
            let ulp = ulp_exponent(n, d, e);
            &&& ulp <= r.exponent() <= ulp + 1
            &&& r.significand() * pow2((r.exponent() - ulp) as nat) == nearest_even_scaled(
                n,
                d,
                ulp - e,
            )
        }),
{
    lemma_rounded_significand(n, d, e);
    lemma2_to64();
    let r = with_sign(false, round_magnitude(n, d, e));
    let rounded = nearest_even_scaled(n, d, ulp_exponent(n, d, e) - e);
    if rounded == 0x0020_0000_0000_0000 {
        assert(r.significand() * 2 == rounded);
    } else {
        assert(r.significand() * 1 == rounded);
    }
}

/// An integer below `2^53` in size is represented exactly: its significand
/// is the integer's size scaled by a power of two.
pub proof fn lemma_from_integer_exact(i: int)
    requires
        i != 0,
        -0x0020_0000_0000_0000 < i < 0x0020_0000_0000_0000,
    ensures
        from_integer(i).is_negative() == (i < 0),
        from_integer(i).exponent() <= 0,
        from_integer(i).significand() == (if i < 0 {
            -i
        } else {
            i
        }) * pow2((-from_integer(i).exponent()) as nat),
{
    let n = (if i < 0 {
        -i
    } else {
        i
    }) as nat;
    lemma2_to64();
    lemma2_to64_rest();
    assert(1 * pow2(0) == 1);
    assert(1 * pow2(53) == pow2(53));
    lemma_log2_floor_at_least(n, 1, 0);
    lemma_log2_floor_below(n, 1, 53);
    lemma_round_magnitude_normal(n, 1, 0, false);
    lemma_round_magnitude_decodes(n, 1, 0);
    let ulp = ulp_exponent(n, 1, 0);
    let scaled = n * pow2((-ulp) as nat);
    assert(nearest_even(scaled, 1) == scaled);
    assert(nearest_even_scaled(n, 1, ulp) == scaled) by {
        if ulp == 0 {
            assert(n * 1 == n);
        }
    }
    lemma_rounded_significand(n, 1, 0);
    assert(scaled < 0x0020_0000_0000_0000) by {
        // The exponent is ulp + 52, so n < 2^(ulp + 53).
        lemma_log2_floor_brackets(n, 1);
        let l = (ulp + 52) as nat;
        lemma_pow2_double(l);
        lemma_pow2_adds(l + 1, (-ulp) as nat);
        assert(1 * pow2(l) == pow2(l));
        assert(n * pow2((-ulp) as nat) < pow2(l + 1) * pow2((-ulp) as nat)) by (nonlinear_arith)
            requires
                n < pow2(l + 1),
                pow2((-ulp) as nat) > 0,
        ;
    }
    let r = with_sign(false, round_magnitude(n, 1, 0));
    assert(r.exponent() == ulp);
    assert(r.significand() * 1 == r.significand());
    assert(from_integer(i).magnitude() == r.magnitude());
}

/// Rounding to an integer goes half away from zero. For a finite number
/// `m * 2^-k` with fractional bits, the result keeps the sign and is the
/// integer `n` with `n - 1/2 <= m / 2^k < n + 1/2`, represented exactly.
pub proof fn lemma_nearest_integer_is_half_away(a: Binary64)
    requires
        a.is_finite(),
        a.exponent() < 0,
    ensures
        ({
            let m = a.significand();
            let unit = pow2((-a.exponent()) as nat);
            let n = nearest_half_up(m, unit);
            let r = nearest_integer(a);
            &&& 2 * (n * unit) - unit <= 2 * m < 2 * (n * unit) + unit
            &&& r.is_negative() == a.is_negative()
            &&& n == 0 ==> r.is_zero()
            &&& n != 0 ==> r.is_finite() && r.exponent() <= 0 && r.significand() == n * pow2(
                (-r.exponent()) as nat,
            )
        }),
{
    let m = a.significand();
    let k = (-a.exponent()) as nat;
    let unit = pow2(k);
    let n = nearest_half_up(m, unit);
    lemma_pow2_pos(k);
    lemma_pow2_double((k - 1) as nat);
    lemma_nearest_half_up_is_nearest(m, unit);
    assert(n < 0x0020_0000_0000_0000) by (nonlinear_arith)
        requires
            2 * (n * unit) - unit <= 2 * m,
            m < 0x0020_0000_0000_0000,
            unit >= 2,
    ;
    if n != 0 {
        lemma_from_integer_exact(n as int);
        let r = nearest_integer(a);
        assert(r.magnitude() == from_integer(n as int).magnitude());
    }
}

/// A value between `2^-1022` and `2^1023` rounds to a normal number, whose
/// exponent is that of the value's unit in the last place, or one more where
/// the significand carried.
pub proof fn lemma_round_magnitude_normal(n: nat, d: nat, e: int, negative: bool)
    requires
        n > 0,
        d > 0,
        -1022 <= log2_floor(n, d) + e <= 1022,
    ensures
        is_normal(with_sign(negative, round_magnitude(n, d, e))),
        with_sign(negative, round_magnitude(n, d, e)).is_negative() == negative,
        log2_floor(n, d) + e - 52 <= with_sign(negative, round_magnitude(n, d, e)).exponent()
            <= log2_floor(n, d) + e - 51,
{
    lemma_rounded_significand(n, d, e);
}

/// An integer other than zero and below `2^128` in size becomes a normal
/// number.
pub proof fn lemma_from_integer_normal(i: int)
    requires
        i != 0,
        -0x1_0000_0000_0000_0000_0000_0000_0000_0000 < i < 0x1_0000_0000_0000_0000_0000_0000_0000_0000,
    ensures
        is_normal(from_integer(i)),
        from_integer(i).is_negative() == (i < 0),
        -52 <= from_integer(i).exponent() <= 76,
{
    let n = (if i < 0 {
        -i
    } else {
        i
    }) as nat;
    lemma2_to64();
    lemma_pow2_adds(64, 64);
    assert(1 * pow2(0) == 1);
    assert(1 * pow2(128) == pow2(128));
    lemma_log2_floor_at_least(n, 1, 0);
    lemma_log2_floor_below(n, 1, 128);
    lemma_round_magnitude_normal(n, 1, 0, i < 0);
}

/// The quotient of two normal numbers whose exponents are not too far apart
/// is a normal number.
pub proof fn lemma_quotient_normal(a: Binary64, b: Binary64)
    requires
        is_normal(a),
        is_normal(b),
        -900 <= a.exponent() - b.exponent() <= 900,
    ensures
        is_normal(quotient(a, b)),
        a.exponent() - b.exponent() - 53 <= quotient(a, b).exponent() <= a.exponent()
            - b.exponent() - 51,
{
    let n = a.significand();
    let d = b.significand();
    lemma2_to64();
    assert(n < d * pow2(1)) by (nonlinear_arith)
        requires
            n < 0x0020_0000_0000_0000,
            d >= 0x0010_0000_0000_0000,
            pow2(1) == 2,
    ;
    lemma_log2_floor_below(n, d, 1);
    assert(2 * n >= d * pow2(0)) by (nonlinear_arith)
        requires
            d < 0x0020_0000_0000_0000,
            n >= 0x0010_0000_0000_0000,
            pow2(0) == 1,
    ;
    lemma_log2_floor_at_least((2 * n) as nat, d, 0);
    lemma_log2_floor_double(n, d);
    lemma_round_magnitude_normal(
        n,
        d,
        a.exponent() - b.exponent(),
        a.is_negative() != b.is_negative(),
    );
}

/// The product of two normal numbers whose exponents do not add up to too
/// much or too little is a normal number.
pub proof fn lemma_product_normal(a: Binary64, b: Binary64)
    requires
        is_normal(a),
        is_normal(b),
        -1100 <= a.exponent() + b.exponent() <= 900,
    ensures
        is_normal(product(a, b)),
        a.exponent() + b.exponent() + 52 <= product(a, b).exponent() <= a.exponent()
            + b.exponent() + 54,
{
    let x = a.significand();
    let y = b.significand();
    let n = x * y;
    lemma2_to64();
    lemma2_to64_rest();
    lemma_pow2_adds(52, 52);
    lemma_pow2_adds(53, 53);
    assert(pow2(52) * pow2(52) <= x * y < pow2(53) * pow2(53)) by (nonlinear_arith)
        requires
            pow2(52) <= x < pow2(53),
            pow2(52) <= y < pow2(53),
    ;
    assert(1 * pow2(104) == pow2(104));
    assert(1 * pow2(106) == pow2(106));
    lemma_pow2_pos(104);
    lemma_log2_floor_at_least(n, 1, 104);
    lemma_log2_floor_below(n, 1, 106);
    lemma_round_magnitude_normal(
        n,
        1,
        a.exponent() + b.exponent(),
        a.is_negative() != b.is_negative(),
    );
}

} // verus!
