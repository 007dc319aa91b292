//! The arithmetic itself: integer code that computes what the model says.
use super::model::{
    from_integer, nearest_even_scaled, nearest_half_up, nearest_integer, product, quotient,
    round_magnitude, saturating_u64, ulp_exponent, with_sign, Binary64, HIDDEN_BIT, INFINITY_BITS,
    NAN_BITS, SIGN_BIT,
};
use super::rounding::{
    lemma_log2_floor_unique, lemma_nearest_even_exact, lemma_pow2_double, lemma_pow2_monotone,
    lemma_round_magnitude_scale, lemma_round_truncated, round_truncated,
};
use vstd::arithmetic::div_mod::{lemma_basic_div, lemma_fundamental_div_mod, lemma_small_mod};
use vstd::arithmetic::power2::{lemma2_to64, lemma2_to64_rest, lemma_pow2_adds, lemma_pow2_pos, pow2};
use vstd::prelude::*;

verus! {

/// 2^53: one more than the largest significand.
const SIGNIFICAND_LIMIT: u64 = 0x0020_0000_0000_0000;

/// 2^127.
const TOP_BIT_128: u128 = 0x8000_0000_0000_0000_0000_0000_0000_0000;

/// The powers of two that the code below names by value.
proof fn lemma_pow2_values()
    ensures
        pow2(0) == 1,
        pow2(1) == 2,
        pow2(11) == 0x800,
        pow2(12) == 0x1000,
        pow2(52) == 0x0010_0000_0000_0000,
        pow2(53) == 0x0020_0000_0000_0000,
        pow2(54) == 0x0040_0000_0000_0000,
        pow2(64) == 0x1_0000_0000_0000_0000,
        pow2(127) == 0x8000_0000_0000_0000_0000_0000_0000_0000,
        pow2(128) == 0x1_0000_0000_0000_0000_0000_0000_0000_0000,
{
    lemma2_to64();
    lemma2_to64_rest();
    lemma_pow2_adds(64, 63);
    lemma_pow2_adds(64, 64);
}

/// `2^k` as a machine integer.
fn power_of_two(k: u32) -> (r: u128)
    requires
        k <= 127,
    ensures
        r == pow2(k as nat),
        r >= 1,
{
    let mut r: u128 = 1;
    let mut i: u32 = 0;
    proof {
        lemma_pow2_values();
    }
    while i < k
        invariant
            i <= k <= 127,
            r == pow2(i as nat),
            r >= 1,
        decreases k - i,
    {
        proof {
            lemma_pow2_double(i as nat);
            lemma_pow2_monotone((i + 1) as nat, 127);
            lemma_pow2_values();
        }
        r = r * 2;
        i = i + 1;
    }
    r
}

/// The number of bits needed to write `q`.
fn bit_length(q: u128) -> (len: u32)
    ensures
        len <= 128,
        q == 0 ==> len == 0,
        q > 0 ==> len >= 1 && pow2((len - 1) as nat) <= q < pow2(len as nat),
{
    let mut len: u32 = 0;
    let mut rest: u128 = q;
    proof {
        lemma_pow2_values();
        assert(rest * pow2(0) == rest);
        assert((rest + 1) * pow2(0) == rest + 1);
    }
    while rest > 0
        invariant
            len <= 128,
            rest * pow2(len as nat) <= q < (rest + 1) * pow2(len as nat),
            len > 0 ==> pow2((len - 1) as nat) <= q,
            len == 0 ==> rest == q,
        decreases rest,
    {
        let ghost unit = pow2(len as nat);
        let ghost before = rest;
        proof {
            lemma_pow2_double(len as nat);
            lemma_pow2_values();
            assert(unit <= before * unit) by (nonlinear_arith)
                requires
                    before >= 1,
                    unit >= 0,
            ;
            if len >= 128 {
                lemma_pow2_monotone(128, len as nat);
            }
        }
        rest = rest / 2;
        len = len + 1;
        proof {
            assert(rest * (2 * unit) <= before * unit) by (nonlinear_arith)
                requires
                    2 * rest <= before,
                    unit >= 0,
            ;
            assert((before + 1) * unit <= (rest + 1) * (2 * unit)) by (nonlinear_arith)
                requires
                    before + 1 <= 2 * (rest + 1),
                    unit >= 0,
            ;
        }
    }
    proof {
        assert((rest + 1) * pow2(len as nat) == pow2(len as nat)) by (nonlinear_arith)
            requires
                rest == 0,
        ;
        if len > 0 {
            lemma_pow2_pos((len - 1) as nat);
        }
    }
    len
}

fn is_negative_bits(x: Binary64) -> (negative: bool)
    ensures
        negative == x.is_negative(),
{
    x.bits >= SIGN_BIT
}

fn magnitude_bits(x: Binary64) -> (magnitude: u64)
    ensures
        magnitude == x.magnitude(),
        magnitude < SIGN_BIT,
{
    if x.bits >= SIGN_BIT {
        x.bits - SIGN_BIT
    } else {
        x.bits
    }
}

/// Significand and exponent of a finite number.
fn unpack(x: Binary64) -> (parts: (u64, i64))
    requires
        x.is_finite(),
    ensures
        parts.0 == x.significand(),
        parts.1 == x.exponent(),
        parts.0 < SIGNIFICAND_LIMIT,
        -1074 <= parts.1 <= 971,
        parts.1 > -1074 ==> parts.0 >= HIDDEN_BIT,
        parts.0 == 0 <==> x.is_zero(),
{
    let magnitude: u64 = magnitude_bits(x);
    if magnitude < HIDDEN_BIT {
        (magnitude, -1074)
    } else {
        (magnitude % HIDDEN_BIT + HIDDEN_BIT, (magnitude / HIDDEN_BIT) as i64 - 1075)
    }
}

fn pack(negative: bool, magnitude: u64) -> (r: Binary64)
    requires
        magnitude < SIGN_BIT,
    ensures
        r == with_sign(negative, magnitude as nat),
{
    if negative {
        Binary64 { bits: magnitude + SIGN_BIT }
    } else {
        Binary64 { bits: magnitude }
    }
}

/// Rounds `(n / d) * 2^e` to binary64, given the quotient `q` of `n` by `d`
/// and whether the division left a remainder.
fn round_to_nearest(
    q: u128,
    e: i64,
    sticky: bool,
    Ghost(n): Ghost<nat>,
    Ghost(d): Ghost<nat>,
) -> (magnitude: u64)
    requires
        d > 0,
        q == n / d,
        sticky == (n % d != 0),
        sticky ==> q >= SIGNIFICAND_LIMIT,
        -5000 <= e <= 5000,
    ensures
        magnitude == round_magnitude(n, d, e as int),
        magnitude <= INFINITY_BITS,
        e < 896 ==> magnitude < INFINITY_BITS,
{
    proof {
        lemma_fundamental_div_mod(n as int, d as int);
        lemma_pow2_values();
    }
    if q == 0 {
        assert(n == 0) by (nonlinear_arith)
            requires
                n == d * (n / d) + n % d,
                n / d == 0,
                n % d == 0,
        ;
        return 0;
    }
    let len: u32 = bit_length(q);
    let normal: i64 = e + len as i64 - 53;
    let ulp: i64 = if normal < -1074 {
        -1074
    } else {
        normal
    };
    let shift: i64 = ulp - e;
    proof {
        let low = pow2((len - 1) as nat);
        lemma_pow2_double((len - 1) as nat);
        assert(pow2(len as nat) == 2 * low);
        assert(d * low <= d * q) by (nonlinear_arith)
            requires
                low <= q,
                d > 0,
        ;
        assert(d * q + d <= 2 * (d * low)) by (nonlinear_arith)
            requires
                q + 1 <= 2 * low,
                d > 0,
        ;
        assert(n > 0);
        lemma_log2_floor_unique(n, d, len - 1);
        assert(ulp_exponent(n, d, e as int) == ulp);
        if sticky {
            if len <= 53 {
                lemma_pow2_monotone(len as nat, 53);
            }
            assert(len >= 54);
        }
    }
    let rounded: u128;
    if shift <= 0 {
        let s: u32 = (-shift) as u32;
        let scale: u128 = power_of_two(s);
        proof {
            lemma_pow2_adds(len as nat, s as nat);
            lemma_pow2_monotone((len + s) as nat, 53);
            assert(q * scale < pow2(len as nat) * scale) by (nonlinear_arith)
                requires
                    q < pow2(len as nat),
                    scale >= 1,
            ;
        }
        rounded = q * scale;
        assert(rounded < SIGNIFICAND_LIMIT);
        proof {
            assert(n == d * q);
            assert(n * scale == (q * scale) * d) by (nonlinear_arith)
                requires
                    n == d * q,
            ;
            lemma_nearest_even_exact((q * scale) as nat, d);
            if shift == 0 {
                assert(d * pow2(0) == d);
                assert(q * scale == q);
            }
            assert(nearest_even_scaled(n, d, shift as int) == rounded);
        }
    } else {
        proof {
            lemma_round_truncated(n, d, shift as nat);
            lemma_pow2_double((shift - 1) as nat);
        }
        if shift > 128 {
            proof {
                lemma_pow2_monotone(128, (shift - 1) as nat);
                lemma_basic_div(q as int, pow2(shift as nat) as int);
                lemma_small_mod(q as nat, pow2(shift as nat));
            }
            rounded = 0;
        } else if shift == 128 {
            proof {
                lemma_basic_div(q as int, pow2(shift as nat) as int);
                lemma_small_mod(q as nat, pow2(shift as nat));
            }
            rounded = if q > TOP_BIT_128 || (q == TOP_BIT_128 && sticky) {
                1
            } else {
                0
            };
        } else {
            let unit: u128 = power_of_two(shift as u32);
            let half: u128 = unit / 2;
            let whole: u128 = q / unit;
            let rest: u128 = q % unit;
            proof {
                lemma_pow2_adds(shift as nat, 53);
                lemma_pow2_monotone(len as nat, (shift + 53) as nat);
                lemma_fundamental_div_mod(q as int, unit as int);
                assert(whole < SIGNIFICAND_LIMIT) by (nonlinear_arith)
                    requires
                        q == unit * whole + rest,
                        rest >= 0,
                        q < unit * SIGNIFICAND_LIMIT,
                        unit > 0,
                ;
            }
            rounded = if rest > half || (rest == half && (sticky || whole % 2 == 1)) {
                whole + 1
            } else {
                whole
            };
        }
        assert(rounded == round_truncated(q as nat, shift as nat, sticky));
        assert(nearest_even_scaled(n, d, shift as int) == rounded);
    }
    assert(rounded <= SIGNIFICAND_LIMIT);
    let biased: u128 = (ulp + 1074) as u128;
    assert(biased * HIDDEN_BIT <= 0x2_0000_0000_0000_0000) by (nonlinear_arith)
        requires
            biased <= 8192,
            HIDDEN_BIT == 0x0010_0000_0000_0000,
    ;
    let encoded: u128 = biased * (HIDDEN_BIT as u128) + rounded;
    if encoded >= INFINITY_BITS as u128 {
        INFINITY_BITS
    } else {
        encoded as u64
    }
}

impl Binary64 {
    /// The number with the given bit pattern.
    pub fn from_bits(bits: u64) -> (r: Binary64)
        ensures
            r.bits == bits,
    {
        Binary64 { bits }
    }

    /// The bit pattern of the number.
    pub fn to_bits(self) -> (bits: u64)
        ensures
            bits == self.bits,
    {
        self.bits
    }

    /// The number nearest to an unsigned integer.
    pub fn from_u64(value: u64) -> (r: Binary64)
        ensures
            r == from_integer(value as int),
            r.is_finite(),
    {
        let magnitude: u64 = round_to_nearest(
            value as u128,
            0,
            false,
            Ghost(value as nat),
            Ghost(1),
        );
        pack(false, magnitude)
    }

    /// The number nearest to a signed integer.
    pub fn from_i128(value: i128) -> (r: Binary64)
        ensures
            r == from_integer(value as int),
            r.is_finite(),
    {
        let negative: bool = value < 0;
        let size: u128 = if negative {
            if value == i128::MIN {
                TOP_BIT_128
            } else {
                (-value) as u128
            }
        } else {
            value as u128
        };
        let magnitude: u64 = round_to_nearest(size, 0, false, Ghost(size as nat), Ghost(1));
        pack(negative, magnitude)
    }

    /// The product of two numbers.
    pub fn multiply(self, other: Binary64) -> (r: Binary64)
        ensures
            r == product(self, other),
    {
        let negative: bool = is_negative_bits(self) != is_negative_bits(other);
        let left: u64 = magnitude_bits(self);
        let right: u64 = magnitude_bits(other);
        if left > INFINITY_BITS || right > INFINITY_BITS {
            return Binary64 { bits: NAN_BITS };
        }
        if left == INFINITY_BITS || right == INFINITY_BITS {
            if left == 0 || right == 0 {
                return Binary64 { bits: NAN_BITS };
            }
            return pack(negative, INFINITY_BITS);
        }
        let (m1, e1) = unpack(self);
        let (m2, e2) = unpack(other);
        assert(m1 * m2 < 0x400_0000_0000_0000_0000_0000_0000) by (nonlinear_arith)
            requires
                m1 < 0x0020_0000_0000_0000,
                m2 < 0x0020_0000_0000_0000,
        ;
        let wide: u128 = m1 as u128 * m2 as u128;
        let magnitude: u64 = round_to_nearest(wide, e1 + e2, false, Ghost(wide as nat), Ghost(1));
        pack(negative, magnitude)
    }

    /// The quotient of two numbers.
    pub fn divide(self, other: Binary64) -> (r: Binary64)
        ensures
            r == quotient(self, other),
    {
        let negative: bool = is_negative_bits(self) != is_negative_bits(other);
        let left: u64 = magnitude_bits(self);
        let right: u64 = magnitude_bits(other);
        if left > INFINITY_BITS || right > INFINITY_BITS {
            return Binary64 { bits: NAN_BITS };
        }
        if left == INFINITY_BITS {
            if right == INFINITY_BITS {
                return Binary64 { bits: NAN_BITS };
            }
            return pack(negative, INFINITY_BITS);
        }
        if right == INFINITY_BITS {
            return pack(negative, 0);
        }
        if right == 0 {
            if left == 0 {
                return Binary64 { bits: NAN_BITS };
            }
            return pack(negative, INFINITY_BITS);
        }
        let (m1, e1) = unpack(self);
        let (m2, e2) = unpack(other);
        if m1 == 0 {
            return pack(negative, 0);
        }
        // Scale the dividend to 128 bits, so that the quotient has more
        // bits than a significand and the remainder only breaks ties.
        let len: u32 = bit_length(m1 as u128);
        proof {
            lemma_pow2_values();
            if len > 53 {
                lemma_pow2_monotone(53, (len - 1) as nat);
            }
        }
        let k: u32 = 128 - len;
        let scale: u128 = power_of_two(k);
        proof {
            lemma_pow2_adds(len as nat, k as nat);
            lemma_pow2_adds((len - 1) as nat, k as nat);
            assert(m1 * scale < pow2(len as nat) * scale) by (nonlinear_arith)
                requires
                    m1 < pow2(len as nat),
                    scale >= 1,
            ;
            assert(pow2((len - 1) as nat) * scale <= m1 * scale) by (nonlinear_arith)
                requires
                    pow2((len - 1) as nat) <= m1,
                    scale >= 1,
            ;
        }
        let scaled: u128 = m1 as u128 * scale;
        let q: u128 = scaled / (m2 as u128);
        let rest: u128 = scaled % (m2 as u128);
        proof {
            lemma_fundamental_div_mod(scaled as int, m2 as int);
            assert(q >= 0x0020_0000_0000_0000) by (nonlinear_arith)
                requires
                    scaled == m2 * q + rest,
                    rest < m2,
                    0 < m2 < 0x0020_0000_0000_0000,
                    scaled >= 0x8000_0000_0000_0000_0000_0000_0000_0000,
            ;
            lemma_round_magnitude_scale(m1 as nat, m2 as nat, e1 - e2, k as nat);
        }
        let magnitude: u64 = round_to_nearest(
            q,
            e1 - e2 - k as i64,
            rest != 0,
            Ghost(scaled as nat),
            Ghost(m2 as nat),
        );
        pack(negative, magnitude)
    }

    /// The nearest integer, ties away from zero.
    pub fn round(self) -> (r: Binary64)
        ensures
            r == nearest_integer(self),
    {
        let magnitude: u64 = magnitude_bits(self);
        if magnitude >= INFINITY_BITS {
            return self;
        }
        let (m, e) = unpack(self);
        if e >= 0 {
            return self;
        }
        let k: i64 = -e;
        proof {
            lemma_pow2_values();
        }
        let nearest: u64 = if k >= 54 {
            proof {
                lemma_pow2_monotone(54, k as nat);
                lemma_basic_div(2 * m + pow2(k as nat), (2 * pow2(k as nat)) as int);
            }
            0
        } else {
            proof {
                lemma_pow2_monotone(k as nat, 53);
            }
            let unit: u64 = power_of_two(k as u32) as u64;
            (2 * m + unit) / (2 * unit)
        };
        assert(nearest == nearest_half_up(m as nat, pow2(k as nat)));
        let rounded: u64 = round_to_nearest(
            nearest as u128,
            0,
            false,
            Ghost(nearest as nat),
            Ghost(1),
        );
        pack(is_negative_bits(self), rounded)
    }

    /// The integer part as a `u64`, clamped to its range; zero for a NaN.
    pub fn to_u64(self) -> (r: u64)
        ensures
            r == saturating_u64(self),
    {
        let magnitude: u64 = magnitude_bits(self);
        if magnitude > INFINITY_BITS || is_negative_bits(self) {
            return 0;
        }
        if magnitude == INFINITY_BITS {
            return u64::MAX;
        }
        let (m, e) = unpack(self);
        proof {
            lemma_pow2_values();
        }
        if e >= 12 {
            proof {
                lemma_pow2_monotone(12, e as nat);
                assert(m * pow2(e as nat) >= 0x1_0000_0000_0000_0000) by (nonlinear_arith)
                    requires
                        m >= 0x0010_0000_0000_0000,
                        pow2(e as nat) >= 0x1000,
                ;
            }
            u64::MAX
        } else if e >= 0 {
            proof {
                lemma_pow2_monotone(e as nat, 11);
                assert(m * pow2(e as nat) < 0x1_0000_0000_0000_0000) by (nonlinear_arith)
                    requires
                        m < 0x0020_0000_0000_0000,
                        pow2(e as nat) <= 0x800,
                ;
            }
            let unit: u64 = power_of_two(e as u32) as u64;
            m * unit
        } else if e <= -53 {
            proof {
                lemma_pow2_monotone(53, (-e) as nat);
                lemma_basic_div(m as int, pow2((-e) as nat) as int);
            }
            0
        } else {
            proof {
                lemma_pow2_monotone((-e) as nat, 52);
            }
            let unit: u64 = power_of_two((-e) as u32) as u64;
            m / unit
        }
    }
}

} // verus!
