//! What a binary64 bit pattern means, and what each operation returns.
//!
//! A finite number is `significand * 2^exponent` with a sign; the result of an
//! operation is the exact rational result rounded to the nearest
//! representable number, ties to the even significand.
use vstd::arithmetic::power2::pow2;
use vstd::prelude::*;

verus! {

/// The sign bit.
pub const SIGN_BIT: u64 = 0x8000_0000_0000_0000;

/// Magnitude of an infinity; every larger magnitude is a NaN.
pub const INFINITY_BITS: u64 = 0x7FF0_0000_0000_0000;

/// The quiet NaN that invalid operations return.
pub const NAN_BITS: u64 = 0x7FF8_0000_0000_0000;

/// 2^52: the implicit leading bit of a normal significand.
pub const HIDDEN_BIT: u64 = 0x0010_0000_0000_0000;

/// A binary64 number, held as its bit pattern.
#[derive(Clone, Copy, Debug, PartialEq, Eq, Structural)]
pub struct Binary64 {
    pub bits: u64,
}

impl Binary64 {
    /// The sign bit is set.
    pub open spec fn is_negative(self) -> bool {
        self.bits >= SIGN_BIT
    }

    /// The bit pattern without its sign bit.
    pub open spec fn magnitude(self) -> nat {
        if self.bits >= SIGN_BIT {
            (self.bits - SIGN_BIT) as nat
        } else {
            self.bits as nat
        }
    }

    pub open spec fn is_nan(self) -> bool {
        self.magnitude() > INFINITY_BITS
    }

    pub open spec fn is_infinite(self) -> bool {
        self.magnitude() == INFINITY_BITS
    }

    pub open spec fn is_finite(self) -> bool {
        self.magnitude() < INFINITY_BITS
    }

    pub open spec fn is_zero(self) -> bool {
        self.magnitude() == 0
    }

    /// The integer `m` of a finite number `m * 2^exponent`.
    pub open spec fn significand(self) -> nat {
        let mag = self.magnitude();
        if mag < HIDDEN_BIT {
            mag
        } else {
            mag % (HIDDEN_BIT as nat) + HIDDEN_BIT as nat
        }
    }

    /// The exponent `e` of a finite number `significand * 2^e`.
    pub open spec fn exponent(self) -> int {
        let mag = self.magnitude();
        if mag < HIDDEN_BIT {
            -1074
        } else {
            mag / (HIDDEN_BIT as nat) - 1075
        }
    }
}

/// The number with the given sign and magnitude bits.
pub open spec fn with_sign(negative: bool, magnitude: nat) -> Binary64 {
    Binary64 {
        bits: if negative {
            (magnitude + SIGN_BIT) as u64
        } else {
            magnitude as u64
        },
    }
}

/// The quiet NaN that invalid operations return.
pub open spec fn nan() -> Binary64 {
    Binary64 { bits: NAN_BITS }
}

/// The integer nearest to `n / d`; of two equally near, the even one.
pub open spec fn nearest_even(n: nat, d: nat) -> nat
    recommends
        d > 0,
{
    let q = n / d;
    let r = n % d;
    if 2 * r > d || (2 * r == d && q % 2 == 1) {
        q + 1
    } else {
        q
    }
}

/// The integer nearest to `(n / d) / 2^p`, ties to even.
pub open spec fn nearest_even_scaled(n: nat, d: nat, p: int) -> nat
    recommends
        d > 0,
{
    if p >= 0 {
        nearest_even(n, d * pow2(p as nat))
    } else {
        nearest_even(n * pow2((-p) as nat), d)
    }
}

/// The integer `k` with `2^k <= n / d < 2^(k + 1)`, for positive `n` and `d`.
pub open spec fn log2_floor(n: nat, d: nat) -> int
    recommends
        n > 0,
        d > 0,
    decreases
            (if n < d {
                d - n
            } else {
                0
            }),
            (if n >= d {
                n - d
            } else {
                0
            }),
{
    if n == 0 || d == 0 {
        0
    } else if n < d {
        log2_floor(2 * n, d) - 1
    } else if n >= 2 * d {
        log2_floor(n, 2 * d) + 1
    } else {
        0
    }
}

/// The exponent of the unit in the last place of the binary64 numbers around
/// `(n / d) * 2^e`: 52 below the exponent of the value, but no less than that
/// of the subnormal numbers.
pub open spec fn ulp_exponent(n: nat, d: nat, e: int) -> int
    recommends
        n > 0,
        d > 0,
{
    let normal = log2_floor(n, d) + e - 52;
    if normal < -1074 {
        -1074
    } else {
        normal
    }
}

/// Magnitude bits of the binary64 number nearest to `(n / d) * 2^e`, ties to
/// even. The value is rounded to a multiple of its unit in the last place;
/// the encoding of the result is that multiple added to the exponent field,
/// which carries into the next exponent when the multiple reaches 2^53. A
/// result beyond the largest finite number is infinity.
pub open spec fn round_magnitude(n: nat, d: nat, e: int) -> nat
    recommends
        d > 0,
{
    if n == 0 {
        0
    } else {
        let ulp = ulp_exponent(n, d, e);
        let bits = (ulp + 1074) * HIDDEN_BIT + nearest_even_scaled(n, d, ulp - e);
        if bits >= INFINITY_BITS {
            INFINITY_BITS as nat
        } else {
            bits as nat
        }
    }
}

/// `n / d` rounded to the nearest integer, ties away from zero.
pub open spec fn nearest_half_up(n: nat, d: nat) -> nat
    recommends
        d > 0,
{
    (2 * n + d) / (2 * d)
}

/// The binary64 number nearest to the integer `i`.
pub open spec fn from_integer(i: int) -> Binary64 {
    with_sign(
        i < 0,
        round_magnitude(
            (if i < 0 {
                -i
            } else {
                i
            }) as nat,
            1,
            0,
        ),
    )
}

/// The correctly rounded product. A NaN operand, or zero times infinity,
/// gives the quiet NaN.
pub open spec fn product(a: Binary64, b: Binary64) -> Binary64 {
    let negative = a.is_negative() != b.is_negative();
    if a.is_nan() || b.is_nan() {
        nan()
    } else if a.is_infinite() || b.is_infinite() {
        if a.is_zero() || b.is_zero() {
            nan()
        } else {
            with_sign(negative, INFINITY_BITS as nat)
        }
    } else {
        with_sign(
            negative,
            round_magnitude(a.significand() * b.significand(), 1, a.exponent() + b.exponent()),
        )
    }
}

/// The correctly rounded quotient. A NaN operand, zero by zero and infinity
/// by infinity give the quiet NaN; a nonzero number by zero gives infinity.
pub open spec fn quotient(a: Binary64, b: Binary64) -> Binary64 {
    let negative = a.is_negative() != b.is_negative();
    if a.is_nan() || b.is_nan() {
        nan()
    } else if a.is_infinite() {
        if b.is_infinite() {
            nan()
        } else {
            with_sign(negative, INFINITY_BITS as nat)
        }
    } else if b.is_infinite() {
        with_sign(negative, 0)
    } else if b.is_zero() {
        if a.is_zero() {
            nan()
        } else {
            with_sign(negative, INFINITY_BITS as nat)
        }
    } else {
        with_sign(
            negative,
            round_magnitude(a.significand(), b.significand(), a.exponent() - b.exponent()),
        )
    }
}

/// The nearest integer, ties away from zero, keeping the sign. Numbers
/// without a fractional part, infinities and NaNs are returned as they are.
pub open spec fn nearest_integer(a: Binary64) -> Binary64 {
    if !a.is_finite() || a.exponent() >= 0 {
        a
    } else {
        with_sign(
            a.is_negative(),
            round_magnitude(
                nearest_half_up(a.significand(), pow2((-a.exponent()) as nat)),
                1,
                0,
            ),
        )
    }
}

/// The number cut to its integer part and clamped to the range of `u64`;
/// a NaN gives zero.
pub open spec fn saturating_u64(a: Binary64) -> u64 {
    if a.is_nan() || a.is_negative() {
        0
    } else if a.is_infinite() {
        u64::MAX
    } else if a.exponent() >= 0 {
        let v = a.significand() * pow2(a.exponent() as nat);
        if v > u64::MAX {
            u64::MAX
        } else {
            v as u64
        }
    } else {
        (a.significand() / pow2((-a.exponent()) as nat)) as u64
    }
}

} // verus!
