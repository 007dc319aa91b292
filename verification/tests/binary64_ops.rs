use bravencia_program::binary64::model::Binary64;

/// A small generator of well mixed 64-bit values.
fn next(state: &mut u64) -> u64 {
    *state = state.wrapping_add(0x9E37_79B9_7F4A_7C15);
    let mut z = *state;
    z = (z ^ (z >> 30)).wrapping_mul(0xBF58_476D_1CE4_E5B9);
    z = (z ^ (z >> 27)).wrapping_mul(0x94D0_49BB_1331_11EB);
    z ^ (z >> 31)
}

/// A bit pattern whose exponent lies within `spread` of that of 1.0.
fn near_one(state: &mut u64, spread: u64) -> u64 {
    let raw = next(state);
    let sign = raw & 0x8000_0000_0000_0000;
    let fraction = next(state) & 0x000F_FFFF_FFFF_FFFF;
    let exponent = 1023 - spread + next(state) % (2 * spread + 1);
    sign | (exponent << 52) | fraction
}

fn same(ours: Binary64, theirs: f64) -> bool {
    if theirs.is_nan() {
        f64::from_bits(ours.to_bits()).is_nan()
    } else {
        ours.to_bits() == theirs.to_bits()
    }
}

fn check_product(a: u64, b: u64) {
    let ours = Binary64::from_bits(a).multiply(Binary64::from_bits(b));
    let theirs = f64::from_bits(a) * f64::from_bits(b);
    assert!(same(ours, theirs), "{:#x} * {:#x}: {:#x} != {:#x}", a, b, ours.to_bits(), theirs.to_bits());
}

fn check_quotient(a: u64, b: u64) {
    let ours = Binary64::from_bits(a).divide(Binary64::from_bits(b));
    let theirs = f64::from_bits(a) / f64::from_bits(b);
    assert!(same(ours, theirs), "{:#x} / {:#x}: {:#x} != {:#x}", a, b, ours.to_bits(), theirs.to_bits());
}

fn check_round(a: u64) {
    let ours = Binary64::from_bits(a).round();
    let theirs = f64::from_bits(a).round();
    assert!(same(ours, theirs), "round {:#x}: {:#x} != {:#x}", a, ours.to_bits(), theirs.to_bits());
}

fn check_to_u64(a: u64) {
    let ours = Binary64::from_bits(a).to_u64();
    let theirs = f64::from_bits(a) as u64;
    assert_eq!(ours, theirs, "{:#x} as u64", a);
}

const SPECIAL: [u64; 24] = [
    0x0000_0000_0000_0000,
    0x8000_0000_0000_0000,
    0x0000_0000_0000_0001,
    0x8000_0000_0000_0001,
    0x000F_FFFF_FFFF_FFFF,
    0x0010_0000_0000_0000,
    0x0010_0000_0000_0001,
    0x3FE0_0000_0000_0000,
    0x3FDF_FFFF_FFFF_FFFF,
    0x3FF0_0000_0000_0000,
    0xBFF0_0000_0000_0000,
    0x3FF8_0000_0000_0000,
    0x4004_0000_0000_0000,
    0xC004_0000_0000_0000,
    0x4024_0000_0000_0000,
    0x4330_0000_0000_0000,
    0x432F_FFFF_FFFF_FFFF,
    0x4340_0000_0000_0000,
    0x43F0_0000_0000_0000,
    0x43EF_FFFF_FFFF_FFFF,
    0x7FEF_FFFF_FFFF_FFFF,
    0x7FF0_0000_0000_0000,
    0xFFF0_0000_0000_0000,
    0x7FF8_0000_0000_0000,
];

#[test]
fn bits_round_trip() {
    assert_eq!(Binary64::from_bits(0x4024_0000_0000_0000).to_bits(), 0x4024_0000_0000_0000);
    assert_eq!(Binary64::from_bits(10.0f64.to_bits()).to_bits(), 10.0f64.to_bits());
}

#[test]
fn from_u64_matches_the_processor_on_edges() {
    let values: [u64; 14] = [
        0,
        1,
        10,
        1_000_000,
        (1 << 53) - 1,
        1 << 53,
        (1 << 53) + 1,
        (1 << 53) + 2,
        (1 << 53) + 3,
        (1 << 54) + 2,
        (1 << 54) + 6,
        1 << 63,
        u64::MAX - 1023,
        u64::MAX,
    ];
    for v in values {
        assert_eq!(Binary64::from_u64(v).to_bits(), (v as f64).to_bits(), "{}", v);
    }
}

#[test]
fn from_u64_exact_values() {
    assert_eq!(Binary64::from_u64(0).to_bits(), 0);
    assert_eq!(Binary64::from_u64(1).to_bits(), 0x3FF0_0000_0000_0000);
    assert_eq!(Binary64::from_u64(10).to_bits(), 0x4024_0000_0000_0000);
    assert_eq!(Binary64::from_u64(1_000_000).to_bits(), 0x412E_8480_0000_0000);
    // 2^53 + 1 lies halfway between two numbers and goes to the even one.
    assert_eq!(Binary64::from_u64((1 << 53) + 1).to_bits(), 0x4340_0000_0000_0000);
    assert_eq!(Binary64::from_u64((1 << 53) + 3).to_bits(), 0x4340_0000_0000_0002);
    // The largest u64 rounds up to 2^64.
    assert_eq!(Binary64::from_u64(u64::MAX).to_bits(), 0x43F0_0000_0000_0000);
}

#[test]
fn from_u64_matches_the_processor_on_many_values() {
    let mut state = 1u64;
    for _ in 0..100_000 {
        let raw = next(&mut state);
        let v = raw >> (next(&mut state) % 64);
        assert_eq!(Binary64::from_u64(v).to_bits(), (v as f64).to_bits(), "{}", v);
    }
}

#[test]
fn from_i128_matches_the_processor() {
    let edges: [i128; 12] = [
        0,
        1,
        -1,
        10_000_000_000,
        -10_000_000_000,
        (1 << 53) + 1,
        -((1 << 53) + 1),
        i128::MAX,
        i128::MIN,
        i128::MIN + 1,
        (1 << 100) + (1 << 47),
        (1 << 100) + (1 << 47) + 1,
    ];
    for v in edges {
        assert_eq!(Binary64::from_i128(v).to_bits(), (v as f64).to_bits(), "{}", v);
    }
    let mut state = 2u64;
    for _ in 0..100_000 {
        let high = next(&mut state) as u128;
        let low = next(&mut state) as u128;
        let v = (((high << 64) | low) as i128) >> (next(&mut state) % 128);
        assert_eq!(Binary64::from_i128(v).to_bits(), (v as f64).to_bits(), "{}", v);
    }
}

#[test]
fn from_i128_exact_values() {
    assert_eq!(Binary64::from_i128(-1).to_bits(), 0xBFF0_0000_0000_0000);
    assert_eq!(Binary64::from_i128(i128::MIN).to_bits(), 0xC7E0_0000_0000_0000);
    assert_eq!(Binary64::from_i128(i128::MAX).to_bits(), 0x47E0_0000_0000_0000);
}

#[test]
fn multiply_matches_the_processor_on_special_values() {
    for a in SPECIAL {
        for b in SPECIAL {
            check_product(a, b);
        }
    }
}

#[test]
fn multiply_matches_the_processor_near_one() {
    let mut state = 3u64;
    for _ in 0..100_000 {
        let a = near_one(&mut state, 40);
        let b = near_one(&mut state, 40);
        check_product(a, b);
    }
}

#[test]
fn multiply_matches_the_processor_on_any_bits() {
    let mut state = 4u64;
    for _ in 0..100_000 {
        let a = next(&mut state);
        let b = next(&mut state);
        check_product(a, b);
    }
}

#[test]
fn multiply_matches_the_processor_at_the_ends_of_the_range() {
    let mut state = 5u64;
    for _ in 0..100_000 {
        // A product near the smallest numbers, then one near the largest.
        let a = near_one(&mut state, 20) & 0x800F_FFFF_FFFF_FFFF | ((next(&mut state) % 60 + 1) << 52);
        let b = near_one(&mut state, 20);
        check_product(a, b);
        let c = near_one(&mut state, 20) & 0x800F_FFFF_FFFF_FFFF | ((2046 - next(&mut state) % 60) << 52);
        check_product(c, b);
        let tiny = next(&mut state) & 0x800F_FFFF_FFFF_FFFF;
        check_product(tiny, near_one(&mut state, 60));
    }
}

#[test]
fn multiply_exact_values() {
    let three_halves = Binary64::from_bits(0x3FF8_0000_0000_0000);
    let two = Binary64::from_bits(0x4000_0000_0000_0000);
    assert_eq!(three_halves.multiply(two).to_bits(), 0x4008_0000_0000_0000);
    // 1.05 * 10 lands on 10.5 after rounding.
    let product = Binary64::from_bits(1.05f64.to_bits()).multiply(Binary64::from_u64(10));
    assert_eq!(product.to_bits(), 0x4025_0000_0000_0000);
    // Zero times infinity is not a number.
    let nan = Binary64::from_bits(0).multiply(Binary64::from_bits(0x7FF0_0000_0000_0000));
    assert_eq!(nan.to_bits(), 0x7FF8_0000_0000_0000);
    // The sign of a zero product is the product of the signs.
    let zero = Binary64::from_bits(0).multiply(Binary64::from_bits(0xBFF0_0000_0000_0000));
    assert_eq!(zero.to_bits(), 0x8000_0000_0000_0000);
    // The largest number times two overflows.
    let huge = Binary64::from_bits(0x7FEF_FFFF_FFFF_FFFF).multiply(two);
    assert_eq!(huge.to_bits(), 0x7FF0_0000_0000_0000);
}

#[test]
fn divide_matches_the_processor_on_special_values() {
    for a in SPECIAL {
        for b in SPECIAL {
            check_quotient(a, b);
        }
    }
}

#[test]
fn divide_matches_the_processor_near_one() {
    let mut state = 6u64;
    for _ in 0..100_000 {
        let a = near_one(&mut state, 40);
        let b = near_one(&mut state, 40);
        check_quotient(a, b);
    }
}

#[test]
fn divide_matches_the_processor_on_any_bits() {
    let mut state = 7u64;
    for _ in 0..100_000 {
        let a = next(&mut state);
        let b = next(&mut state);
        check_quotient(a, b);
    }
}

#[test]
fn divide_matches_the_processor_at_the_ends_of_the_range() {
    let mut state = 8u64;
    for _ in 0..100_000 {
        let small = near_one(&mut state, 20) & 0x800F_FFFF_FFFF_FFFF | ((next(&mut state) % 60 + 1) << 52);
        let b = near_one(&mut state, 20);
        check_quotient(small, b);
        let large = near_one(&mut state, 20) & 0x800F_FFFF_FFFF_FFFF | ((2046 - next(&mut state) % 60) << 52);
        check_quotient(large, b);
        check_quotient(b, large);
        let tiny = next(&mut state) & 0x800F_FFFF_FFFF_FFFF;
        check_quotient(tiny, near_one(&mut state, 60));
        check_quotient(near_one(&mut state, 60), tiny);
    }
}

#[test]
fn divide_by_small_integers_matches_the_processor() {
    let mut state = 9u64;
    for _ in 0..50_000 {
        let a = next(&mut state) >> (next(&mut state) % 64);
        let d = next(&mut state) % 1_000_000_000 + 1;
        let ours = Binary64::from_u64(a).divide(Binary64::from_u64(d));
        assert_eq!(ours.to_bits(), (a as f64 / d as f64).to_bits(), "{} / {}", a, d);
    }
}

#[test]
fn divide_exact_values() {
    let one = Binary64::from_u64(1);
    let three = Binary64::from_u64(3);
    assert_eq!(one.divide(three).to_bits(), 0x3FD5_5555_5555_5555);
    assert_eq!(Binary64::from_u64(2).divide(three).to_bits(), 0x3FE5_5555_5555_5555);
    assert_eq!(one.divide(Binary64::from_u64(10)).to_bits(), 0x3FB9_9999_9999_999A);
    // Division by zero gives infinity, zero by zero is not a number.
    assert_eq!(one.divide(Binary64::from_bits(0)).to_bits(), 0x7FF0_0000_0000_0000);
    assert_eq!(
        Binary64::from_bits(0).divide(Binary64::from_bits(0)).to_bits(),
        0x7FF8_0000_0000_0000
    );
    assert_eq!(
        one.divide(Binary64::from_bits(0x8000_0000_0000_0000)).to_bits(),
        0xFFF0_0000_0000_0000
    );
}

#[test]
fn round_matches_the_processor() {
    for a in SPECIAL {
        check_round(a);
    }
    let mut state = 10u64;
    for _ in 0..100_000 {
        check_round(near_one(&mut state, 60));
        check_round(next(&mut state));
        // Numbers with exactly one fractional bit: halves.
        let n = next(&mut state) >> (12 + next(&mut state) % 40);
        check_round((n as f64 / 2.0).to_bits());
        check_round((-(n as f64) / 2.0).to_bits());
    }
}

#[test]
fn round_goes_away_from_zero_on_ties() {
    let round = |x: f64| f64::from_bits(Binary64::from_bits(x.to_bits()).round().to_bits());
    assert_eq!(round(10.5), 11.0);
    assert_eq!(round(11.5), 12.0);
    assert_eq!(round(0.5), 1.0);
    assert_eq!(round(-0.5), -1.0);
    assert_eq!(round(-2.5), -3.0);
    assert_eq!(round(2.4999999999999996), 2.0);
    assert_eq!(round(0.49999999999999994), 0.0);
    assert_eq!(round(4503599627370495.5), 4503599627370496.0);
    // A negative number that rounds to zero keeps its sign.
    assert_eq!(
        Binary64::from_bits((-0.25f64).to_bits()).round().to_bits(),
        0x8000_0000_0000_0000
    );
}

#[test]
fn to_u64_matches_the_processor() {
    for a in SPECIAL {
        check_to_u64(a);
    }
    let mut state = 11u64;
    for _ in 0..100_000 {
        check_to_u64(near_one(&mut state, 70));
        check_to_u64(next(&mut state));
    }
}

#[test]
fn to_u64_exact_values() {
    let cast = |x: f64| Binary64::from_bits(x.to_bits()).to_u64();
    assert_eq!(cast(0.0), 0);
    assert_eq!(cast(0.99), 0);
    assert_eq!(cast(11.0), 11);
    assert_eq!(cast(11.9), 11);
    assert_eq!(cast(-3.0), 0);
    assert_eq!(cast(18446744073709549568.0), 18446744073709549568);
    assert_eq!(cast(18446744073709551616.0), u64::MAX);
    assert_eq!(cast(1e300), u64::MAX);
    assert_eq!(cast(f64::INFINITY), u64::MAX);
    assert_eq!(cast(f64::NEG_INFINITY), 0);
    assert_eq!(cast(f64::NAN), 0);
}
