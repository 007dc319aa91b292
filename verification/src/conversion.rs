//! From a raw deposit to its value in US dollars and in BVC.
use crate::binary64::model::{
    from_integer, nearest_integer, product, quotient, saturating_u64, Binary64,
};
use crate::binary64::range::{
    is_normal, lemma_from_integer_normal, lemma_product_normal, lemma_quotient_normal,
};
use vstd::prelude::*;

verus! {

/// Raw units in one USDC: the token has six decimals.
pub const USDC_UNIT: u64 = 1_000_000;

/// Lamports in one SOL: the coin has nine decimals.
pub const LAMPORTS_PER_SOL: u64 = 1_000_000_000;

/// The oracle quotes the price of one SOL in units of 10^-8 US dollars.
pub const PRICE_UNIT: u64 = 100_000_000;

/// BVC credited for one US dollar.
pub const BVC_PER_USD: u64 = 10;

/// US dollar value of a raw USDC amount: the amount, as a binary64 number,
/// divided by 10^6.
pub open spec fn usd_of_usdc(amount: u64) -> Binary64 {
    quotient(from_integer(amount as int), from_integer(USDC_UNIT as int))
}

/// US dollar value of a raw SOL amount at an oracle price: the amount in SOL
/// times the price in dollars, each obtained by one binary64 division.
pub open spec fn usd_of_sol(amount: u64, price: i128) -> Binary64 {
    product(
        quotient(from_integer(amount as int), from_integer(LAMPORTS_PER_SOL as int)),
        quotient(from_integer(price as int), from_integer(PRICE_UNIT as int)),
    )
}

/// BVC for a US dollar value: ten times the value, rounded to the nearest
/// integer with ties away from zero, and brought into the range of `u64`.
pub open spec fn bvc_of_usd(usd: Binary64) -> u64 {
    saturating_u64(nearest_integer(product(usd, from_integer(BVC_PER_USD as int))))
}

/// An amount divided by the unit of its currency is zero or a normal number
/// that is not negative.
proof fn lemma_units(amount: u64, unit: u64)
    requires
        unit > 0,
    ensures
        ({
            let units = quotient(from_integer(amount as int), from_integer(unit as int));
            &&& !units.is_negative()
            &&& amount == 0 ==> units.is_zero()
            &&& amount != 0 ==> is_normal(units) && -181 <= units.exponent() <= 77
        }),
{
    lemma_from_integer_normal(unit as int);
    if amount != 0 {
        lemma_from_integer_normal(amount as int);
        lemma_quotient_normal(from_integer(amount as int), from_integer(unit as int));
    }
}

/// The US dollar value of a USDC deposit is a finite number and not negative.
pub proof fn lemma_usd_of_usdc_is_finite(amount: u64)
    ensures
        usd_of_usdc(amount).is_finite(),
        !usd_of_usdc(amount).is_negative(),
{
    lemma_units(amount, USDC_UNIT);
}

/// The US dollar value of a SOL deposit is a finite number, whatever the
/// amount and the price; it is negative only at a negative price.
pub proof fn lemma_usd_of_sol_is_finite(amount: u64, price: i128)
    ensures
        usd_of_sol(amount, price).is_finite(),
        usd_of_sol(amount, price).is_negative() == (price < 0),
{
    lemma_units(amount, LAMPORTS_PER_SOL);
    let sol_amount = quotient(
        from_integer(amount as int),
        from_integer(LAMPORTS_PER_SOL as int),
    );
    let unit = from_integer(PRICE_UNIT as int);
    lemma_from_integer_normal(PRICE_UNIT as int);
    let sol_price = quotient(from_integer(price as int), unit);
    if price != 0 {
        lemma_from_integer_normal(price as int);
        lemma_quotient_normal(from_integer(price as int), unit);
        if amount != 0 {
            lemma_product_normal(sol_amount, sol_price);
        }
    }
    if amount == 0 || price == 0 {
        assert(sol_amount.significand() * sol_price.significand() == 0) by (nonlinear_arith)
            requires
                sol_amount.significand() == 0 || sol_price.significand() == 0,
        ;
    }
}

/// The US dollar value of a raw USDC amount.
pub fn usdc_to_usd(amount: u64) -> (usd: Binary64)
    ensures
        usd == usd_of_usdc(amount),
{
    Binary64::from_u64(amount).divide(Binary64::from_u64(USDC_UNIT))
}

/// The US dollar value of a raw SOL amount at the given oracle price.
pub fn sol_to_usd(amount: u64, price: i128) -> (usd: Binary64)
    ensures
        usd == usd_of_sol(amount, price),
{
    let sol_price: Binary64 = Binary64::from_i128(price).divide(Binary64::from_u64(PRICE_UNIT));
    let sol_amount: Binary64 = Binary64::from_u64(amount).divide(
        Binary64::from_u64(LAMPORTS_PER_SOL),
    );
    sol_amount.multiply(sol_price)
}

/// The BVC credited for a US dollar value.
pub fn usd_to_bvc(usd: Binary64) -> (bvc: u64)
    ensures
        bvc == bvc_of_usd(usd),
{
    usd.multiply(Binary64::from_u64(BVC_PER_USD)).round().to_u64()
}

} // verus!
