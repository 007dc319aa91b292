//! The two deposits: what each one logs.
use crate::conversion::{bvc_of_usd, sol_to_usd, usd_of_sol, usd_of_usdc, usd_to_bvc, usdc_to_usd};
use crate::event::{base58_text, key_to_text, Currency, DepositEvent, DepositEventView};
use crate::oracle::{feed_price, read_price, FeedError};
use vstd::prelude::*;

verus! {

/// The accounts of a USDC deposit.
#[derive(Debug, PartialEq, Eq)]
pub struct DepositUsdc {
    /// The token account that the USDC leaves.
    pub user_usdc_account: [u8; 32],
    /// The token account that receives the USDC.
    pub admin_usdc_account: [u8; 32],
    /// The wallet that owns the receiving token account.
    pub admin_usdc_owner: [u8; 32],
    /// The depositor's wallet, which signs the transfer.
    pub user_wallet: [u8; 32],
}

/// The accounts of a SOL deposit.
#[derive(Debug, PartialEq, Eq)]
pub struct DepositSol {
    /// The depositor's wallet, which the SOL leaves.
    pub user_wallet: [u8; 32],
    /// The wallet that receives the SOL.
    pub admin_wallet: [u8; 32],
    /// The data of the price feed account.
    pub feed_data: Vec<u8>,
    /// The program that owns the price feed account.
    pub feed_owner: [u8; 32],
}

/// The event of a USDC deposit. The reference it carries is the depositor's
/// key as text.
pub open spec fn usdc_event(accounts: DepositUsdc, amount: u64) -> DepositEventView {
    DepositEventView {
        user_wallet: accounts.user_wallet@,
        deposit_amount: amount,
        deposit_currency: Currency::Usdc.tag(),
        usd_value: usd_of_usdc(amount),
        bvc_amount: bvc_of_usd(usd_of_usdc(amount)),
        admin_wallet: accounts.admin_usdc_owner@,
        tx_signature: base58_text(accounts.user_wallet@),
    }
}

/// The event of a SOL deposit at the given price.
pub open spec fn sol_event(accounts: DepositSol, amount: u64, price: i128) -> DepositEventView {
    DepositEventView {
        user_wallet: accounts.user_wallet@,
        deposit_amount: amount,
        deposit_currency: Currency::Sol.tag(),
        usd_value: usd_of_sol(amount, price),
        bvc_amount: bvc_of_usd(usd_of_sol(amount, price)),
        admin_wallet: accounts.admin_wallet@,
        tx_signature: base58_text(accounts.user_wallet@),
    }
}

/// The event to log once `amount` raw USDC have moved from the depositor to
/// the administrator.
pub fn deposit_usdc(accounts: &DepositUsdc, amount: u64) -> (event: DepositEvent)
    ensures
        event@ == usdc_event(*accounts, amount),
        event.deposit_currency@ == "USDC"@,
{
    let usd_value = usdc_to_usd(amount);
    DepositEvent::new(
        accounts.user_wallet,
        amount,
        Currency::Usdc,
        usd_value,
        usd_to_bvc(usd_value),
        accounts.admin_usdc_owner,
        key_to_text(&accounts.user_wallet),
    )
}

/// The event of a SOL deposit whose price has been read.
pub fn sol_deposit_event(accounts: &DepositSol, amount: u64, price: i128) -> (event: DepositEvent)
    ensures
        event@ == sol_event(*accounts, amount, price),
        event.deposit_currency@ == "SOL"@,
{
    let usd_value = sol_to_usd(amount, price);
    DepositEvent::new(
        accounts.user_wallet,
        amount,
        Currency::Sol,
        usd_value,
        usd_to_bvc(usd_value),
        accounts.admin_wallet,
        key_to_text(&accounts.user_wallet),
    )
}

/// The event to log once `amount` lamports have moved from the depositor to
/// the administrator, valued at the latest price of the feed account. Without
/// a price there is no event: the error says why the feed gave none.
pub fn deposit_sol(accounts: &DepositSol, amount: u64) -> (outcome: Result<DepositEvent, FeedError>)
    ensures
        match feed_price(accounts.feed_data@, accounts.feed_owner@) {
            Ok(price) => outcome is Ok && outcome->Ok_0@ == sol_event(*accounts, amount, price),
            Err(error) => outcome == Err::<DepositEvent, FeedError>(error),
        },
        outcome is Ok ==> outcome->Ok_0.deposit_currency@ == "SOL"@,
{
    match read_price(accounts.feed_data.as_slice(), &accounts.feed_owner) {
        Ok(price) => Ok(sol_deposit_event(accounts, amount, price)),
        Err(error) => Err(error),
    }
}

} // verus!
