//! The record that a deposit leaves behind.
use crate::binary64::model::Binary64;
use anchor_lang::prelude::Pubkey;
use vstd::prelude::*;

verus! {

/// The currency of a deposit.
#[derive(Clone, Copy, Debug, PartialEq, Eq, Structural)]
pub enum Currency {
    Usdc,
    Sol,
}

impl Currency {
    /// The tag under which the currency appears in an event.
    pub open spec fn tag(self) -> Seq<char> {
        match self {
            Currency::Usdc => "USDC"@,
            Currency::Sol => "SOL"@,
        }
    }

    /// The tag as text.
    pub fn symbol(self) -> (text: String)
        ensures
            text@ == self.tag(),
    {
        match self {
            Currency::Usdc => "USDC".to_owned(),
            Currency::Sol => "SOL".to_owned(),
        }
    }
}

/// What is logged for each deposit.
#[derive(Debug, PartialEq, Eq)]
pub struct DepositEvent {
    /// The depositor's wallet.
    pub user_wallet: [u8; 32],
    /// The raw amount deposited.
    pub deposit_amount: u64,
    /// "USDC" or "SOL".
    pub deposit_currency: String,
    /// The value of the deposit in US dollars.
    pub usd_value: Binary64,
    /// The BVC to credit.
    pub bvc_amount: u64,
    /// The wallet that received the funds.
    pub admin_wallet: [u8; 32],
    /// A reference to the transaction.
    pub tx_signature: String,
}

/// A deposit event as mathematical data.
pub struct DepositEventView {
    pub user_wallet: Seq<u8>,
    pub deposit_amount: u64,
    pub deposit_currency: Seq<char>,
    pub usd_value: Binary64,
    pub bvc_amount: u64,
    pub admin_wallet: Seq<u8>,
    pub tx_signature: Seq<char>,
}

impl View for DepositEvent {
    type V = DepositEventView;

    open spec fn view(&self) -> DepositEventView {
        DepositEventView {
            user_wallet: self.user_wallet@,
            deposit_amount: self.deposit_amount,
            deposit_currency: self.deposit_currency@,
            usd_value: self.usd_value,
            bvc_amount: self.bvc_amount,
            admin_wallet: self.admin_wallet@,
            tx_signature: self.tx_signature@,
        }
    }
}

impl DepositEvent {
    /// An event from its parts.
    pub fn new(
        user_wallet: [u8; 32],
        deposit_amount: u64,
        currency: Currency,
        usd_value: Binary64,
        bvc_amount: u64,
        admin_wallet: [u8; 32],
        tx_signature: String,
    ) -> (event: DepositEvent)
        ensures
            event@ == (DepositEventView {
                user_wallet: user_wallet@,
                deposit_amount,
                deposit_currency: currency.tag(),
                usd_value,
                bvc_amount,
                admin_wallet: admin_wallet@,
                tx_signature: tx_signature@,
            }),
    {
        DepositEvent {
            user_wallet,
            deposit_amount,
            deposit_currency: currency.symbol(),
            usd_value,
            bvc_amount,
            admin_wallet,
            tx_signature,
        }
    }
}

/// The text form of a 32-byte account key: its base58 encoding.
pub uninterp spec fn base58_text(key: Seq<u8>) -> Seq<char>;

/// `Pubkey`'s `Display`, which `to_string` goes through: the key's bytes in
/// base58. Assumed: the text depends on the 32 bytes alone.
#[verifier::external_body]
pub(crate) fn key_to_text(key: &[u8; 32]) -> (text: String)
    ensures
        text@ == base58_text(key@),
{
    Pubkey::new_from_array(*key).to_string()
}

} // verus!
