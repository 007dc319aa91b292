//! Reading the price of SOL from a Chainlink feed account.
use chainlink_solana::v2::{read_feed_v2, ReadError};
use std::cell::RefCell;
use vstd::prelude::*;

verus! {

/// Where the header of a feed account ends: eight bytes of discriminator and
/// 192 of header. A shorter account is not handed to the feed client.
pub const FEED_HEADER_END: usize = 200;

/// Why a feed account gave no price.
#[derive(Clone, Copy, Debug, PartialEq, Eq, Structural)]
pub enum FeedError {
    /// The account ends before its header does.
    TooShort,
    /// The account is not owned by the feed program.
    InvalidOwner,
    /// The data does not start as a feed account does.
    InvalidDiscriminator,
    /// The account is invalid.
    InvalidAccount,
    /// The header could not be decoded.
    DeserializeFailed,
    /// The feed does not hold exactly one live transmission.
    FeedLengthInvalid,
    /// The transmission is missing.
    MalformedData,
    /// No round has been reported yet.
    TransmissionNotFound,
}

/// What the feed client reads from an account with the given data and owner:
/// the answer of the latest round if there is one, or why the account was
/// refused.
pub uninterp spec fn latest_answer(data: Seq<u8>, owner: Seq<u8>) -> Result<
    Option<i128>,
    FeedError,
>;

/// `chainlink_solana::v2::read_feed_v2` on a copy of the account data,
/// followed by `Feed::latest_round_data`. Assumed: the outcome depends on the
/// data and the owner alone, on machines that store integers as the feed
/// account does, the low byte first. The account must be long enough for the
/// client to split off the header, which it does without a test of its own.
#[verifier::external_body]
fn read_latest_answer(data: &[u8], owner: &[u8; 32]) -> (reading: Result<Option<i128>, FeedError>)
    requires
        data@.len() >= FEED_HEADER_END,
    ensures
        reading == latest_answer(data@, owner@),
{
    let mut bytes = data.to_vec();
    let cell = RefCell::new(bytes.as_mut_slice());
    match read_feed_v2(cell.borrow(), *owner) {
        Ok(feed) => Ok(feed.latest_round_data().map(|round| round.answer)),
        Err(ReadError::InvalidOwner) => Err(FeedError::InvalidOwner),
        Err(ReadError::InvalidDiscriminator) => Err(FeedError::InvalidDiscriminator),
        Err(ReadError::InvalidAccount) => Err(FeedError::InvalidAccount),
        Err(ReadError::DeserializeFailed) => Err(FeedError::DeserializeFailed),
        Err(ReadError::FeedLengthInvalid) => Err(FeedError::FeedLengthInvalid),
        Err(ReadError::MalformedData) => Err(FeedError::MalformedData),
        Err(ReadError::TransmissionNotFound) => Err(FeedError::TransmissionNotFound),
    }
}

/// The price that a reading stands for: a feed without a round has none.
pub open spec fn price_of(reading: Result<Option<i128>, FeedError>) -> Result<i128, FeedError> {
    match reading {
        Ok(Some(answer)) => Ok(answer),
        Ok(None) => Err(FeedError::TransmissionNotFound),
        Err(error) => Err(error),
    }
}

/// The price of SOL according to a feed account with the given data and
/// owner.
pub open spec fn feed_price(data: Seq<u8>, owner: Seq<u8>) -> Result<i128, FeedError> {
    if data.len() < FEED_HEADER_END {
        Err(FeedError::TooShort)
    } else {
        price_of(latest_answer(data, owner))
    }
}

/// Turns what the feed client returned into a price or an error.
pub fn reading_to_price(reading: Result<Option<i128>, FeedError>) -> (price: Result<
    i128,
    FeedError,
>)
    ensures
        price == price_of(reading),
{
    match reading {
        Ok(Some(answer)) => Ok(answer),
        Ok(None) => Err(FeedError::TransmissionNotFound),
        Err(error) => Err(error),
    }
}

/// Reads the latest price from a feed account.
pub fn read_price(data: &[u8], owner: &[u8; 32]) -> (price: Result<i128, FeedError>)
    ensures
        price == feed_price(data@, owner@),
{
    if data.len() < FEED_HEADER_END {
        Err(FeedError::TooShort)
    } else {
        reading_to_price(read_latest_answer(data, owner))
    }
}

} // verus!
