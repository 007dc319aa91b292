use anchor_lang::prelude::Pubkey;
use bravencia_program::oracle::{read_price, reading_to_price, FeedError, FEED_HEADER_END};

fn program() -> [u8; 32] {
    "HEvSKofvBgfaexv23kMabbYqxasxU3mQ4ibBMEmJWHny".parse::<Pubkey>().unwrap().to_bytes()
}

/// A feed account: discriminator, header, and as much of a transmission as
/// fits into `len` bytes.
fn account(latest_round_id: u32, live_length: u32, answer: i128, len: usize) -> Vec<u8> {
    let mut data = vec![96u8, 179, 69, 66, 128, 129, 73, 117];
    data.push(1);
    data.push(0);
    data.extend_from_slice(&[7u8; 96]);
    data.extend_from_slice(&[0u8; 32]);
    data.push(8);
    data.extend_from_slice(&42u32.to_le_bytes());
    data.extend_from_slice(&latest_round_id.to_le_bytes());
    data.push(1);
    data.extend_from_slice(&live_length.to_le_bytes());
    data.extend_from_slice(&0u32.to_le_bytes());
    data.extend_from_slice(&0u32.to_le_bytes());
    data.resize(200, 0);
    data.extend_from_slice(&123u64.to_le_bytes());
    data.extend_from_slice(&1u32.to_le_bytes());
    data.extend_from_slice(&0u32.to_le_bytes());
    data.extend_from_slice(&answer.to_le_bytes());
    data.extend_from_slice(&[0u8; 16]);
    data.resize(len, 0);
    data
}

#[test]
fn header_end() {
    assert_eq!(FEED_HEADER_END, 200);
}

#[test]
fn price_is_the_answer_of_the_latest_round() {
    assert_eq!(read_price(&account(10, 1, 12, 248), &program()), Ok(12));
    assert_eq!(read_price(&account(1, 1, 14_237_000_000, 248), &program()), Ok(14_237_000_000));
    assert_eq!(read_price(&account(1, 1, -5, 248), &program()), Ok(-5));
    assert_eq!(read_price(&account(1, 1, i128::MAX, 300), &program()), Ok(i128::MAX));
    assert_eq!(read_price(&account(1, 1, i128::MIN, 248), &program()), Ok(i128::MIN));
}

#[test]
fn short_account_is_refused() {
    assert_eq!(read_price(&[], &program()), Err(FeedError::TooShort));
    assert_eq!(read_price(&account(10, 1, 12, 199), &program()), Err(FeedError::TooShort));
    assert_eq!(read_price(&account(10, 1, 12, 160), &program()), Err(FeedError::TooShort));
}

#[test]
fn account_without_a_whole_transmission_is_malformed() {
    assert_eq!(read_price(&account(10, 1, 12, 200), &program()), Err(FeedError::MalformedData));
    assert_eq!(read_price(&account(10, 1, 12, 247), &program()), Err(FeedError::MalformedData));
}

#[test]
fn foreign_data_is_refused() {
    let mut data = account(10, 1, 12, 248);
    data[0] = 0;
    assert_eq!(read_price(&data, &program()), Err(FeedError::InvalidDiscriminator));
    assert_eq!(read_price(&[0u8; 248], &program()), Err(FeedError::InvalidDiscriminator));
}

#[test]
fn foreign_owner_is_refused() {
    assert_eq!(read_price(&account(10, 1, 12, 248), &[0u8; 32]), Err(FeedError::InvalidOwner));
}

#[test]
fn feed_with_several_transmissions_is_refused() {
    assert_eq!(read_price(&account(10, 2, 12, 248), &program()), Err(FeedError::FeedLengthInvalid));
    assert_eq!(read_price(&account(10, 0, 12, 248), &program()), Err(FeedError::FeedLengthInvalid));
}

#[test]
fn feed_without_a_round_is_refused() {
    assert_eq!(read_price(&account(0, 1, 12, 248), &program()), Err(FeedError::TransmissionNotFound));
}

#[test]
fn readings_become_prices() {
    assert_eq!(reading_to_price(Ok(Some(7))), Ok(7));
    assert_eq!(reading_to_price(Ok(Some(-7))), Ok(-7));
    assert_eq!(reading_to_price(Ok(None)), Err(FeedError::TransmissionNotFound));
    for error in [
        FeedError::TooShort,
        FeedError::InvalidOwner,
        FeedError::InvalidDiscriminator,
        FeedError::InvalidAccount,
        FeedError::DeserializeFailed,
        FeedError::FeedLengthInvalid,
        FeedError::MalformedData,
        FeedError::TransmissionNotFound,
    ] {
        assert_eq!(reading_to_price(Err(error)), Err(error));
    }
}
