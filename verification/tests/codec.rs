//! Canonical encoding and decoding: round trips, exact lengths, byte-level
//! layout, and rejection of malformed or non-canonical input.

use stake_bid::{Bid, DecodeError, Delegator, PublicKey, URef, U512, READ_ADD_WRITE};

#[test]
fn serialization_roundtrip() {
    let mut founding_validator = Bid::locked(
        URef::new([42; 32], READ_ADD_WRITE),
        U512::one(),
        u64::MAX - 1,
    );
    founding_validator.with_delegation_rate(u8::MAX);
    founding_validator.increase_reward(U512::one()).unwrap();
    let bytes = founding_validator.to_bytes();
    assert_eq!(founding_validator.serialized_length(), bytes.len());
    let (decoded, rest) = Bid::from_bytes(&bytes).unwrap();
    assert!(rest.is_empty());
    assert_eq!(decoded, founding_validator);
}

#[test]
fn roundtrip_with_delegators() {
    let mut bid = Bid::unlocked(URef::new([9; 32], READ_ADD_WRITE), U512::from_u64(100), 5);
    bid.increase_reward(U512::from_u64(77)).unwrap();
    let delegators = bid.delegators_mut();
    delegators.insert(PublicKey::new(300), Delegator::new(U512::from_u64(70)));
    delegators.insert(PublicKey::new(2), Delegator::new(U512::from_u64(30)));
    let bytes = bid.to_bytes();
    assert_eq!(bid.serialized_length(), bytes.len());
    let (decoded, rest) = Bid::from_bytes(&bytes).unwrap();
    assert!(rest.is_empty());
    assert_eq!(decoded, bid);
}

#[test]
fn roundtrip_keeps_trailing_bytes() {
    let bid = Bid::unlocked(URef::new([1; 32], READ_ADD_WRITE), U512::from_u64(3), 1);
    let mut bytes = bid.to_bytes();
    bytes.push(0xAB);
    bytes.push(0xCD);
    let (decoded, rest) = Bid::from_bytes(&bytes).unwrap();
    assert_eq!(decoded, bid);
    assert_eq!(rest, &[0xAB, 0xCD][..]);
}

#[test]
fn length_accuracy() {
    let locked = Bid::locked(URef::new([0; 32], READ_ADD_WRITE), U512::zero(), 9);
    assert_eq!(locked.serialized_length(), locked.to_bytes().len());
    let mut with_delegator = Bid::unlocked(
        URef::new([8; 32], READ_ADD_WRITE),
        U512::max_value(),
        1,
    );
    with_delegator.delegators_mut().insert(PublicKey::new(4), Delegator::new(U512::one()));
    assert_eq!(with_delegator.serialized_length(), with_delegator.to_bytes().len());
}

#[test]
fn exact_byte_layout() {
    let bid = Bid::unlocked(URef::new([7; 32], READ_ADD_WRITE), U512::from_u64(5), 2);
    let mut expected: Vec<u8> = vec![7; 32];
    expected.push(7);
    expected.extend([1, 5]);
    expected.push(2);
    expected.push(0);
    expected.extend([0, 0, 0, 0]);
    expected.push(0);
    assert_eq!(bid.to_bytes(), expected);
    assert_eq!(bid.serialized_length(), 42);
}

#[test]
fn exact_byte_layout_locked() {
    let bid = Bid::locked(URef::new([1; 32], READ_ADD_WRITE), U512::from_u64(258), 3);
    let mut expected: Vec<u8> = vec![1; 32];
    expected.push(7);
    expected.extend([2, 2, 1]);
    expected.push(0);
    expected.extend([1, 3, 0, 0, 0, 0, 0, 0, 0]);
    expected.extend([0, 0, 0, 0]);
    expected.push(0);
    assert_eq!(bid.to_bytes(), expected);
}

#[test]
fn decode_empty_input() {
    assert_eq!(Bid::from_bytes(&[]).unwrap_err(), DecodeError::EarlyEndOfStream);
}

#[test]
fn decode_truncated_input() {
    let bid = Bid::unlocked(URef::new([3; 32], READ_ADD_WRITE), U512::from_u64(5), 2);
    let bytes = bid.to_bytes();
    for cut in 0..bytes.len() {
        assert_eq!(
            Bid::from_bytes(&bytes[..cut]).unwrap_err(),
            DecodeError::EarlyEndOfStream,
        );
    }
}

#[test]
fn decode_oversized_amount_width() {
    let bid = Bid::unlocked(URef::new([3; 32], READ_ADD_WRITE), U512::from_u64(5), 2);
    let mut bytes = bid.to_bytes();
    bytes[33] = 65;
    assert_eq!(Bid::from_bytes(&bytes).unwrap_err(), DecodeError::Formatting);
}

#[test]
fn decode_noncanonical_amount() {
    let mut bytes: Vec<u8> = vec![3; 32];
    bytes.push(7);
    bytes.extend([2, 5, 0]);
    assert_eq!(Bid::from_bytes(&bytes).unwrap_err(), DecodeError::Formatting);
}

#[test]
fn decode_bad_lock_tag() {
    let bid = Bid::unlocked(URef::new([3; 32], READ_ADD_WRITE), U512::from_u64(5), 2);
    let mut bytes = bid.to_bytes();
    bytes[36] = 9;
    assert_eq!(Bid::from_bytes(&bytes).unwrap_err(), DecodeError::Formatting);
}

#[test]
fn decode_unsorted_delegators() {
    let mut bytes: Vec<u8> = vec![1; 32];
    bytes.push(7);
    bytes.extend([1, 100]);
    bytes.push(5);
    bytes.push(0);
    bytes.extend([2, 0, 0, 0]);
    bytes.extend([9, 0, 0, 0, 0, 0, 0, 0]);
    bytes.extend([1, 30]);
    bytes.extend([3, 0, 0, 0, 0, 0, 0, 0]);
    bytes.extend([1, 70]);
    bytes.push(0);
    assert_eq!(Bid::from_bytes(&bytes).unwrap_err(), DecodeError::Formatting);
}

#[test]
fn encoding_ignores_insertion_order() {
    let mut first = Bid::unlocked(URef::new([6; 32], READ_ADD_WRITE), U512::from_u64(1), 0);
    first.delegators_mut().insert(PublicKey::new(1), Delegator::new(U512::from_u64(10)));
    first.delegators_mut().insert(PublicKey::new(2), Delegator::new(U512::from_u64(20)));
    let mut second = Bid::unlocked(URef::new([6; 32], READ_ADD_WRITE), U512::from_u64(1), 0);
    second.delegators_mut().insert(PublicKey::new(2), Delegator::new(U512::from_u64(20)));
    second.delegators_mut().insert(PublicKey::new(1), Delegator::new(U512::from_u64(10)));
    assert_eq!(first.to_bytes(), second.to_bytes());
    assert_eq!(first, second);
}
