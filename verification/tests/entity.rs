//! Behaviour of the bid entity: constructors, lock lifecycle, checked stake
//! and reward arithmetic, and delegator aggregation.

use stake_bid::{Bid, Delegator, Error, PublicKey, URef, U512, READ_ADD_WRITE};

fn purse() -> URef {
    URef::new([42; 32], READ_ADD_WRITE)
}

#[test]
fn locked_constructor_defaults() {
    let bid = Bid::locked(purse(), U512::from_u64(100), 1000);
    assert!(bid.is_locked());
    assert_eq!(bid.release_timestamp_millis(), Some(1000));
    assert_eq!(bid.staked_amount(), &U512::from_u64(100));
    assert_eq!(bid.delegation_rate(), &0);
    assert_eq!(bid.reward(), &U512::zero());
    assert_eq!(bid.delegators().len(), 0);
    assert_eq!(bid.bonding_purse(), &purse());
}

#[test]
fn unlocked_constructor_defaults() {
    let bid = Bid::unlocked(purse(), U512::from_u64(7), 35);
    assert!(!bid.is_locked());
    assert_eq!(bid.release_timestamp_millis(), None);
    assert_eq!(bid.delegation_rate(), &35);
    assert_eq!(bid.reward(), &U512::zero());
}

#[test]
fn lock_gating() {
    let mut bid = Bid::locked(purse(), U512::from_u64(100), 1000);
    assert_eq!(bid.decrease_stake(U512::from_u64(1)), Err(Error::FundsLocked));
    assert_eq!(bid.decrease_stake(U512::from_u64(100)), Err(Error::FundsLocked));
    assert_eq!(bid.decrease_stake(U512::zero()), Err(Error::FundsLocked));
    assert_eq!(bid.staked_amount(), &U512::from_u64(100));
    assert!(bid.is_locked());
}

#[test]
fn decrease_semantics() {
    let mut bid = Bid::unlocked(purse(), U512::from_u64(100), 0);
    assert_eq!(bid.decrease_stake(U512::from_u64(150)), Err(Error::InvalidAmount));
    assert_eq!(bid.staked_amount(), &U512::from_u64(100));
    assert_eq!(bid.decrease_stake(U512::from_u64(40)), Ok(U512::from_u64(60)));
    assert_eq!(bid.staked_amount(), &U512::from_u64(60));
}

#[test]
fn increase_overflow_boundary() {
    let mut bid = Bid::unlocked(purse(), U512::max_value(), 0);
    assert_eq!(bid.increase_stake(U512::from_u64(1)), Err(Error::InvalidAmount));
    assert_eq!(bid.staked_amount(), &U512::max_value());
    assert_eq!(bid.increase_stake(U512::zero()), Ok(U512::max_value()));
}

#[test]
fn unlock_transition() {
    let mut bid = Bid::locked(purse(), U512::from_u64(1), 1000);
    assert!(!bid.unlock(999));
    assert!(bid.is_locked());
    assert_eq!(bid.release_timestamp_millis(), Some(1000));
    assert!(bid.unlock(1000));
    assert!(!bid.is_locked());
    assert_eq!(bid.release_timestamp_millis(), None);
    assert!(!bid.unlock(5000));
    assert!(!bid.unlock(0));
    assert!(!bid.is_locked());
}

#[test]
fn aggregation() {
    let mut bid = Bid::unlocked(purse(), U512::from_u64(100), 0);
    let delegators = bid.delegators_mut();
    delegators.insert(PublicKey::new(11), Delegator::new(U512::from_u64(30)));
    delegators.insert(PublicKey::new(22), Delegator::new(U512::from_u64(70)));
    assert_eq!(bid.total_staked_amount(), Ok(U512::from_u64(200)));
}

#[test]
fn aggregation_overflow() {
    let mut bid = Bid::unlocked(purse(), U512::from_u64(100), 0);
    let delegators = bid.delegators_mut();
    delegators.insert(PublicKey::new(11), Delegator::new(U512::from_u64(30)));
    delegators.insert(PublicKey::new(22), Delegator::new(U512::max_value()));
    assert_eq!(bid.total_staked_amount(), Err(Error::InvalidAmount));
}

#[test]
fn end_to_end() {
    let mut bid = Bid::unlocked(purse(), U512::from_u64(100), 5);
    assert_eq!(bid.increase_stake(U512::from_u64(50)), Ok(U512::from_u64(150)));
    assert_eq!(bid.decrease_stake(U512::from_u64(200)), Err(Error::InvalidAmount));
    assert_eq!(bid.staked_amount(), &U512::from_u64(150));
    assert_eq!(bid.decrease_stake(U512::from_u64(50)), Ok(U512::from_u64(100)));
    assert_eq!(bid.staked_amount(), &U512::from_u64(100));
}

#[test]
fn reward_arithmetic() {
    let mut bid = Bid::unlocked(purse(), U512::from_u64(1), 0);
    assert_eq!(bid.increase_reward(U512::from_u64(9)), Ok(U512::from_u64(9)));
    assert_eq!(bid.increase_reward(U512::from_u64(1)), Ok(U512::from_u64(10)));
    assert_eq!(bid.reward(), &U512::from_u64(10));
    assert_eq!(bid.increase_reward(U512::max_value()), Err(Error::InvalidAmount));
    assert_eq!(bid.reward(), &U512::from_u64(10));
    bid.zero_reward();
    assert_eq!(bid.reward(), &U512::zero());
}

#[test]
fn delegation_rate_update() {
    let mut bid = Bid::unlocked(purse(), U512::from_u64(1), 0);
    bid.with_delegation_rate(42);
    assert_eq!(bid.delegation_rate(), &42);
}

#[test]
fn delegator_map_replace_and_get() {
    let mut bid = Bid::unlocked(purse(), U512::from_u64(1), 0);
    let delegators = bid.delegators_mut();
    assert!(delegators.insert(PublicKey::new(5), Delegator::new(U512::from_u64(30))).is_none());
    let old = delegators.insert(PublicKey::new(5), Delegator::new(U512::from_u64(40)));
    assert_eq!(old, Some(Delegator::new(U512::from_u64(30))));
    assert_eq!(delegators.len(), 1);
    assert_eq!(delegators.get(PublicKey::new(5)), Some(&Delegator::new(U512::from_u64(40))));
    assert_eq!(delegators.get(PublicKey::new(6)), None);
}

#[test]
fn delegator_map_remove() {
    let mut bid = Bid::unlocked(purse(), U512::from_u64(100), 0);
    let delegators = bid.delegators_mut();
    delegators.insert(PublicKey::new(11), Delegator::new(U512::from_u64(30)));
    delegators.insert(PublicKey::new(22), Delegator::new(U512::from_u64(70)));
    assert_eq!(delegators.remove(PublicKey::new(99)), None);
    assert_eq!(delegators.len(), 2);
    assert_eq!(delegators.remove(PublicKey::new(11)), Some(Delegator::new(U512::from_u64(30))));
    assert_eq!(delegators.len(), 1);
    assert_eq!(bid.total_staked_amount(), Ok(U512::from_u64(170)));
}

#[test]
fn u512_checked_arithmetic() {
    let a = U512::from_u64(200);
    let b = U512::from_u64(55);
    assert_eq!(a.checked_add(&b), Some(U512::from_u64(255)));
    assert_eq!(a.checked_sub(&b), Some(U512::from_u64(145)));
    assert_eq!(b.checked_sub(&a), None);
    assert_eq!(U512::max_value().checked_add(&U512::one()), None);
    assert_eq!(U512::max_value().checked_add(&U512::zero()), Some(U512::max_value()));
    assert_eq!(U512::from_u64(0), U512::zero());
    assert_eq!(U512::from_u64(1), U512::one());
}
