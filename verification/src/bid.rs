//! The bid entity: a validator's stake record with an explicit one-way
//! funds-lock lifecycle, checked monetary arithmetic, and a canonical,
//! self-delimiting byte encoding.

use vstd::prelude::*;
use vstd::bytes::spec_u64_to_le_bytes;
use crate::{DecodeError, Error};
use crate::codec::{lemma_prefix_shift, lemma_u64_le_injective, read_u64, write_u64};
use crate::delegator::{
    Delegators, enc_delegators, entries_like, lemma_enc_delegators_prefix_free,
    lemma_enc_entries_equal, read_delegators, sum_stakes, lemma_sum_stakes_take_succ,
    lemma_sum_stakes_take_le, write_delegators, delegators_encoded_length,
};
use crate::u512::{U512, enc_u512, lemma_enc_u512_prefix_free, max_val, read_u512, write_u512};
use crate::uref::{URef, enc_uref, lemma_enc_uref_prefix_free, read_uref, write_uref};

verus! {

/// The validator's cut of rewards, as a single byte; range validation is an
/// external collaborator's responsibility.
pub type DelegationRate = u8;

/// Whether the bid's funds are withheld until a release timestamp, or free.
/// Once unlocked, this entity's own operations never lock the bid again.
#[derive(Clone, Copy, Debug, PartialEq, Eq, Structural)]
pub enum LockState {
    /// Funds are locked until the given epoch-millisecond timestamp.
    Locked { release_timestamp_millis: u64 },
    /// Funds may be withdrawn.
    Unlocked,
}

/// Canonical encoding of the lock state: a presence byte, then the release
/// timestamp when present.
pub open spec fn enc_lock(l: LockState) -> Seq<u8> {
    match l {
        LockState::Locked { release_timestamp_millis } => seq![1u8] + spec_u64_to_le_bytes(
            release_timestamp_millis,
        ),
        LockState::Unlocked => seq![0u8],
    }
}

/// An entry in a founding validator map: one validator's stake record.
#[derive(Debug)]
pub struct Bid {
    /// The purse that was used for bonding.
    pub bonding_purse: URef,
    /// The amount of tokens staked by the validator, excluding delegators.
    pub staked_amount: U512,
    /// The validator's delegation rate.
    pub delegation_rate: DelegationRate,
    /// Whether, and until when, the bid's funds are locked.
    pub lock_state: LockState,
    /// The validator's delegators, ordered by their public keys.
    pub delegators: Delegators,
    /// The validator's accumulated seigniorage reward.
    pub reward: U512,
}

/// Canonical encoding of a bid: its fields in declared order, each field
/// self-delimiting.
pub open spec fn enc_bid(b: Bid) -> Seq<u8> {
    enc_uref(b.bonding_purse) + enc_u512(b.staked_amount) + seq![b.delegation_rate] + enc_lock(
        b.lock_state,
    ) + enc_delegators(b.delegators) + enc_u512(b.reward)
}

/// Two bids agree on every field, comparing representations pointwise.
pub open spec fn bid_like(a: Bid, b: Bid) -> bool {
    &&& a.bonding_purse.addr@ == b.bonding_purse.addr@
    &&& a.bonding_purse.access_rights == b.bonding_purse.access_rights
    &&& a.staked_amount.bytes@ == b.staked_amount.bytes@
    &&& a.delegation_rate == b.delegation_rate
    &&& a.lock_state == b.lock_state
    &&& entries_like(a.delegators.entries@, b.delegators.entries@)
    &&& a.reward.bytes@ == b.reward.bytes@
}

/// `b` with its staked amount replaced.
pub open spec fn with_staked(b: Bid, v: U512) -> Bid {
    Bid {
        bonding_purse: b.bonding_purse,
        staked_amount: v,
        delegation_rate: b.delegation_rate,
        lock_state: b.lock_state,
        delegators: b.delegators,
        reward: b.reward,
    }
}

/// `b` with its reward replaced.
pub open spec fn with_reward(b: Bid, v: U512) -> Bid {
    Bid {
        bonding_purse: b.bonding_purse,
        staked_amount: b.staked_amount,
        delegation_rate: b.delegation_rate,
        lock_state: b.lock_state,
        delegators: b.delegators,
        reward: v,
    }
}

/// `b` with its lock state replaced.
pub open spec fn with_lock(b: Bid, l: LockState) -> Bid {
    Bid {
        bonding_purse: b.bonding_purse,
        staked_amount: b.staked_amount,
        delegation_rate: b.delegation_rate,
        lock_state: l,
        delegators: b.delegators,
        reward: b.reward,
    }
}

/// `b` with its delegation rate replaced.
pub open spec fn with_rate(b: Bid, r: DelegationRate) -> Bid {
    Bid {
        bonding_purse: b.bonding_purse,
        staked_amount: b.staked_amount,
        delegation_rate: r,
        lock_state: b.lock_state,
        delegators: b.delegators,
        reward: b.reward,
    }
}

/// `b` with its delegators replaced.
pub open spec fn with_delegators(b: Bid, d: Delegators) -> Bid {
    Bid {
        bonding_purse: b.bonding_purse,
        staked_amount: b.staked_amount,
        delegation_rate: b.delegation_rate,
        lock_state: b.lock_state,
        delegators: d,
        reward: b.reward,
    }
}

impl Bid {
    /// Every monetary field well-formed and the delegator map ordered.
    pub open spec fn wf(self) -> bool {
        &&& self.bonding_purse.wf()
        &&& self.staked_amount.wf()
        &&& self.delegators.wf()
        &&& self.reward.wf()
    }

    /// The release timestamp, defined only while the bid is locked.
    pub open spec fn spec_release(self) -> Option<u64> {
        match self.lock_state {
            LockState::Locked { release_timestamp_millis } => Some(release_timestamp_millis),
            LockState::Unlocked => None,
        }
    }

    /// The validator's own stake plus every delegator's stake.
    pub open spec fn spec_total_stake(self) -> nat {
        self.staked_amount.val() + sum_stakes(self.delegators.entries@)
    }

    /// Creates a new bid with locked funds: zero delegation rate, no
    /// delegators, zero reward.
    pub fn locked(bonding_purse: URef, staked_amount: U512, release_timestamp_millis: u64) -> (r:
        Bid)
        requires
            bonding_purse.wf(),
            staked_amount.wf(),
        ensures
            r.wf(),
            r.bonding_purse == bonding_purse,
            r.staked_amount == staked_amount,
            r.delegation_rate == 0,
            r.lock_state == (LockState::Locked { release_timestamp_millis }),
            r.delegators.entries@.len() == 0,
            r.reward.val() == 0,
    {
        Bid {
            bonding_purse,
            staked_amount,
            delegation_rate: 0,
            lock_state: LockState::Locked { release_timestamp_millis },
            delegators: Delegators::new(),
            reward: U512::zero(),
        }
    }

    /// Creates a new bid with unlocked funds: no delegators, zero reward.
    pub fn unlocked(bonding_purse: URef, staked_amount: U512, delegation_rate: DelegationRate) -> (
        r: Bid)
        requires
            bonding_purse.wf(),
            staked_amount.wf(),
        ensures
            r.wf(),
            r.bonding_purse == bonding_purse,
            r.staked_amount == staked_amount,
            r.delegation_rate == delegation_rate,
            r.lock_state == LockState::Unlocked,
            r.delegators.entries@.len() == 0,
            r.reward.val() == 0,
    {
        Bid {
            bonding_purse,
            staked_amount,
            delegation_rate,
            lock_state: LockState::Unlocked,
            delegators: Delegators::new(),
            reward: U512::zero(),
        }
    }

    /// Gets the bonding purse of the provided bid.
    pub fn bonding_purse(&self) -> (r: &URef)
        ensures
            *r == self.bonding_purse,
    {
        &self.bonding_purse
    }

    /// Gets the staked amount of the provided bid.
    pub fn staked_amount(&self) -> (r: &U512)
        ensures
            *r == self.staked_amount,
    {
        &self.staked_amount
    }

    /// Gets the delegation rate of the provided bid.
    pub fn delegation_rate(&self) -> (r: &DelegationRate)
        ensures
            *r == self.delegation_rate,
    {
        &self.delegation_rate
    }

    /// Returns `true` if the provided bid is locked.
    pub fn is_locked(&self) -> (r: bool)
        ensures
            r <==> self.lock_state is Locked,
    {
        match self.lock_state {
            LockState::Locked { .. } => true,
            LockState::Unlocked => false,
        }
    }

    /// Returns the timestamp at which the bid is unlocked, or `None` if the
    /// bid is already unlocked.
    pub fn release_timestamp_millis(&self) -> (r: Option<u64>)
        ensures
            r == self.spec_release(),
    {
        match self.lock_state {
            LockState::Locked { release_timestamp_millis } => Some(release_timestamp_millis),
            LockState::Unlocked => None,
        }
    }

    /// Returns a read view of the delegators of the provided bid.
    pub fn delegators(&self) -> (r: &Delegators)
        ensures
            *r == self.delegators,
    {
        &self.delegators
    }

    /// Returns a mutation-capable view of the delegators, for the external
    /// collaborator that manages delegator lifecycles.
    pub fn delegators_mut(&mut self) -> (r: &mut Delegators)
        ensures
            *r == old(self).delegators,
            *final(self) == with_delegators(*old(self), *final(r)),
    {
        &mut self.delegators
    }

    /// Returns the seigniorage reward of the provided bid.
    pub fn reward(&self) -> (r: &U512)
        ensures
            *r == self.reward,
    {
        &self.reward
    }

    /// Decreases the stake of the provided bid. Fails with `FundsLocked`
    /// while the bid is locked, and with `InvalidAmount` if the decrease
    /// would underflow; on failure the bid is left unchanged.
    pub fn decrease_stake(&mut self, amount: U512) -> (r: Result<U512, Error>)
        requires
            old(self).wf(),
            amount.wf(),
        ensures
            final(self).wf(),
            r is Ok <==> (old(self).lock_state is Unlocked && amount.val() <= old(
                self,
            ).staked_amount.val()),
            match r {
                Ok(v) => {
                    &&& v.wf()
                    &&& v.val() == old(self).staked_amount.val() - amount.val()
                    &&& final(self).staked_amount.val() == old(self).staked_amount.val()
                        - amount.val()
                    &&& *final(self) == with_staked(*old(self), final(self).staked_amount)
                },
                Err(e) => {
                    &&& *final(self) == *old(self)
                    &&& (e == Error::FundsLocked <==> old(self).lock_state is Locked)
                    &&& (e == Error::InvalidAmount <==> (old(self).lock_state is Unlocked
                        && amount.val() > old(self).staked_amount.val()))
                },
            },
    {
        if self.is_locked() {
            return Err(Error::FundsLocked);
        }
        match self.staked_amount.checked_sub(&amount) {
            Some(updated) => {
                let out = updated.clone();
                self.staked_amount = updated;
                Ok(out)
            },
            None => Err(Error::InvalidAmount),
        }
    }

    /// Increases the stake of the provided bid. Fails with `InvalidAmount`
    /// if the sum would overflow; the bid is then left unchanged.
    pub fn increase_stake(&mut self, amount: U512) -> (r: Result<U512, Error>)
        requires
            old(self).wf(),
            amount.wf(),
        ensures
            final(self).wf(),
            r is Ok <==> old(self).staked_amount.val() + amount.val() <= max_val(),
            match r {
                Ok(v) => {
                    &&& v.wf()
                    &&& v.val() == old(self).staked_amount.val() + amount.val()
                    &&& final(self).staked_amount.val() == old(self).staked_amount.val()
                        + amount.val()
                    &&& *final(self) == with_staked(*old(self), final(self).staked_amount)
                },
                Err(e) => *final(self) == *old(self) && e == Error::InvalidAmount,
            },
    {
        match self.staked_amount.checked_add(&amount) {
            Some(updated) => {
                let out = updated.clone();
                self.staked_amount = updated;
                Ok(out)
            },
            None => Err(Error::InvalidAmount),
        }
    }

    /// Increases the seigniorage reward of the provided bid. Fails with
    /// `InvalidAmount` if the sum would overflow; the bid is then unchanged.
    pub fn increase_reward(&mut self, amount: U512) -> (r: Result<U512, Error>)
        requires
            old(self).wf(),
            amount.wf(),
        ensures
            final(self).wf(),
            r is Ok <==> old(self).reward.val() + amount.val() <= max_val(),
            match r {
                Ok(v) => {
                    &&& v.wf()
                    &&& v.val() == old(self).reward.val() + amount.val()
                    &&& final(self).reward.val() == old(self).reward.val() + amount.val()
                    &&& *final(self) == with_reward(*old(self), final(self).reward)
                },
                Err(e) => *final(self) == *old(self) && e == Error::InvalidAmount,
            },
    {
        match self.reward.checked_add(&amount) {
            Some(updated) => {
                let out = updated.clone();
                self.reward = updated;
                Ok(out)
            },
            None => Err(Error::InvalidAmount),
        }
    }

    /// Zeros the seigniorage reward of the provided bid.
    pub fn zero_reward(&mut self)
        requires
            old(self).wf(),
        ensures
            final(self).wf(),
            final(self).reward.val() == 0,
            *final(self) == with_reward(*old(self), final(self).reward),
    {
        self.reward = U512::zero();
    }

    /// Updates the delegation rate of the provided bid.
    pub fn with_delegation_rate(&mut self, delegation_rate: DelegationRate) -> (r: &mut Bid)
        ensures
            *r == with_rate(*old(self), delegation_rate),
            *final(self) == *final(r),
    {
        self.delegation_rate = delegation_rate;
        self
    }

    /// Unlocks the bid if the given timestamp has reached the release
    /// timestamp. Returns `true` exactly when a transition happened; once
    /// unlocked the bid never returns to locked.
    pub fn unlock(&mut self, era_end_timestamp_millis: u64) -> (r: bool)
        ensures
            match old(self).lock_state {
                LockState::Unlocked => r == false && *final(self) == *old(self),
                LockState::Locked { release_timestamp_millis } => if era_end_timestamp_millis
                    < release_timestamp_millis {
                    r == false && *final(self) == *old(self)
                } else {
                    r == true && *final(self) == with_lock(*old(self), LockState::Unlocked)
                },
            },
    {
        let release_timestamp_millis = match self.lock_state {
            LockState::Locked { release_timestamp_millis } => release_timestamp_millis,
            LockState::Unlocked => {
                return false;
            },
        };
        if era_end_timestamp_millis < release_timestamp_millis {
            return false;
        }
        self.lock_state = LockState::Unlocked;
        true
    }

    /// Returns the total staked amount of validator plus all delegators,
    /// summed in key order with checked addition throughout.
    pub fn total_staked_amount(&self) -> (r: Result<U512, Error>)
        requires
            self.wf(),
        ensures
            r is Ok <==> self.spec_total_stake() <= max_val(),
            match r {
                Ok(v) => v.wf() && v.val() == self.spec_total_stake(),
                Err(e) => e == Error::InvalidAmount,
            },
    {
        let mut acc = U512::zero();
        let mut i: usize = 0;
        proof {
            assert(self.delegators.entries@.take(0) =~= Seq::<
                (crate::delegator::PublicKey, crate::delegator::Delegator),
            >::empty());
        }
        while i < self.delegators.entries.len()
            invariant
                self.wf(),
                i <= self.delegators.entries@.len(),
                acc.wf(),
                acc.val() == sum_stakes(self.delegators.entries@.take(i as int)),
            decreases self.delegators.entries@.len() - i,
        {
            let e = &self.delegators.entries[i];
            proof {
                lemma_sum_stakes_take_succ(self.delegators.entries@, i as int);
            }
            match acc.checked_add(&e.1.staked_amount) {
                Some(next) => {
                    acc = next;
                },
                None => {
                    proof {
                        lemma_sum_stakes_take_le(self.delegators.entries@, i + 1);
                    }
                    return Err(Error::InvalidAmount);
                },
            }
            i = i + 1;
        }
        proof {
            assert(self.delegators.entries@.take(self.delegators.entries@.len() as int)
                =~= self.delegators.entries@);
        }
        match acc.checked_add(&self.staked_amount) {
            Some(total) => Ok(total),
            None => Err(Error::InvalidAmount),
        }
    }
}

impl Bid {
    /// Encodes the bid into its canonical byte representation: equal logical
    /// values give identical bytes, whatever the history of the value.
    pub fn to_bytes(&self) -> (r: Vec<u8>)
        requires
            self.wf(),
        ensures
            r@ == enc_bid(*self),
    {
        let mut out: Vec<u8> = Vec::new();
        write_uref(&mut out, &self.bonding_purse);
        write_u512(&mut out, &self.staked_amount);
        out.push(self.delegation_rate);
        write_lock(&mut out, &self.lock_state);
        write_delegators(&mut out, &self.delegators);
        write_u512(&mut out, &self.reward);
        proof {
            assert(out@ =~= enc_bid(*self));
        }
        out
    }

    /// Returns the exact byte count `to_bytes` will produce, without
    /// building the buffer.
    pub fn serialized_length(&self) -> (r: usize)
        requires
            self.wf(),
            enc_bid(*self).len() <= usize::MAX,
        ensures
            r == enc_bid(*self).len(),
    {
        proof {
            vstd::bytes::lemma_auto_spec_u64_to_from_le_bytes();
            assert(enc_uref(self.bonding_purse).len() == 33);
            match self.lock_state {
                LockState::Locked { release_timestamp_millis } => {
                    assert(spec_u64_to_le_bytes(release_timestamp_millis).len() == 8);
                    assert(enc_lock(self.lock_state).len() == 9);
                },
                LockState::Unlocked => {
                    assert(enc_lock(self.lock_state).len() == 1);
                },
            }
        }
        let staked_len = self.staked_amount.encoded_length();
        let lock_len: usize = if self.is_locked() {
            9
        } else {
            1
        };
        let dels_len = delegators_encoded_length(&self.delegators);
        let reward_len = self.reward.encoded_length();
        33 + staked_len + 1 + lock_len + dels_len + reward_len
    }
}

/// Two encoded lock states that begin the same byte string are equal.
proof fn lemma_enc_lock_prefix_free(a: LockState, b: LockState, s: Seq<u8>)
    requires
        enc_lock(a).is_prefix_of(s),
        enc_lock(b).is_prefix_of(s),
    ensures
        a == b,
{
    assert(enc_lock(a)[0] == s[0]);
    assert(enc_lock(b)[0] == s[0]);
    match (a, b) {
        (
            LockState::Locked { release_timestamp_millis: ta },
            LockState::Locked { release_timestamp_millis: tb },
        ) => {
            vstd::bytes::lemma_auto_spec_u64_to_from_le_bytes();
            lemma_prefix_shift(seq![1u8], spec_u64_to_le_bytes(ta), s);
            lemma_prefix_shift(seq![1u8], spec_u64_to_le_bytes(tb), s);
            assert(spec_u64_to_le_bytes(ta) =~= s.skip(1).take(8));
            assert(spec_u64_to_le_bytes(tb) =~= s.skip(1).take(8));
            lemma_u64_le_injective(ta, tb);
        },
        (LockState::Unlocked, LockState::Unlocked) => {},
        _ => {},
    }
}

/// Splits "the encoding of `x` begins `s`" into the same statement for each
/// field, at its cumulative offset.
proof fn lemma_enc_bid_split(x: Bid, s: Seq<u8>)
    requires
        enc_bid(x).is_prefix_of(s),
    ensures
        enc_uref(x.bonding_purse).is_prefix_of(s),
        enc_u512(x.staked_amount).is_prefix_of(s.skip(enc_uref(x.bonding_purse).len() as int)),
        seq![x.delegation_rate].is_prefix_of(
            s.skip((enc_uref(x.bonding_purse).len() + enc_u512(x.staked_amount).len()) as int),
        ),
        enc_lock(x.lock_state).is_prefix_of(
            s.skip((enc_uref(x.bonding_purse).len() + enc_u512(x.staked_amount).len() + 1) as int),
        ),
        enc_delegators(x.delegators).is_prefix_of(
            s.skip(
                (enc_uref(x.bonding_purse).len() + enc_u512(x.staked_amount).len() + 1 + enc_lock(
                    x.lock_state,
                ).len()) as int,
            ),
        ),
        enc_u512(x.reward).is_prefix_of(
            s.skip(
                (enc_uref(x.bonding_purse).len() + enc_u512(x.staked_amount).len() + 1 + enc_lock(
                    x.lock_state,
                ).len() + enc_delegators(x.delegators).len()) as int,
            ),
        ),
{
    let e1 = enc_uref(x.bonding_purse);
    let e2 = enc_u512(x.staked_amount);
    let e3 = seq![x.delegation_rate];
    let e4 = enc_lock(x.lock_state);
    let e5 = enc_delegators(x.delegators);
    let e6 = enc_u512(x.reward);
    assert(enc_bid(x) =~= e1 + (e2 + (e3 + (e4 + (e5 + e6)))));
    lemma_prefix_shift(e1, e2 + (e3 + (e4 + (e5 + e6))), s);
    let s1 = s.skip(e1.len() as int);
    lemma_prefix_shift(e2, e3 + (e4 + (e5 + e6)), s1);
    let s2 = s1.skip(e2.len() as int);
    assert(s2 =~= s.skip((e1.len() + e2.len()) as int));
    lemma_prefix_shift(e3, e4 + (e5 + e6), s2);
    let s3 = s2.skip(1);
    assert(s3 =~= s.skip((e1.len() + e2.len() + 1) as int));
    lemma_prefix_shift(e4, e5 + e6, s3);
    let s4 = s3.skip(e4.len() as int);
    assert(s4 =~= s.skip((e1.len() + e2.len() + 1 + e4.len()) as int));
    lemma_prefix_shift(e5, e6, s4);
    let s5 = s4.skip(e5.len() as int);
    assert(s5 =~= s.skip((e1.len() + e2.len() + 1 + e4.len() + e5.len()) as int));
}

/// The encoding is deterministic: bids that agree field by field encode to
/// identical bytes, whatever the history of either value.
pub proof fn lemma_enc_bid_deterministic(a: Bid, b: Bid)
    requires
        bid_like(a, b),
    ensures
        enc_bid(a) == enc_bid(b),
{
    lemma_enc_entries_equal(a.delegators.entries@, b.delegators.entries@);
    assert(enc_uref(a.bonding_purse) =~= enc_uref(b.bonding_purse));
    assert(enc_bid(a) =~= enc_bid(b));
}

/// Two encoded bids that begin the same byte string agree on every field:
/// the bid encoding is self-delimiting and injective, so canonical bytes
/// pin the logical value down.
pub proof fn lemma_enc_bid_prefix_free(a: Bid, b: Bid, s: Seq<u8>)
    requires
        a.wf(),
        b.wf(),
        enc_bid(a).is_prefix_of(s),
        enc_bid(b).is_prefix_of(s),
    ensures
        bid_like(a, b),
        enc_bid(a) == enc_bid(b),
{
    lemma_enc_bid_split(a, s);
    lemma_enc_bid_split(b, s);
    lemma_enc_uref_prefix_free(a.bonding_purse, b.bonding_purse, s);
    assert(enc_uref(a.bonding_purse) == enc_uref(b.bonding_purse));
    let o1 = enc_uref(a.bonding_purse).len() as int;
    lemma_enc_u512_prefix_free(a.staked_amount, b.staked_amount, s.skip(o1));
    assert(enc_u512(a.staked_amount) == enc_u512(b.staked_amount));
    let o2 = o1 + enc_u512(a.staked_amount).len();
    assert(seq![a.delegation_rate][0] == s.skip(o2)[0]);
    assert(seq![b.delegation_rate][0] == s.skip(o2)[0]);
    let o3 = o2 + 1;
    lemma_enc_lock_prefix_free(a.lock_state, b.lock_state, s.skip(o3));
    let o4 = o3 + enc_lock(a.lock_state).len();
    lemma_enc_delegators_prefix_free(a.delegators, b.delegators, s.skip(o4));
    let o5 = o4 + enc_delegators(a.delegators).len();
    lemma_enc_u512_prefix_free(a.reward, b.reward, s.skip(o5));
    assert(enc_bid(a) =~= enc_bid(b));
}

impl Bid {
    /// Decodes one bid from the head of `bytes` and returns it with the
    /// unconsumed remainder. Exactly the canonical encodings decode: when
    /// `bytes` begins with the encoding of a well-formed bid, that bid and
    /// the remainder come back — the round trip — and otherwise an error
    /// does.
    #[verifier::rlimit(100)]
    #[verifier::spinoff_prover]
    pub fn from_bytes<'a>(bytes: &'a [u8]) -> (r: Result<(Bid, &'a [u8]), DecodeError>)
        ensures
            match r {
                Ok(p) => p.0.wf() && bytes@ == enc_bid(p.0) + p.1@,
                Err(_) => forall|x: Bid| x.wf() ==> !(#[trigger] enc_bid(x)).is_prefix_of(bytes@),
            },
            forall|x: Bid|
                x.wf() && (#[trigger] enc_bid(x)).is_prefix_of(bytes@) ==> r is Ok && bid_like(
                    r->Ok_0.0,
                    x,
                ) && r->Ok_0.1@ == bytes@.skip(enc_bid(x).len() as int),
    {
        let bonding_purse: URef;
        let p1: usize;
        match read_uref(bytes, 0) {
            Ok(p) => {
                bonding_purse = p.0;
                p1 = p.1;
            },
            Err(e) => {
                proof {
                    assert forall|x: Bid|
                        x.wf() && (#[trigger] enc_bid(x)).is_prefix_of(bytes@) implies false by {
                        lemma_enc_bid_split(x, bytes@);
                        assert(bytes@.skip(0) =~= bytes@);
                    }
                }
                return Err(e);
            },
        }
        proof {
            assert(bytes@.skip(0) =~= bytes@);
            assert(enc_uref(bonding_purse).is_prefix_of(bytes@)) by {
                assert(enc_uref(bonding_purse) =~= bytes@.take(p1 as int));
            }
            assert(p1 == 33);
            assert forall|x: Bid|
                x.wf() && (#[trigger] enc_bid(x)).is_prefix_of(bytes@) implies enc_uref(
                x.bonding_purse,
            ) == enc_uref(bonding_purse) && x.bonding_purse.addr@ == bonding_purse.addr@
                && x.bonding_purse.access_rights == bonding_purse.access_rights by {
                lemma_enc_bid_split(x, bytes@);
                lemma_enc_uref_prefix_free(x.bonding_purse, bonding_purse, bytes@);
            }
        }
        let staked_amount: U512;
        let p2: usize;
        match read_u512(bytes, p1) {
            Ok(p) => {
                staked_amount = p.0;
                p2 = p.1;
            },
            Err(e) => {
                proof {
                    assert forall|x: Bid|
                        x.wf() && (#[trigger] enc_bid(x)).is_prefix_of(bytes@) implies false by {
                        lemma_enc_bid_split(x, bytes@);
                    }
                }
                return Err(e);
            },
        }
        proof {
            assert(enc_u512(staked_amount).is_prefix_of(bytes@.skip(p1 as int))) by {
                assert(enc_u512(staked_amount) =~= bytes@.skip(p1 as int).take((p2 - p1) as int));
            }
            assert forall|x: Bid|
                x.wf() && (#[trigger] enc_bid(x)).is_prefix_of(bytes@) implies enc_u512(
                x.staked_amount,
            ) == enc_u512(staked_amount) && x.staked_amount.bytes@ == staked_amount.bytes@ by {
                lemma_enc_bid_split(x, bytes@);
                lemma_enc_u512_prefix_free(x.staked_amount, staked_amount, bytes@.skip(p1 as int));
            }
        }
        if bytes.len() - p2 < 1 {
            proof {
                assert forall|x: Bid|
                    x.wf() && (#[trigger] enc_bid(x)).is_prefix_of(bytes@) implies false by {
                    lemma_enc_bid_split(x, bytes@);
                    assert(seq![x.delegation_rate].len() == 1);
                    assert(bytes@.skip(p2 as int).len() < 1);
                }
            }
            return Err(DecodeError::EarlyEndOfStream);
        }
        let delegation_rate = bytes[p2];
        let p3 = p2 + 1;
        proof {
            assert forall|x: Bid|
                x.wf() && (#[trigger] enc_bid(x)).is_prefix_of(bytes@) implies x.delegation_rate
                == delegation_rate by {
                lemma_enc_bid_split(x, bytes@);
                assert(seq![x.delegation_rate][0] == bytes@.skip(p2 as int)[0]);
                assert(bytes@.skip(p2 as int)[0] == bytes@[p2 as int]);
            }
        }
        let lock_state: LockState;
        let p4: usize;
        match read_lock(bytes, p3) {
            Ok(p) => {
                lock_state = p.0;
                p4 = p.1;
            },
            Err(e) => {
                proof {
                    assert forall|x: Bid|
                        x.wf() && (#[trigger] enc_bid(x)).is_prefix_of(bytes@) implies false by {
                        lemma_enc_bid_split(x, bytes@);
                    }
                }
                return Err(e);
            },
        }
        proof {
            assert(enc_lock(lock_state).is_prefix_of(bytes@.skip(p3 as int))) by {
                assert(enc_lock(lock_state) =~= bytes@.skip(p3 as int).take((p4 - p3) as int));
            }
            assert forall|x: Bid|
                x.wf() && (#[trigger] enc_bid(x)).is_prefix_of(bytes@) implies x.lock_state
                == lock_state by {
                lemma_enc_bid_split(x, bytes@);
                lemma_enc_lock_prefix_free(x.lock_state, lock_state, bytes@.skip(p3 as int));
            }
        }
        let delegators: Delegators;
        let p5: usize;
        match read_delegators(bytes, p4) {
            Ok(p) => {
                delegators = p.0;
                p5 = p.1;
            },
            Err(e) => {
                proof {
                    assert forall|x: Bid|
                        x.wf() && (#[trigger] enc_bid(x)).is_prefix_of(bytes@) implies false by {
                        lemma_enc_bid_split(x, bytes@);
                    }
                }
                return Err(e);
            },
        }
        proof {
            assert(enc_delegators(delegators).is_prefix_of(bytes@.skip(p4 as int))) by {
                assert(enc_delegators(delegators) =~= bytes@.skip(p4 as int).take(
                    (p5 - p4) as int,
                ));
            }
            assert forall|x: Bid|
                x.wf() && (#[trigger] enc_bid(x)).is_prefix_of(bytes@) implies enc_delegators(
                x.delegators,
            ) == enc_delegators(delegators) && entries_like(
                x.delegators.entries@,
                delegators.entries@,
            ) by {
                lemma_enc_bid_split(x, bytes@);
                lemma_enc_delegators_prefix_free(
                    x.delegators,
                    delegators,
                    bytes@.skip(p4 as int),
                );
            }
        }
        let reward: U512;
        let p6: usize;
        match read_u512(bytes, p5) {
            Ok(p) => {
                reward = p.0;
                p6 = p.1;
            },
            Err(e) => {
                proof {
                    assert forall|x: Bid|
                        x.wf() && (#[trigger] enc_bid(x)).is_prefix_of(bytes@) implies false by {
                        lemma_enc_bid_split(x, bytes@);
                    }
                }
                return Err(e);
            },
        }
        proof {
            assert(enc_u512(reward).is_prefix_of(bytes@.skip(p5 as int))) by {
                assert(enc_u512(reward) =~= bytes@.skip(p5 as int).take((p6 - p5) as int));
            }
            assert forall|x: Bid|
                x.wf() && (#[trigger] enc_bid(x)).is_prefix_of(bytes@) implies enc_u512(x.reward)
                == enc_u512(reward) && x.reward.bytes@ == reward.bytes@ by {
                lemma_enc_bid_split(x, bytes@);
                lemma_enc_u512_prefix_free(x.reward, reward, bytes@.skip(p5 as int));
            }
        }
        let bid = Bid { bonding_purse, staked_amount, delegation_rate, lock_state, delegators, reward };
        let rest = vstd::slice::slice_subrange(bytes, p6, bytes.len());
        proof {
            assert(bytes@.subrange(p2 as int, p3 as int) =~= seq![bid.delegation_rate]);
            assert(enc_bid(bid) =~= bytes@.take(p6 as int));
            assert(bytes@ =~= enc_bid(bid) + rest@);
            assert forall|x: Bid|
                x.wf() && (#[trigger] enc_bid(x)).is_prefix_of(bytes@) implies bid_like(bid, x)
                && enc_bid(x).len() == p6 by {
                lemma_enc_bid_split(x, bytes@);
                assert(enc_bid(x).len() == enc_uref(x.bonding_purse).len() + enc_u512(
                    x.staked_amount,
                ).len() + 1 + enc_lock(x.lock_state).len() + enc_delegators(x.delegators).len()
                    + enc_u512(x.reward).len());
                assert(enc_lock(x.lock_state).len() == p4 - p3);
            }
        }
        Ok((bid, rest))
    }
}

impl PartialEq for Bid {
    fn eq(&self, other: &Bid) -> (r: bool) {
        self.bonding_purse == other.bonding_purse && self.staked_amount == other.staked_amount
            && self.delegation_rate == other.delegation_rate && self.lock_state
            == other.lock_state && self.delegators == other.delegators && self.reward
            == other.reward
    }
}

impl Eq for Bid {}

impl vstd::std_specs::cmp::PartialEqSpecImpl for Bid {
    open spec fn obeys_eq_spec() -> bool {
        true
    }

    open spec fn eq_spec(&self, other: &Bid) -> bool {
        bid_like(*self, *other)
    }
}

/// Appends the encoding of the lock state to `out`.
fn write_lock(out: &mut Vec<u8>, l: &LockState)
    ensures
        final(out)@ == old(out)@ + enc_lock(*l),
{
    match l {
        LockState::Unlocked => {
            out.push(0);
            proof {
                assert(out@ =~= old(out)@ + enc_lock(*l));
            }
        },
        LockState::Locked { release_timestamp_millis } => {
            out.push(1);
            write_u64(out, *release_timestamp_millis);
            proof {
                assert(out@ =~= old(out)@ + enc_lock(*l));
            }
        },
    }
}

/// Reads one encoded lock state starting at `pos`.
fn read_lock(bytes: &[u8], pos: usize) -> (r: Result<(LockState, usize), DecodeError>)
    requires
        pos <= bytes@.len(),
    ensures
        match r {
            Ok(p) => pos <= p.1 <= bytes@.len() && bytes@.subrange(pos as int, p.1 as int)
                == enc_lock(p.0),
            Err(_) => forall|x: LockState|
                !(#[trigger] enc_lock(x)).is_prefix_of(bytes@.skip(pos as int)),
        },
{
    let ghost rest = bytes@.skip(pos as int);
    if bytes.len() - pos < 1 {
        proof {
            assert forall|x: LockState| !(#[trigger] enc_lock(x)).is_prefix_of(rest) by {
                assert(enc_lock(x).len() >= 1);
            }
        }
        return Err(DecodeError::EarlyEndOfStream);
    }
    let tag = bytes[pos];
    proof {
        assert(rest[0] == bytes@[pos as int]);
    }
    if tag == 0 {
        let l = LockState::Unlocked;
        proof {
            assert(bytes@.subrange(pos as int, pos + 1) =~= enc_lock(l));
        }
        Ok((l, pos + 1))
    } else if tag == 1 {
        match read_u64(bytes, pos + 1) {
            Ok(p) => {
                let l = LockState::Locked { release_timestamp_millis: p.0 };
                proof {
                    assert(bytes@.subrange(pos as int, p.1 as int) =~= enc_lock(l));
                }
                Ok((l, p.1))
            },
            Err(e) => {
                proof {
                    vstd::bytes::lemma_auto_spec_u64_to_from_le_bytes();
                    assert forall|x: LockState| !(#[trigger] enc_lock(x)).is_prefix_of(rest) by {
                        match x {
                            LockState::Unlocked => {
                                if enc_lock(x).is_prefix_of(rest) {
                                    assert(enc_lock(x)[0] == rest[0]);
                                }
                            },
                            LockState::Locked { release_timestamp_millis } => {
                                if enc_lock(x).is_prefix_of(rest) {
                                    lemma_prefix_shift(
                                        seq![1u8],
                                        spec_u64_to_le_bytes(release_timestamp_millis),
                                        rest,
                                    );
                                    assert(rest.skip(1) =~= bytes@.skip(pos + 1));
                                }
                            },
                        }
                    }
                }
                Err(e)
            },
        }
    } else {
        proof {
            assert forall|x: LockState| !(#[trigger] enc_lock(x)).is_prefix_of(rest) by {
                if enc_lock(x).is_prefix_of(rest) {
                    assert(enc_lock(x)[0] == rest[0]);
                    assert(enc_lock(x)[0] == 0 || enc_lock(x)[0] == 1);
                }
            }
        }
        Err(DecodeError::Formatting)
    }
}

} // verus!
