//! Delegators attached to a bid: an ordered map from public key to the
//! delegator's record, iterated in key order so that the canonical encoding
//! and the stake aggregation are deterministic.

use vstd::prelude::*;
use vstd::bytes::{spec_u32_to_le_bytes, spec_u64_to_le_bytes};
use crate::DecodeError;
use crate::codec::{
    lemma_prefix_shift, lemma_u32_le_injective, lemma_u64_le_injective, read_u32, read_u64,
    write_u32, write_u64,
};
use crate::u512::{U512, bytes_eq, enc_u512, lemma_enc_u512_prefix_free, read_u512, write_u512};

verus! {

/// A public key, modelled by the single totally ordered word the entity
/// needs of it: it identifies a delegator and orders the map.
#[derive(Clone, Copy, Debug, PartialEq, Eq, Structural)]
pub struct PublicKey {
    /// The key material, as one ordered unsigned word.
    pub id: u64,
}

impl PublicKey {
    /// Builds a key from its ordered word.
    pub fn new(id: u64) -> (r: PublicKey)
        ensures
            r.id == id,
    {
        PublicKey { id }
    }
}

/// A third party staking through the validator. The entity reads only its
/// staked amount; everything else about a delegator lives elsewhere.
#[derive(Debug)]
pub struct Delegator {
    /// The delegator's own stake.
    pub staked_amount: U512,
}

impl Delegator {
    pub open spec fn wf(self) -> bool {
        self.staked_amount.wf()
    }

    /// Builds a delegator record from its staked amount.
    pub fn new(staked_amount: U512) -> (r: Delegator)
        ensures
            r == (Delegator { staked_amount }),
    {
        Delegator { staked_amount }
    }

    /// The delegator's staked amount.
    pub fn staked_amount(&self) -> (r: &U512)
        ensures
            *r == self.staked_amount,
    {
        &self.staked_amount
    }
}

impl PartialEq for Delegator {
    fn eq(&self, other: &Delegator) -> (r: bool) {
        bytes_eq(&self.staked_amount.bytes, &other.staked_amount.bytes)
    }
}

impl Eq for Delegator {}

impl vstd::std_specs::cmp::PartialEqSpecImpl for Delegator {
    open spec fn obeys_eq_spec() -> bool {
        true
    }

    open spec fn eq_spec(&self, other: &Delegator) -> bool {
        self.staked_amount.bytes@ == other.staked_amount.bytes@
    }
}

impl Clone for Delegator {
    fn clone(&self) -> (r: Delegator)
        ensures
            r.staked_amount.bytes@ == self.staked_amount.bytes@,
    {
        Delegator { staked_amount: self.staked_amount.clone() }
    }
}

/// The validator's delegators, keyed by public key and kept strictly sorted
/// by the key's order. The sorted order is load-bearing: it makes the
/// canonical encoding deterministic whatever the insertion order was.
#[derive(Debug)]
pub struct Delegators {
    /// Entries in strictly ascending key order.
    pub entries: Vec<(PublicKey, Delegator)>,
}

/// Two entries agree on key and on the stake's representation.
pub open spec fn entry_like(a: (PublicKey, Delegator), b: (PublicKey, Delegator)) -> bool {
    a.0 == b.0 && a.1.staked_amount.bytes@ == b.1.staked_amount.bytes@
}

/// Pointwise agreement of two entry sequences.
pub open spec fn entries_like(
    a: Seq<(PublicKey, Delegator)>,
    b: Seq<(PublicKey, Delegator)>,
) -> bool {
    a.len() == b.len() && forall|i: int| 0 <= i < a.len() ==> entry_like(a[i], b[i])
}

/// The sum of all delegator stakes in the sequence.
pub open spec fn sum_stakes(s: Seq<(PublicKey, Delegator)>) -> nat
    decreases s.len(),
{
    if s.len() == 0 {
        0
    } else {
        sum_stakes(s.drop_last()) + s.last().1.staked_amount.val()
    }
}

pub proof fn lemma_sum_stakes_take_succ(s: Seq<(PublicKey, Delegator)>, i: int)
    requires
        0 <= i < s.len(),
    ensures
        sum_stakes(s.take(i + 1)) == sum_stakes(s.take(i)) + s[i].1.staked_amount.val(),
{
    let t = s.take(i + 1);
    assert(t.drop_last() =~= s.take(i));
    assert(t.last() == s[i]);
}

/// A prefix of the entries never sums to more than the whole.
pub proof fn lemma_sum_stakes_take_le(s: Seq<(PublicKey, Delegator)>, i: int)
    requires
        0 <= i <= s.len(),
    ensures
        sum_stakes(s.take(i)) <= sum_stakes(s),
    decreases s.len() - i,
{
    if i == s.len() {
        assert(s.take(i) =~= s);
    } else {
        lemma_sum_stakes_take_succ(s, i);
        lemma_sum_stakes_take_le(s, i + 1);
    }
}

impl Delegators {
    /// Keys strictly ascending (hence unique), every stake well-formed, and
    /// the entry count small enough for the encoding's 32-bit length prefix.
    pub open spec fn wf(self) -> bool {
        &&& forall|i: int, j: int|
            0 <= i < j < self.entries@.len() ==> self.entries@[i].0.id < self.entries@[j].0.id
        &&& forall|i: int| 0 <= i < self.entries@.len() ==> (#[trigger] self.entries@[i]).1.wf()
        &&& self.entries@.len() < 0x1_0000_0000
    }

    /// An empty delegator map.
    pub fn new() -> (r: Delegators)
        ensures
            r.wf(),
            r.entries@ == Seq::<(PublicKey, Delegator)>::empty(),
    {
        let r = Delegators { entries: Vec::new() };
        proof {
            assert(r.entries@ =~= Seq::<(PublicKey, Delegator)>::empty());
        }
        r
    }

    /// The number of delegators.
    pub fn len(&self) -> (r: usize)
        ensures
            r == self.entries@.len(),
    {
        self.entries.len()
    }

    /// Whether the map holds no delegators.
    pub fn is_empty(&self) -> (r: bool)
        ensures
            r <==> self.entries@.len() == 0,
    {
        self.entries.len() == 0
    }

    /// Looks a delegator up by key.
    pub fn get(&self, key: PublicKey) -> (r: Option<&Delegator>)
        ensures
            match r {
                Some(d) => exists|i: int|
                    0 <= i < self.entries@.len() && (#[trigger] self.entries@[i]).0 == key && *d
                        == self.entries@[i].1,
                None => forall|i: int|
                    0 <= i < self.entries@.len() ==> (#[trigger] self.entries@[i]).0 != key,
            },
    {
        let mut i: usize = 0;
        while i < self.entries.len()
            invariant
                i <= self.entries@.len(),
                forall|j: int| 0 <= j < i ==> (#[trigger] self.entries@[j]).0 != key,
            decreases self.entries@.len() - i,
        {
            let e = &self.entries[i];
            if e.0.id == key.id {
                return Some(&e.1);
            }
            i = i + 1;
        }
        None
    }

    /// Inserts or replaces the delegator under `key`, returning the previous
    /// record if one was there. Keys keep their strictly ascending order no
    /// matter in which order callers insert.
    pub fn insert(&mut self, key: PublicKey, value: Delegator) -> (r: Option<Delegator>)
        requires
            old(self).wf(),
            value.wf(),
            old(self).entries@.len() + 1 < 0x1_0000_0000,
        ensures
            final(self).wf(),
            match r {
                Some(old_v) => exists|i: int|
                    0 <= i < old(self).entries@.len() && (#[trigger] old(self).entries@[i]).0
                        == key && old_v == old(self).entries@[i].1 && final(self).entries@ == old(
                        self,
                    ).entries@.update(i, (key, value)),
                None => (forall|i: int|
                    0 <= i < old(self).entries@.len() ==> (#[trigger] old(self).entries@[i]).0
                        != key) && (exists|i: int|
                    0 <= i <= old(self).entries@.len() && final(self).entries@ == old(
                        self,
                    ).entries@.insert(i, (key, value))),
            },
    {
        let mut idx: usize = 0;
        while idx < self.entries.len() && self.entries[idx].0.id < key.id
            invariant
                *self == *old(self),
                idx <= self.entries@.len(),
                forall|j: int| 0 <= j < idx ==> (#[trigger] self.entries@[j]).0.id < key.id,
            decreases self.entries@.len() - idx,
        {
            idx = idx + 1;
        }
        if idx < self.entries.len() && self.entries[idx].0.id == key.id {
            let old_pair = self.entries.remove(idx);
            self.entries.insert(idx, (key, value));
            proof {
                assert(final(self).entries@ =~= old(self).entries@.update(
                    idx as int,
                    (key, value),
                ));
                assert forall|i: int, j: int|
                    0 <= i < j < self.entries@.len() implies self.entries@[i].0.id
                    < self.entries@[j].0.id by {
                    assert(old(self).entries@[i].0.id < old(self).entries@[j].0.id);
                }
            }
            Some(old_pair.1)
        } else {
            proof {
                if idx < self.entries@.len() {
                    assert(self.entries@[idx as int].0.id > key.id);
                }
                assert forall|i: int|
                    0 <= i < self.entries@.len() implies (#[trigger] self.entries@[i]).0
                    != key by {
                    if i >= idx {
                        assert(self.entries@[idx as int].0.id <= self.entries@[i].0.id);
                    }
                }
            }
            self.entries.insert(idx, (key, value));
            proof {
                let new = self.entries@;
                let olds = old(self).entries@;
                assert forall|i: int, j: int|
                    0 <= i < j < new.len() implies new[i].0.id < new[j].0.id by {
                    if j < idx {
                    } else if i < idx && j == idx {
                        assert(new[i] == olds[i]);
                    } else if i < idx && j > idx {
                        assert(new[i] == olds[i]);
                        assert(new[j] == olds[j - 1]);
                        assert(olds[idx as int].0.id <= olds[j - 1].0.id);
                    } else if i == idx {
                        assert(new[j] == olds[j - 1]);
                        assert(olds[idx as int].0.id <= olds[j - 1].0.id);
                    } else {
                        assert(new[i] == olds[i - 1]);
                        assert(new[j] == olds[j - 1]);
                    }
                }
            }
            None
        }
    }
}

impl Delegators {
    /// Removes and returns the delegator under `key`, if one is there.
    pub fn remove(&mut self, key: PublicKey) -> (r: Option<Delegator>)
        requires
            old(self).wf(),
        ensures
            final(self).wf(),
            match r {
                Some(v) => exists|i: int|
                    0 <= i < old(self).entries@.len() && (#[trigger] old(self).entries@[i]).0
                        == key && v == old(self).entries@[i].1 && final(self).entries@ == old(
                        self,
                    ).entries@.remove(i),
                None => *final(self) == *old(self) && forall|i: int|
                    0 <= i < old(self).entries@.len() ==> (#[trigger] old(self).entries@[i]).0
                        != key,
            },
    {
        let mut idx: usize = 0;
        while idx < self.entries.len() && self.entries[idx].0.id < key.id
            invariant
                *self == *old(self),
                idx <= self.entries@.len(),
                forall|j: int| 0 <= j < idx ==> (#[trigger] self.entries@[j]).0.id < key.id,
            decreases self.entries@.len() - idx,
        {
            idx = idx + 1;
        }
        if idx < self.entries.len() && self.entries[idx].0.id == key.id {
            let pair = self.entries.remove(idx);
            proof {
                let news = self.entries@;
                let olds = old(self).entries@;
                assert forall|i: int, j: int|
                    0 <= i < j < news.len() implies news[i].0.id < news[j].0.id by {
                    if j < idx {
                    } else if i < idx {
                        assert(news[j] == olds[j + 1]);
                    } else {
                        assert(news[i] == olds[i + 1]);
                        assert(news[j] == olds[j + 1]);
                    }
                }
            }
            Some(pair.1)
        } else {
            proof {
                if idx < self.entries@.len() {
                    assert(self.entries@[idx as int].0.id > key.id);
                }
                assert forall|i: int|
                    0 <= i < self.entries@.len() implies (#[trigger] self.entries@[i]).0
                    != key by {
                    if i >= idx {
                        assert(self.entries@[idx as int].0.id <= self.entries@[i].0.id);
                    }
                }
            }
            None
        }
    }
}

impl PartialEq for Delegators {
    fn eq(&self, other: &Delegators) -> (r: bool) {
        if self.entries.len() != other.entries.len() {
            return false;
        }
        let mut i: usize = 0;
        while i < self.entries.len()
            invariant
                self.entries@.len() == other.entries@.len(),
                i <= self.entries@.len(),
                forall|j: int| 0 <= j < i ==> entry_like(self.entries@[j], other.entries@[j]),
            decreases self.entries@.len() - i,
        {
            let a = &self.entries[i];
            let b = &other.entries[i];
            if a.0.id != b.0.id {
                proof {
                    assert(!entry_like(self.entries@[i as int], other.entries@[i as int]));
                }
                return false;
            }
            if !bytes_eq(&a.1.staked_amount.bytes, &b.1.staked_amount.bytes) {
                proof {
                    assert(!entry_like(self.entries@[i as int], other.entries@[i as int]));
                }
                return false;
            }
            i = i + 1;
        }
        true
    }
}

impl Eq for Delegators {}

impl vstd::std_specs::cmp::PartialEqSpecImpl for Delegators {
    open spec fn obeys_eq_spec() -> bool {
        true
    }

    open spec fn eq_spec(&self, other: &Delegators) -> bool {
        entries_like(self.entries@, other.entries@)
    }
}

/// Canonical encoding of a public key.
pub open spec fn enc_pubkey(k: PublicKey) -> Seq<u8> {
    spec_u64_to_le_bytes(k.id)
}

/// Canonical encoding of a delegator record.
pub open spec fn enc_delegator(d: Delegator) -> Seq<u8> {
    enc_u512(d.staked_amount)
}

/// Canonical encoding of one map entry: the key, then the record.
pub open spec fn enc_entry(e: (PublicKey, Delegator)) -> Seq<u8> {
    enc_pubkey(e.0) + enc_delegator(e.1)
}

/// Canonical encoding of a run of entries, in sequence order.
pub open spec fn enc_entries(s: Seq<(PublicKey, Delegator)>) -> Seq<u8>
    decreases s.len(),
{
    if s.len() == 0 {
        Seq::empty()
    } else {
        enc_entry(s[0]) + enc_entries(s.drop_first())
    }
}

/// Canonical encoding of the whole map: a 32-bit count, then the entries in
/// ascending key order.
pub open spec fn enc_delegators(d: Delegators) -> Seq<u8> {
    spec_u32_to_le_bytes(d.entries@.len() as u32) + enc_entries(d.entries@)
}

pub proof fn lemma_enc_entries_concat(a: Seq<(PublicKey, Delegator)>, b: Seq<(PublicKey, Delegator)>)
    ensures
        enc_entries(a + b) == enc_entries(a) + enc_entries(b),
    decreases a.len(),
{
    if a.len() == 0 {
        assert(a + b =~= b);
        assert(enc_entries(a) + enc_entries(b) =~= enc_entries(b));
    } else {
        assert((a + b)[0] == a[0]);
        assert((a + b).drop_first() =~= a.drop_first() + b);
        lemma_enc_entries_concat(a.drop_first(), b);
        assert(enc_entry(a[0]) + (enc_entries(a.drop_first()) + enc_entries(b)) =~= (enc_entry(a[0])
            + enc_entries(a.drop_first())) + enc_entries(b));
    }
}

pub proof fn lemma_enc_entries_take_succ(s: Seq<(PublicKey, Delegator)>, i: int)
    requires
        0 <= i < s.len(),
    ensures
        enc_entries(s.take(i + 1)) == enc_entries(s.take(i)) + enc_entry(s[i]),
{
    let single = seq![s[i]];
    assert(s.take(i + 1) =~= s.take(i) + single);
    lemma_enc_entries_concat(s.take(i), single);
    assert(single.drop_first().len() == 0);
    assert(enc_entries(single.drop_first()) =~= Seq::<u8>::empty());
    assert(single[0] == s[i]);
    assert(enc_entries(single) =~= enc_entry(s[i]));
}

/// Appends the encoding of the delegator map to `out`.
pub fn write_delegators(out: &mut Vec<u8>, d: &Delegators)
    requires
        d.wf(),
    ensures
        final(out)@ == old(out)@ + enc_delegators(*d),
{
    write_u32(out, d.entries.len() as u32);
    let ghost head = old(out)@ + spec_u32_to_le_bytes(d.entries@.len() as u32);
    let mut i: usize = 0;
    proof {
        assert(enc_entries(d.entries@.take(0)) =~= Seq::<u8>::empty());
        assert(out@ =~= head + enc_entries(d.entries@.take(0)));
    }
    while i < d.entries.len()
        invariant
            d.wf(),
            i <= d.entries@.len(),
            out@ == head + enc_entries(d.entries@.take(i as int)),
        decreases d.entries@.len() - i,
    {
        let e = &d.entries[i];
        write_u64(out, e.0.id);
        write_u512(out, &e.1.staked_amount);
        proof {
            lemma_enc_entries_take_succ(d.entries@, i as int);
            assert(out@ =~= head + enc_entries(d.entries@.take(i + 1)));
        }
        i = i + 1;
    }
    proof {
        assert(d.entries@.take(d.entries@.len() as int) =~= d.entries@);
        assert(out@ =~= old(out)@ + enc_delegators(*d));
    }
}

/// The number of bytes the encoding of the delegator map occupies.
pub fn delegators_encoded_length(d: &Delegators) -> (r: usize)
    requires
        d.wf(),
        enc_delegators(*d).len() <= usize::MAX,
    ensures
        r == enc_delegators(*d).len(),
{
    let mut total: usize = 4;
    let mut i: usize = 0;
    proof {
        assert(enc_entries(d.entries@.take(0)) =~= Seq::<u8>::empty());
    }
    while i < d.entries.len()
        invariant
            d.wf(),
            enc_delegators(*d).len() <= usize::MAX,
            i <= d.entries@.len(),
            total == 4 + enc_entries(d.entries@.take(i as int)).len(),
        decreases d.entries@.len() - i,
    {
        let e = &d.entries[i];
        let stake_len = e.1.staked_amount.encoded_length();
        proof {
            vstd::bytes::lemma_auto_spec_u64_to_from_le_bytes();
            vstd::bytes::lemma_auto_spec_u32_to_from_le_bytes();
            assert(spec_u32_to_le_bytes(d.entries@.len() as u32).len() == 4);
            lemma_enc_entries_take_succ(d.entries@, i as int);
            lemma_enc_entries_concat(d.entries@.take(i + 1), d.entries@.skip(i + 1));
            assert(d.entries@.take(i + 1) + d.entries@.skip(i + 1) =~= d.entries@);
            assert(enc_pubkey(d.entries@[i as int].0).len() == 8);
            assert(4 + enc_entries(d.entries@.take(i + 1)).len() <= enc_delegators(*d).len());
        }
        total = total + 8 + stake_len;
        i = i + 1;
    }
    proof {
        vstd::bytes::lemma_auto_spec_u32_to_from_le_bytes();
        assert(spec_u32_to_le_bytes(d.entries@.len() as u32).len() == 4);
        assert(d.entries@.take(d.entries@.len() as int) =~= d.entries@);
    }
    total
}

pub proof fn lemma_enc_entries_push(s: Seq<(PublicKey, Delegator)>, e: (PublicKey, Delegator))
    ensures
        enc_entries(s.push(e)) == enc_entries(s) + enc_entry(e),
{
    let single = seq![e];
    assert(s.push(e) =~= s + single);
    lemma_enc_entries_concat(s, single);
    assert(single.drop_first().len() == 0);
    assert(enc_entries(single.drop_first()) =~= Seq::<u8>::empty());
    assert(single[0] == e);
    assert(enc_entries(single) =~= enc_entry(e));
}

/// Reads one encoded delegator map starting at `pos`, rejecting any count,
/// key order or entry bytes that the canonical encoder would not produce.
pub fn read_delegators(bytes: &[u8], pos: usize) -> (r: Result<(Delegators, usize), DecodeError>)
    requires
        pos <= bytes@.len(),
    ensures
        match r {
            Ok(p) => p.0.wf() && pos <= p.1 <= bytes@.len() && bytes@.subrange(
                pos as int,
                p.1 as int,
            ) == enc_delegators(p.0),
            Err(_) => forall|x: Delegators|
                x.wf() ==> !(#[trigger] enc_delegators(x)).is_prefix_of(bytes@.skip(pos as int)),
        },
{
    let ghost rest = bytes@.skip(pos as int);
    let n_total: usize = bytes.len();
    let count: u32;
    let mut cur: usize;
    match read_u32(bytes, pos) {
        Ok(p) => {
            count = p.0;
            cur = p.1;
        },
        Err(e) => {
            proof {
                vstd::bytes::lemma_auto_spec_u32_to_from_le_bytes();
                assert forall|x: Delegators|
                    x.wf() && (#[trigger] enc_delegators(x)).is_prefix_of(rest) implies false by {
                    assert(spec_u32_to_le_bytes(x.entries@.len() as u32).len() == 4);
                    assert(enc_delegators(x).len() >= 4);
                }
            }
            return Err(e);
        },
    }
    let mut entries: Vec<(PublicKey, Delegator)> = Vec::new();
    let mut idx: u32 = 0;
    proof {
        vstd::bytes::lemma_auto_spec_u32_to_from_le_bytes();
        assert(bytes@.subrange(pos + 4, pos + 4) =~= enc_entries(entries@));
        assert forall|x: Delegators|
            x.wf() && (#[trigger] enc_delegators(x)).is_prefix_of(rest) implies {
            &&& x.entries@.len() == count
            &&& entries_like(x.entries@.take(0), entries@)
            &&& enc_entries(x.entries@.skip(0)).is_prefix_of(bytes@.skip(cur as int))
        } by {
            lemma_prefix_shift(
                spec_u32_to_le_bytes(x.entries@.len() as u32),
                enc_entries(x.entries@),
                rest,
            );
            assert(spec_u32_to_le_bytes(x.entries@.len() as u32).len() == 4);
            assert(spec_u32_to_le_bytes(x.entries@.len() as u32) =~= rest.take(4));
            assert(rest.take(4) =~= bytes@.subrange(pos as int, pos + 4));
            lemma_u32_le_injective(x.entries@.len() as u32, count);
            assert(rest.skip(4) =~= bytes@.skip(cur as int));
            assert(x.entries@.skip(0) =~= x.entries@);
        }
    }
    while idx < count
        invariant
            pos + 4 <= cur <= bytes@.len(),
            bytes@.len() == n_total,
            idx <= count <= u32::MAX,
            entries@.len() == idx,
            bytes@.subrange(pos as int, pos + 4) == spec_u32_to_le_bytes(count),
            bytes@.subrange(pos + 4, cur as int) == enc_entries(entries@),
            forall|i: int, j: int|
                0 <= i < j < entries@.len() ==> entries@[i].0.id < entries@[j].0.id,
            forall|i: int| 0 <= i < entries@.len() ==> (#[trigger] entries@[i]).1.wf(),
            forall|x: Delegators|
                x.wf() && (#[trigger] enc_delegators(x)).is_prefix_of(bytes@.skip(pos as int))
                    ==> {
                    &&& x.entries@.len() == count
                    &&& entries_like(x.entries@.take(idx as int), entries@)
                    &&& enc_entries(x.entries@.skip(idx as int)).is_prefix_of(
                        bytes@.skip(cur as int),
                    )
                },
        decreases count - idx,
    {
        let ghost here = bytes@.skip(cur as int);
        proof {
            vstd::bytes::lemma_auto_spec_u64_to_from_le_bytes();
            assert forall|x: Delegators|
                x.wf() && (#[trigger] enc_delegators(x)).is_prefix_of(bytes@.skip(pos as int))
                    implies {
                &&& enc_pubkey(x.entries@[idx as int].0).is_prefix_of(here)
                &&& enc_u512(x.entries@[idx as int].1.staked_amount).is_prefix_of(here.skip(8))
                &&& x.entries@[idx as int].1.wf()
            } by {
                let sfx = x.entries@.skip(idx as int);
                assert(sfx.len() > 0);
                assert(sfx[0] == x.entries@[idx as int]);
                lemma_prefix_shift(enc_entry(sfx[0]), enc_entries(sfx.drop_first()), here);
                lemma_prefix_shift(enc_pubkey(sfx[0].0), enc_delegator(sfx[0].1), here);
            }
        }
        let kid: u64;
        let kend: usize;
        match read_u64(bytes, cur) {
            Ok(p) => {
                kid = p.0;
                kend = p.1;
            },
            Err(e) => {
                proof {
                    vstd::bytes::lemma_auto_spec_u64_to_from_le_bytes();
                    assert forall|x: Delegators|
                        x.wf() && (#[trigger] enc_delegators(x)).is_prefix_of(
                            bytes@.skip(pos as int),
                        ) implies false by {
                        assert(enc_pubkey(x.entries@[idx as int].0).len() == 8);
                        assert(here.len() < 8);
                    }
                }
                return Err(e);
            },
        }
        let stake: U512;
        let send: usize;
        match read_u512(bytes, kend) {
            Ok(p) => {
                stake = p.0;
                send = p.1;
            },
            Err(e) => {
                proof {
                    assert forall|x: Delegators|
                        x.wf() && (#[trigger] enc_delegators(x)).is_prefix_of(
                            bytes@.skip(pos as int),
                        ) implies false by {
                        assert(here.skip(8) =~= bytes@.skip(kend as int));
                    }
                }
                return Err(e);
            },
        }
        proof {
            vstd::bytes::lemma_auto_spec_u64_to_from_le_bytes();
            assert forall|x: Delegators|
                x.wf() && (#[trigger] enc_delegators(x)).is_prefix_of(bytes@.skip(pos as int))
                    implies x.entries@[idx as int].0.id == kid
                    && x.entries@[idx as int].1.staked_amount.bytes@ == stake.bytes@ by {
                assert(enc_pubkey(x.entries@[idx as int].0).len() == 8);
                assert(enc_pubkey(x.entries@[idx as int].0) =~= here.take(8));
                assert(bytes@.subrange(cur as int, kend as int) =~= here.take(8));
                lemma_u64_le_injective(x.entries@[idx as int].0.id, kid);
                assert(enc_u512(stake) =~= bytes@.skip(kend as int).take((send - kend) as int));
                assert(here.skip(8) =~= bytes@.skip(kend as int));
                lemma_enc_u512_prefix_free(
                    x.entries@[idx as int].1.staked_amount,
                    stake,
                    bytes@.skip(kend as int),
                );
            }
        }
        let sorted_here = entries.len() == 0 || {
            let last = &entries[entries.len() - 1];
            last.0.id < kid
        };
        if !sorted_here {
            proof {
                assert forall|x: Delegators|
                    x.wf() && (#[trigger] enc_delegators(x)).is_prefix_of(bytes@.skip(pos as int))
                        implies false by {
                    let prev = (idx - 1) as int;
                    assert(entry_like(x.entries@.take(idx as int)[prev], entries@[prev]));
                    assert(x.entries@.take(idx as int)[prev] == x.entries@[prev]);
                    assert(x.entries@[prev].0.id < x.entries@[idx as int].0.id);
                }
            }
            return Err(DecodeError::Formatting);
        }
        let entry = (PublicKey { id: kid }, Delegator { staked_amount: stake });
        proof {
            lemma_enc_entries_push(entries@, entry);
            assert(bytes@.subrange(pos + 4, send as int) =~= bytes@.subrange(pos + 4, cur as int)
                + bytes@.subrange(cur as int, kend as int) + bytes@.subrange(
                kend as int,
                send as int,
            ));
            assert(bytes@.subrange(cur as int, kend as int) == enc_pubkey(entry.0));
            assert(bytes@.subrange(kend as int, send as int) == enc_u512(stake));
            assert(bytes@.subrange(pos + 4, send as int) == enc_entries(entries@.push(entry)));
            if entries@.len() > 0 {
                assert forall|i: int| 0 <= i < entries@.len() implies entries@[i].0.id < kid by {
                    if i < entries@.len() - 1 {
                        assert(entries@[i].0.id < entries@[entries@.len() - 1].0.id);
                    }
                }
            }
            assert forall|x: Delegators|
                x.wf() && (#[trigger] enc_delegators(x)).is_prefix_of(bytes@.skip(pos as int))
                    implies {
                &&& entries_like(x.entries@.take(idx + 1), entries@.push(entry))
                &&& enc_entries(x.entries@.skip(idx + 1)).is_prefix_of(bytes@.skip(send as int))
            } by {
                let sfx = x.entries@.skip(idx as int);
                assert(sfx.len() > 0);
                assert(sfx[0] == x.entries@[idx as int]);
                lemma_prefix_shift(enc_entry(sfx[0]), enc_entries(sfx.drop_first()), here);
                assert(enc_pubkey(sfx[0].0).len() == 8) by {
                    vstd::bytes::lemma_auto_spec_u64_to_from_le_bytes();
                }
                assert(enc_u512(sfx[0].1.staked_amount).len() == enc_u512(stake).len());
                assert(enc_entry(sfx[0]).len() == send - cur);
                assert(here.skip((send - cur) as int) =~= bytes@.skip(send as int));
                assert(sfx.drop_first() =~= x.entries@.skip(idx + 1));
                assert forall|i: int|
                    0 <= i < idx + 1 implies entry_like(
                    x.entries@.take(idx + 1)[i],
                    entries@.push(entry)[i],
                ) by {
                    if i < idx {
                        assert(entry_like(x.entries@.take(idx as int)[i], entries@[i]));
                    }
                }
            }
        }
        entries.push(entry);
        cur = send;
        proof {
            assert(idx < count);
        }
        idx = idx + 1;
    }
    let d = Delegators { entries };
    proof {
        assert(d.entries@.len() == count);
        assert(bytes@.subrange(pos as int, cur as int) =~= bytes@.subrange(pos as int, pos + 4)
            + bytes@.subrange(pos + 4, cur as int));
        assert(d.entries@.len() as u32 == count);
        assert(bytes@.subrange(pos as int, cur as int) == enc_delegators(d));
    }
    Ok((d, cur))
}

/// Two entry runs of equal length encoded at the head of the same byte
/// string agree entry by entry.
pub proof fn lemma_enc_entries_prefix_free(
    e1: Seq<(PublicKey, Delegator)>,
    e2: Seq<(PublicKey, Delegator)>,
    s: Seq<u8>,
)
    requires
        e1.len() == e2.len(),
        forall|i: int| 0 <= i < e1.len() ==> (#[trigger] e1[i]).1.wf(),
        forall|i: int| 0 <= i < e2.len() ==> (#[trigger] e2[i]).1.wf(),
        enc_entries(e1).is_prefix_of(s),
        enc_entries(e2).is_prefix_of(s),
    ensures
        entries_like(e1, e2),
    decreases e1.len(),
{
    if e1.len() > 0 {
        let a1 = e1[0];
        let a2 = e2[0];
        lemma_prefix_shift(enc_pubkey(a1.0) + enc_delegator(a1.1), enc_entries(e1.drop_first()), s);
        lemma_prefix_shift(enc_pubkey(a2.0) + enc_delegator(a2.1), enc_entries(e2.drop_first()), s);
        lemma_prefix_shift(enc_pubkey(a1.0), enc_delegator(a1.1), s);
        lemma_prefix_shift(enc_pubkey(a2.0), enc_delegator(a2.1), s);
        vstd::bytes::lemma_auto_spec_u64_to_from_le_bytes();
        assert(enc_pubkey(a1.0).len() == 8 && enc_pubkey(a2.0).len() == 8);
        assert(enc_pubkey(a1.0) =~= s.take(8));
        assert(enc_pubkey(a2.0) =~= s.take(8));
        lemma_u64_le_injective(a1.0.id, a2.0.id);
        lemma_enc_u512_prefix_free(a1.1.staked_amount, a2.1.staked_amount, s.skip(8));
        assert(enc_delegator(a1.1) == enc_delegator(a2.1));
        assert(enc_entry(a1) == enc_entry(a2));
        let tail = s.skip(enc_entry(a1).len() as int);
        lemma_enc_entries_prefix_free(e1.drop_first(), e2.drop_first(), tail);
        assert forall|i: int| 0 <= i < e1.len() implies entry_like(e1[i], e2[i]) by {
            if i > 0 {
                assert(entry_like(e1.drop_first()[i - 1], e2.drop_first()[i - 1]));
            }
        }
    }
}

/// Two delegator maps encoded at the head of the same byte string agree
/// entry by entry: the map encoding is self-delimiting and injective.
pub proof fn lemma_enc_delegators_prefix_free(a: Delegators, b: Delegators, s: Seq<u8>)
    requires
        a.wf(),
        b.wf(),
        enc_delegators(a).is_prefix_of(s),
        enc_delegators(b).is_prefix_of(s),
    ensures
        entries_like(a.entries@, b.entries@),
        enc_delegators(a) == enc_delegators(b),
{
    lemma_prefix_shift(
        spec_u32_to_le_bytes(a.entries@.len() as u32),
        enc_entries(a.entries@),
        s,
    );
    lemma_prefix_shift(
        spec_u32_to_le_bytes(b.entries@.len() as u32),
        enc_entries(b.entries@),
        s,
    );
    vstd::bytes::lemma_auto_spec_u32_to_from_le_bytes();
    assert(spec_u32_to_le_bytes(a.entries@.len() as u32).len() == 4);
    assert(spec_u32_to_le_bytes(b.entries@.len() as u32).len() == 4);
    assert(spec_u32_to_le_bytes(a.entries@.len() as u32) =~= s.take(4));
    assert(spec_u32_to_le_bytes(b.entries@.len() as u32) =~= s.take(4));
    lemma_u32_le_injective(a.entries@.len() as u32, b.entries@.len() as u32);
    lemma_enc_entries_prefix_free(a.entries@, b.entries@, s.skip(4));
    assert forall|i: int| 0 <= i < a.entries@.len() implies enc_entry(a.entries@[i]) == enc_entry(
        b.entries@[i],
    ) by {
        assert(entry_like(a.entries@[i], b.entries@[i]));
    }
    lemma_enc_entries_equal(a.entries@, b.entries@);
}

/// Entry runs that agree entry by entry encode to the same bytes.
pub proof fn lemma_enc_entries_equal(
    e1: Seq<(PublicKey, Delegator)>,
    e2: Seq<(PublicKey, Delegator)>,
)
    requires
        entries_like(e1, e2),
    ensures
        enc_entries(e1) == enc_entries(e2),
    decreases e1.len(),
{
    if e1.len() > 0 {
        assert(entry_like(e1[0], e2[0]));
        assert(entries_like(e1.drop_first(), e2.drop_first())) by {
            assert forall|i: int|
                0 <= i < e1.drop_first().len() implies entry_like(
                e1.drop_first()[i],
                e2.drop_first()[i],
            ) by {
                assert(entry_like(e1[i + 1], e2[i + 1]));
            }
        }
        lemma_enc_entries_equal(e1.drop_first(), e2.drop_first());
    }
}

} // verus!
