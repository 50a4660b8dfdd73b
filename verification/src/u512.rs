//! Unsigned 512-bit integers held as exactly 64 little-endian bytes, with
//! checked arithmetic that reports overflow and underflow instead of wrapping.

use vstd::prelude::*;
use crate::DecodeError;

verus! {

/// 256 raised to the power `n`.
pub open spec fn pow256(n: nat) -> nat
    decreases n,
{
    if n == 0 {
        1
    } else {
        256 * pow256((n - 1) as nat)
    }
}

/// The number denoted by a little-endian byte string.
pub open spec fn le_val(s: Seq<u8>) -> nat
    decreases s.len(),
{
    if s.len() == 0 {
        0
    } else {
        le_val(s.drop_last()) + (s.last() as nat) * pow256((s.len() - 1) as nat)
    }
}

/// The largest number representable in 64 bytes.
pub open spec fn max_val() -> nat {
    (pow256(64) - 1) as nat
}

pub proof fn lemma_pow256_pos(n: nat)
    ensures
        pow256(n) >= 1,
    decreases n,
{
    if n > 0 {
        lemma_pow256_pos((n - 1) as nat);
    }
}

pub proof fn lemma_pow256_mono(m: nat, n: nat)
    requires
        m <= n,
    ensures
        pow256(m) <= pow256(n),
    decreases n,
{
    if m < n {
        lemma_pow256_mono(m, (n - 1) as nat);
        lemma_pow256_pos((n - 1) as nat);
    }
}

/// 256^8 is one more than `u64::MAX`.
pub proof fn lemma_pow256_8()
    ensures
        pow256(8) == 0x10000000000000000,
{
    assert(pow256(0) == 1);
    assert(pow256(1) == 256);
    assert(pow256(2) == 0x10000);
    assert(pow256(3) == 0x1000000);
    assert(pow256(4) == 0x100000000);
    assert(pow256(5) == 0x10000000000);
    assert(pow256(6) == 0x1000000000000);
    assert(pow256(7) == 0x100000000000000);
    assert(pow256(8) == 0x10000000000000000);
}

pub proof fn lemma_le_val_push(s: Seq<u8>, b: u8)
    ensures
        le_val(s.push(b)) == le_val(s) + b * pow256(s.len()),
{
    assert(s.push(b).drop_last() =~= s);
    assert(s.push(b).last() == b);
}

pub proof fn lemma_le_val_take_succ(s: Seq<u8>, i: int)
    requires
        0 <= i < s.len(),
    ensures
        le_val(s.take(i + 1)) == le_val(s.take(i)) + s[i] * pow256(i as nat),
{
    let t = s.take(i + 1);
    assert(t.drop_last() =~= s.take(i));
    assert(t.last() == s[i]);
}

/// A byte string of length `n` denotes a number below 256^n.
pub proof fn lemma_le_val_bound(s: Seq<u8>)
    ensures
        le_val(s) < pow256(s.len()),
    decreases s.len(),
{
    if s.len() > 0 {
        let n1 = (s.len() - 1) as nat;
        lemma_le_val_bound(s.drop_last());
        let p = pow256(n1);
        assert(s.last() * p <= 255 * p) by (nonlinear_arith)
            requires
                s.last() <= 255,
                p >= 0,
        ;
        assert(pow256(s.len()) == 256 * p);
    }
}

/// An unsigned 512-bit integer, stored as exactly 64 little-endian bytes.
#[derive(Debug)]
pub struct U512 {
    /// Exactly 64 little-endian bytes whenever the value is well-formed.
    pub bytes: Vec<u8>,
}

impl U512 {
    /// The fixed-width representation holds exactly 64 bytes.
    pub open spec fn wf(self) -> bool {
        self.bytes@.len() == 64
    }

    /// The little-endian bytes of this value.
    pub open spec fn le_bytes(self) -> Seq<u8> {
        self.bytes@
    }

    /// The number this value denotes.
    pub open spec fn val(self) -> nat {
        le_val(self.bytes@)
    }

    /// Builds the value of a 64-bit unsigned integer.
    pub fn from_u64(v: u64) -> (r: U512)
        ensures
            r.wf(),
            r.val() == v,
    {
        let mut bytes: Vec<u8> = Vec::new();
        let mut x: u64 = v;
        let mut i: usize = 0;
        proof {
            assert(bytes@.len() == 0);
            assert(le_val(bytes@) == 0);
            assert(pow256(0) == 1);
        }
        while i < 64
            invariant
                i <= 64,
                bytes@.len() == i,
                le_val(bytes@) + x * pow256(i as nat) == v,
                x * pow256(i as nat) <= v,
            decreases 64 - i,
        {
            let d: u8 = (x % 256) as u8;
            let q: u64 = x / 256;
            proof {
                lemma_le_val_push(bytes@, d);
                let ghost lv = le_val(bytes@);
                let ghost p = pow256(i as nat);
                assert(pow256((i + 1) as nat) == 256 * p);
                assert(x == 256 * q + d);
                assert(lv + d * p + q * (256 * p) == lv + x * p) by (nonlinear_arith)
                    requires
                        x == 256 * q + d,
                ;
                assert(q * (256 * p) <= x * p) by (nonlinear_arith)
                    requires
                        x == 256 * q + d,
                        0 <= d,
                        0 <= q,
                        p >= 0,
                ;
            }
            bytes.push(d);
            x = q;
            i = i + 1;
        }
        proof {
            if x >= 1 {
                lemma_pow256_8();
                lemma_pow256_mono(8, 64);
                assert(x * pow256(64) >= 1 * pow256(64)) by (nonlinear_arith)
                    requires
                        x >= 1,
                        pow256(64) >= 0,
                ;
                assert(v < pow256(8));
            }
        }
        U512 { bytes }
    }

    /// The value zero.
    pub fn zero() -> (r: U512)
        ensures
            r.wf(),
            r.val() == 0,
    {
        U512::from_u64(0)
    }

    /// The value one.
    pub fn one() -> (r: U512)
        ensures
            r.wf(),
            r.val() == 1,
    {
        U512::from_u64(1)
    }

    /// The largest representable value, 2^512 - 1.
    pub fn max_value() -> (r: U512)
        ensures
            r.wf(),
            r.val() == max_val(),
    {
        let mut bytes: Vec<u8> = Vec::new();
        let mut i: usize = 0;
        while i < 64
            invariant
                i <= 64,
                bytes@.len() == i,
                le_val(bytes@) == pow256(i as nat) - 1,
            decreases 64 - i,
        {
            proof {
                lemma_le_val_push(bytes@, 255);
                lemma_pow256_pos(i as nat);
                assert(pow256((i + 1) as nat) == 256 * pow256(i as nat));
            }
            bytes.push(255);
            i = i + 1;
        }
        U512 { bytes }
    }

    /// Checked addition: `None` exactly when the sum would exceed 2^512 - 1.
    pub fn checked_add(&self, other: &U512) -> (r: Option<U512>)
        requires
            self.wf(),
            other.wf(),
        ensures
            match r {
                Some(s) => s.wf() && s.val() == self.val() + other.val() && self.val()
                    + other.val() <= max_val(),
                None => self.val() + other.val() > max_val(),
            },
    {
        let mut out: Vec<u8> = Vec::new();
        let mut carry: u8 = 0;
        let mut i: usize = 0;
        while i < 64
            invariant
                self.wf(),
                other.wf(),
                i <= 64,
                out@.len() == i,
                carry <= 1,
                le_val(out@) + carry * pow256(i as nat)
                    == le_val(self.bytes@.take(i as int)) + le_val(other.bytes@.take(i as int)),
            decreases 64 - i,
        {
            let s: u16 = self.bytes[i] as u16 + other.bytes[i] as u16 + carry as u16;
            let d: u8 = (s % 256) as u8;
            let c2: u8 = (s / 256) as u8;
            proof {
                lemma_le_val_push(out@, d);
                lemma_le_val_take_succ(self.bytes@, i as int);
                lemma_le_val_take_succ(other.bytes@, i as int);
                let ghost p = pow256(i as nat);
                let ghost lv = le_val(out@);
                let ghost av = le_val(self.bytes@.take(i as int));
                let ghost bv = le_val(other.bytes@.take(i as int));
                let ghost ai = self.bytes@[i as int];
                let ghost bi = other.bytes@[i as int];
                assert(pow256((i + 1) as nat) == 256 * p);
                assert(d + 256 * c2 == ai + bi + carry);
                assert(lv + d * p + c2 * (256 * p) == av + ai * p + bv + bi * p) by (nonlinear_arith)
                    requires
                        lv + carry * p == av + bv,
                        d + 256 * c2 == ai + bi + carry,
                        p >= 0,
                ;
            }
            out.push(d);
            carry = c2;
            i = i + 1;
        }
        proof {
            assert(self.bytes@.take(64) =~= self.bytes@);
            assert(other.bytes@.take(64) =~= other.bytes@);
            lemma_le_val_bound(out@);
        }
        if carry == 1 {
            None
        } else {
            Some(U512 { bytes: out })
        }
    }

    /// Checked subtraction: `None` exactly when `other` exceeds `self`.
    pub fn checked_sub(&self, other: &U512) -> (r: Option<U512>)
        requires
            self.wf(),
            other.wf(),
        ensures
            match r {
                Some(d) => d.wf() && d.val() + other.val() == self.val(),
                None => self.val() < other.val(),
            },
    {
        let mut out: Vec<u8> = Vec::new();
        let mut borrow: u8 = 0;
        let mut i: usize = 0;
        while i < 64
            invariant
                self.wf(),
                other.wf(),
                i <= 64,
                out@.len() == i,
                borrow <= 1,
                le_val(out@) + le_val(other.bytes@.take(i as int))
                    == le_val(self.bytes@.take(i as int)) + borrow * pow256(i as nat),
            decreases 64 - i,
        {
            let ai: u8 = self.bytes[i];
            let bi: u8 = other.bytes[i];
            let need: u16 = bi as u16 + borrow as u16;
            let d: u8;
            let b2: u8;
            if (ai as u16) >= need {
                d = ((ai as u16) - need) as u8;
                b2 = 0;
            } else {
                d = ((ai as u16) + 256 - need) as u8;
                b2 = 1;
            }
            proof {
                lemma_le_val_push(out@, d);
                lemma_le_val_take_succ(self.bytes@, i as int);
                lemma_le_val_take_succ(other.bytes@, i as int);
                let ghost p = pow256(i as nat);
                let ghost lv = le_val(out@);
                let ghost av = le_val(self.bytes@.take(i as int));
                let ghost bv = le_val(other.bytes@.take(i as int));
                assert(pow256((i + 1) as nat) == 256 * p);
                assert(d + ai == bi + borrow + 256 * b2 + d + ai - (bi as int) - borrow - 256 * b2);
                assert(ai + 256 * b2 == bi + borrow + d);
                assert(lv + d * p + bv + bi * p == av + ai * p + b2 * (256 * p)) by (nonlinear_arith)
                    requires
                        lv + bv == av + borrow * p,
                        ai + 256 * b2 == bi + borrow + d,
                        p >= 0,
                ;
            }
            out.push(d);
            borrow = b2;
            i = i + 1;
        }
        proof {
            assert(self.bytes@.take(64) =~= self.bytes@);
            assert(other.bytes@.take(64) =~= other.bytes@);
            lemma_le_val_bound(out@);
        }
        if borrow == 1 {
            None
        } else {
            Some(U512 { bytes: out })
        }
    }
}

/// A byte string with its trailing zero bytes removed.
pub open spec fn trimmed(s: Seq<u8>) -> Seq<u8>
    decreases s.len(),
{
    if s.len() == 0 {
        s
    } else if s.last() == 0 {
        trimmed(s.drop_last())
    } else {
        s
    }
}

/// A string of `n` zero bytes.
pub open spec fn zero_bytes(n: nat) -> Seq<u8> {
    Seq::new(n, |i: int| 0u8)
}

pub proof fn lemma_trimmed_props(s: Seq<u8>)
    ensures
        trimmed(s).len() <= s.len(),
        trimmed(s) == s.take(trimmed(s).len() as int),
        trimmed(s).len() > 0 ==> trimmed(s).last() != 0,
        forall|k: int| trimmed(s).len() <= k < s.len() ==> s[k] == 0,
    decreases s.len(),
{
    if s.len() == 0 {
        assert(trimmed(s) =~= s.take(0));
    } else if s.last() == 0 {
        lemma_trimmed_props(s.drop_last());
        let tl = trimmed(s).len() as int;
        assert(s.drop_last().take(tl) =~= s.take(tl));
        assert forall|k: int| tl <= k < s.len() implies s[k] == 0 by {
            if k < s.len() - 1 {
                assert(s.drop_last()[k] == s[k]);
            }
        }
    } else {
        assert(trimmed(s) =~= s.take(s.len() as int));
    }
}

/// Restoring the removed zero bytes gives back the original string.
pub proof fn lemma_untrim(s: Seq<u8>)
    ensures
        s == trimmed(s) + zero_bytes((s.len() - trimmed(s).len()) as nat),
{
    lemma_trimmed_props(s);
    assert(s =~= trimmed(s) + zero_bytes((s.len() - trimmed(s).len()) as nat));
}

/// Padding a string whose last byte is significant changes nothing under `trimmed`.
pub proof fn lemma_trimmed_pad(p: Seq<u8>, k: nat)
    requires
        p.len() == 0 || p.last() != 0,
    ensures
        trimmed(p + zero_bytes(k)) == p,
    decreases k,
{
    if k == 0 {
        assert(p + zero_bytes(0) =~= p);
    } else {
        let t = p + zero_bytes(k);
        assert(t.last() == 0);
        assert(t.drop_last() =~= p + zero_bytes((k - 1) as nat));
        lemma_trimmed_pad(p, (k - 1) as nat);
    }
}

/// Canonical encoding of a 512-bit value: one length byte holding the count of
/// significant little-endian bytes, then exactly those bytes.
pub open spec fn enc_u512(v: U512) -> Seq<u8> {
    seq![trimmed(v.bytes@).len() as u8] + trimmed(v.bytes@)
}

impl U512 {
    /// The count of significant bytes, found by scanning past trailing zeros.
    fn significant_len(&self) -> (r: usize)
        requires
            self.wf(),
        ensures
            r <= 64,
            r == trimmed(self.bytes@).len(),
            trimmed(self.bytes@) == self.bytes@.take(r as int),
    {
        let mut n: usize = 64;
        while n > 0 && self.bytes[n - 1] == 0
            invariant
                self.wf(),
                n <= 64,
                forall|k: int| n <= k < 64 ==> self.bytes@[k] == 0,
            decreases n,
        {
            n = n - 1;
        }
        proof {
            lemma_trimmed_props(self.bytes@);
            let tl = trimmed(self.bytes@).len() as int;
            if tl < n {
                assert(self.bytes@[n - 1] == 0);
            }
            if tl > n {
                assert(self.bytes@[tl - 1] == trimmed(self.bytes@).last());
                assert(self.bytes@[tl - 1] == 0);
            }
        }
        n
    }

    /// The number of bytes the canonical encoding of this value occupies.
    pub fn encoded_length(&self) -> (r: usize)
        requires
            self.wf(),
        ensures
            r == enc_u512(*self).len(),
    {
        1 + self.significant_len()
    }
}

/// Appends the canonical encoding of `v` to `out`.
pub fn write_u512(out: &mut Vec<u8>, v: &U512)
    requires
        v.wf(),
    ensures
        final(out)@ == old(out)@ + enc_u512(*v),
{
    let n = v.significant_len();
    out.push(n as u8);
    let mut i: usize = 0;
    while i < n
        invariant
            v.wf(),
            n <= 64,
            i <= n,
            trimmed(v.bytes@) == v.bytes@.take(n as int),
            out@ == old(out)@ + seq![n as u8] + v.bytes@.take(i as int),
        decreases n - i,
    {
        proof {
            assert((out@ + seq![v.bytes@[i as int]]) =~= old(out)@ + seq![n as u8]
                + v.bytes@.take(i + 1));
        }
        out.push(v.bytes[i]);
        i = i + 1;
    }
    proof {
        assert(out@ =~= old(out)@ + enc_u512(*v));
    }
}

/// Reads one canonically encoded 512-bit value starting at `pos`.
pub fn read_u512(bytes: &[u8], pos: usize) -> (r: Result<(U512, usize), DecodeError>)
    requires
        pos <= bytes@.len(),
    ensures
        match r {
            Ok(p) => p.0.wf() && pos <= p.1 <= bytes@.len() && bytes@.subrange(
                pos as int,
                p.1 as int,
            ) == enc_u512(p.0),
            Err(_) => forall|x: U512|
                x.wf() ==> !(#[trigger] enc_u512(x)).is_prefix_of(bytes@.skip(pos as int)),
        },
{
    let ghost rest = bytes@.skip(pos as int);
    if bytes.len() - pos < 1 {
        proof {
            assert forall|x: U512| x.wf() implies !(#[trigger] enc_u512(x)).is_prefix_of(rest) by {
                assert(enc_u512(x).len() >= 1);
            }
        }
        return Err(DecodeError::EarlyEndOfStream);
    }
    let n = bytes[pos] as usize;
    proof {
        assert(rest[0] == bytes@[pos as int]);
    }
    if n > 64 {
        proof {
            assert forall|x: U512| x.wf() implies !(#[trigger] enc_u512(x)).is_prefix_of(rest) by {
                lemma_trimmed_props(x.bytes@);
                if enc_u512(x).is_prefix_of(rest) {
                    assert(enc_u512(x)[0] == rest[0]);
                }
            }
        }
        return Err(DecodeError::Formatting);
    }
    if bytes.len() - pos < 1 + n {
        proof {
            assert forall|x: U512| x.wf() implies !(#[trigger] enc_u512(x)).is_prefix_of(rest) by {
                lemma_trimmed_props(x.bytes@);
                if enc_u512(x).is_prefix_of(rest) {
                    assert(enc_u512(x)[0] == rest[0]);
                    assert(trimmed(x.bytes@).len() == n);
                }
            }
        }
        return Err(DecodeError::EarlyEndOfStream);
    }
    if n > 0 && bytes[pos + n] == 0 {
        proof {
            assert forall|x: U512| x.wf() implies !(#[trigger] enc_u512(x)).is_prefix_of(rest) by {
                lemma_trimmed_props(x.bytes@);
                if enc_u512(x).is_prefix_of(rest) {
                    assert(enc_u512(x)[0] == rest[0]);
                    assert(trimmed(x.bytes@).len() == n);
                    assert(enc_u512(x)[n as int] == rest[n as int]);
                    assert(enc_u512(x)[n as int] == trimmed(x.bytes@).last());
                    assert(rest[n as int] == bytes@[pos + n]);
                }
            }
        }
        return Err(DecodeError::Formatting);
    }
    let mut data: Vec<u8> = Vec::new();
    let mut i: usize = 0;
    proof {
        assert(data@ =~= bytes@.subrange(pos + 1, pos + 1));
    }
    while i < n
        invariant
            pos + 1 + n <= bytes@.len(),
            bytes@.len() <= usize::MAX,
            n <= 64,
            i <= n,
            data@ == bytes@.subrange(pos + 1, pos + 1 + i),
        decreases n - i,
    {
        proof {
            assert((data@ + seq![bytes@[pos + 1 + i]]) =~= bytes@.subrange(
                pos + 1,
                pos + 1 + i + 1,
            ));
        }
        data.push(bytes[pos + 1 + i]);
        i = i + 1;
    }
    let ghost payload = bytes@.subrange(pos + 1, pos + 1 + n);
    proof {
        assert(data@ =~= payload + zero_bytes(0));
    }
    while data.len() < 64
        invariant
            n <= data@.len() <= 64,
            data@ == payload + zero_bytes((data@.len() - n) as nat),
        decreases 64 - data@.len(),
    {
        proof {
            assert((data@ + seq![0u8]) =~= payload + zero_bytes((data@.len() + 1 - n) as nat));
        }
        data.push(0);
    }
    let v = U512 { bytes: data };
    proof {
        assert(payload.len() == n);
        if n > 0 {
            assert(payload.last() == bytes@[pos + n]);
        }
        lemma_trimmed_pad(payload, (64 - n) as nat);
        assert(trimmed(v.bytes@) == payload);
        assert(bytes@.subrange(pos as int, pos + 1 + n) =~= seq![(n as u8)] + payload);
        assert(bytes@.subrange(pos as int, pos + 1 + n) == enc_u512(v));
    }
    Ok((v, pos + 1 + n))
}

/// Two canonical encodings that begin the same byte string carry the same value:
/// the encoding is self-delimiting and injective.
pub proof fn lemma_enc_u512_prefix_free(a: U512, b: U512, s: Seq<u8>)
    requires
        a.wf(),
        b.wf(),
        enc_u512(a).is_prefix_of(s),
        enc_u512(b).is_prefix_of(s),
    ensures
        a.bytes@ == b.bytes@,
{
    lemma_trimmed_props(a.bytes@);
    lemma_trimmed_props(b.bytes@);
    let ta = trimmed(a.bytes@);
    let tb = trimmed(b.bytes@);
    assert(enc_u512(a)[0] == s[0]);
    assert(enc_u512(b)[0] == s[0]);
    assert(ta.len() == tb.len());
    assert forall|j: int| 0 <= j < ta.len() implies ta[j] == tb[j] by {
        assert(enc_u512(a)[j + 1] == s[j + 1]);
        assert(enc_u512(b)[j + 1] == s[j + 1]);
    }
    assert(ta =~= tb);
    lemma_untrim(a.bytes@);
    lemma_untrim(b.bytes@);
    assert(a.bytes@ =~= b.bytes@);
}

/// Byte-for-byte equality of two byte vectors.
pub(crate) fn bytes_eq(a: &Vec<u8>, b: &Vec<u8>) -> (r: bool)
    ensures
        r <==> a@ == b@,
{
    if a.len() != b.len() {
        proof {
            assert(a@ != b@);
        }
        return false;
    }
    let mut i: usize = 0;
    while i < a.len()
        invariant
            a@.len() == b@.len(),
            i <= a@.len(),
            forall|j: int| 0 <= j < i ==> a@[j] == b@[j],
        decreases a@.len() - i,
    {
        if a[i] != b[i] {
            proof {
                assert(a@[i as int] != b@[i as int]);
            }
            return false;
        }
        i = i + 1;
    }
    proof {
        assert(a@ =~= b@);
    }
    true
}

impl PartialEq for U512 {
    fn eq(&self, other: &U512) -> (r: bool)
    {
        bytes_eq(&self.bytes, &other.bytes)
    }
}

impl Eq for U512 {}

impl vstd::std_specs::cmp::PartialEqSpecImpl for U512 {
    open spec fn obeys_eq_spec() -> bool {
        true
    }

    open spec fn eq_spec(&self, other: &U512) -> bool {
        self.bytes@ == other.bytes@
    }
}

impl Clone for U512 {
    fn clone(&self) -> (r: U512)
        ensures
            r.bytes@ == self.bytes@,
    {
        U512 { bytes: vstd::slice::slice_to_vec(self.bytes.as_slice()) }
    }
}

} // verus!
