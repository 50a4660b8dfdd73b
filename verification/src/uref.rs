//! The opaque, unforgeable reference to the purse backing a bid. The entity
//! uses it for identity only and never reads or writes the purse balance.

use vstd::prelude::*;
use vstd::slice::slice_to_vec;
use vstd::array::array_as_slice;
use crate::DecodeError;
use crate::u512::bytes_eq;

verus! {

/// Access-rights bits granting read, add and write on a purse.
pub const READ_ADD_WRITE: u8 = 7;

/// An unforgeable reference: a 32-byte address and one byte of access rights.
#[derive(Debug)]
pub struct URef {
    /// Exactly 32 address bytes whenever the value is well-formed.
    pub addr: Vec<u8>,
    /// The access-rights byte carried alongside the address.
    pub access_rights: u8,
}

/// Canonical encoding: the 32 address bytes, then the access-rights byte.
pub open spec fn enc_uref(u: URef) -> Seq<u8> {
    u.addr@ + seq![u.access_rights]
}

impl URef {
    /// A well-formed reference holds exactly 32 address bytes.
    pub open spec fn wf(self) -> bool {
        self.addr@.len() == 32
    }

    /// Builds a reference from an address and access rights.
    pub fn new(addr: [u8; 32], access_rights: u8) -> (r: URef)
        ensures
            r.wf(),
            r.addr@ == addr@,
            r.access_rights == access_rights,
    {
        URef { addr: slice_to_vec(array_as_slice(&addr)), access_rights }
    }
}

/// Appends the encoding of `u` to `out`.
pub fn write_uref(out: &mut Vec<u8>, u: &URef)
    requires
        u.wf(),
    ensures
        final(out)@ == old(out)@ + enc_uref(*u),
{
    let mut i: usize = 0;
    while i < 32
        invariant
            u.wf(),
            i <= 32,
            out@ == old(out)@ + u.addr@.take(i as int),
        decreases 32 - i,
    {
        proof {
            assert((out@ + seq![u.addr@[i as int]]) =~= old(out)@ + u.addr@.take(i + 1));
        }
        out.push(u.addr[i]);
        i = i + 1;
    }
    out.push(u.access_rights);
    proof {
        assert(out@ =~= old(out)@ + enc_uref(*u));
    }
}

/// Reads one encoded reference starting at `pos`.
pub fn read_uref(bytes: &[u8], pos: usize) -> (r: Result<(URef, usize), DecodeError>)
    requires
        pos <= bytes@.len(),
    ensures
        match r {
            Ok(p) => p.0.wf() && pos <= p.1 <= bytes@.len() && bytes@.subrange(
                pos as int,
                p.1 as int,
            ) == enc_uref(p.0),
            Err(_) => forall|x: URef|
                x.wf() ==> !(#[trigger] enc_uref(x)).is_prefix_of(bytes@.skip(pos as int)),
        },
{
    if bytes.len() - pos < 33 {
        proof {
            assert forall|x: URef|
                x.wf() implies !(#[trigger] enc_uref(x)).is_prefix_of(
                bytes@.skip(pos as int),
            ) by {
                assert(enc_uref(x).len() == 33);
            }
        }
        return Err(DecodeError::EarlyEndOfStream);
    }
    let mut addr: Vec<u8> = Vec::new();
    let mut i: usize = 0;
    proof {
        assert(addr@ =~= bytes@.subrange(pos as int, pos as int));
    }
    while i < 32
        invariant
            pos + 33 <= bytes@.len(),
            bytes@.len() <= usize::MAX,
            i <= 32,
            addr@ == bytes@.subrange(pos as int, pos + i),
        decreases 32 - i,
    {
        proof {
            assert((addr@ + seq![bytes@[pos + i]]) =~= bytes@.subrange(pos as int, pos + i + 1));
        }
        addr.push(bytes[pos + i]);
        i = i + 1;
    }
    let access_rights = bytes[pos + 32];
    let u = URef { addr, access_rights };
    proof {
        assert(bytes@.subrange(pos as int, pos + 33) =~= enc_uref(u));
    }
    Ok((u, pos + 33))
}

/// Two encoded references that begin the same byte string are the same
/// reference: the encoding has fixed width and is injective.
pub proof fn lemma_enc_uref_prefix_free(a: URef, b: URef, s: Seq<u8>)
    requires
        a.wf(),
        b.wf(),
        enc_uref(a).is_prefix_of(s),
        enc_uref(b).is_prefix_of(s),
    ensures
        a.addr@ == b.addr@,
        a.access_rights == b.access_rights,
{
    assert forall|j: int| 0 <= j < 32 implies a.addr@[j] == b.addr@[j] by {
        assert(enc_uref(a)[j] == s[j]);
        assert(enc_uref(b)[j] == s[j]);
    }
    assert(a.addr@ =~= b.addr@);
    assert(enc_uref(a)[32] == s[32]);
    assert(enc_uref(b)[32] == s[32]);
}

impl PartialEq for URef {
    fn eq(&self, other: &URef) -> (r: bool) {
        bytes_eq(&self.addr, &other.addr) && self.access_rights == other.access_rights
    }
}

impl Eq for URef {}

impl vstd::std_specs::cmp::PartialEqSpecImpl for URef {
    open spec fn obeys_eq_spec() -> bool {
        true
    }

    open spec fn eq_spec(&self, other: &URef) -> bool {
        self.addr@ == other.addr@ && self.access_rights == other.access_rights
    }
}

impl Clone for URef {
    fn clone(&self) -> (r: URef)
        ensures
            r.addr@ == self.addr@,
            r.access_rights == self.access_rights,
    {
        URef { addr: slice_to_vec(self.addr.as_slice()), access_rights: self.access_rights }
    }
}

} // verus!
