//! Byte-cursor helpers for the fixed-width pieces of the canonical encoding,
//! plus a small fact about composing self-delimiting encodings.

use vstd::prelude::*;
use vstd::bytes::{
    lemma_auto_spec_u32_to_from_le_bytes, lemma_auto_spec_u64_to_from_le_bytes,
    spec_u32_from_le_bytes, spec_u32_to_le_bytes, spec_u64_from_le_bytes, spec_u64_to_le_bytes,
    u32_from_le_bytes, u32_to_le_bytes, u64_from_le_bytes, u64_to_le_bytes,
};
use vstd::slice::slice_subrange;
use crate::DecodeError;

verus! {

/// If `a + b` begins a byte string, then `a` begins it and `b` begins what
/// follows `a`.
pub proof fn lemma_prefix_shift(a: Seq<u8>, b: Seq<u8>, s: Seq<u8>)
    requires
        (a + b).is_prefix_of(s),
    ensures
        a.is_prefix_of(s),
        b.is_prefix_of(s.skip(a.len() as int)),
{
    assert(a =~= s.take(a.len() as int)) by {
        assert forall|j: int| 0 <= j < a.len() implies a[j] == s[j] by {
            assert((a + b)[j] == a[j]);
        }
    }
    assert(b =~= s.skip(a.len() as int).take(b.len() as int)) by {
        assert forall|j: int| 0 <= j < b.len() implies b[j] == s.skip(a.len() as int)[j] by {
            assert((a + b)[a.len() + j] == b[j]);
        }
    }
}

/// Appends the 8-byte little-endian encoding of `v`.
pub fn write_u64(out: &mut Vec<u8>, v: u64)
    ensures
        final(out)@ == old(out)@ + spec_u64_to_le_bytes(v),
{
    let mut piece = u64_to_le_bytes(v);
    out.append(&mut piece);
}

/// Appends the 4-byte little-endian encoding of `v`.
pub fn write_u32(out: &mut Vec<u8>, v: u32)
    ensures
        final(out)@ == old(out)@ + spec_u32_to_le_bytes(v),
{
    let mut piece = u32_to_le_bytes(v);
    out.append(&mut piece);
}

/// Reads an 8-byte little-endian integer starting at `pos`.
pub fn read_u64(bytes: &[u8], pos: usize) -> (r: Result<(u64, usize), DecodeError>)
    requires
        pos <= bytes@.len(),
    ensures
        match r {
            Ok(p) => p.1 == pos + 8 && p.1 <= bytes@.len() && bytes@.subrange(
                pos as int,
                p.1 as int,
            ) == spec_u64_to_le_bytes(p.0),
            Err(e) => bytes@.len() - pos < 8 && e == DecodeError::EarlyEndOfStream,
        },
{
    proof {
        lemma_auto_spec_u64_to_from_le_bytes();
    }
    if bytes.len() - pos < 8 {
        return Err(DecodeError::EarlyEndOfStream);
    }
    let piece = slice_subrange(bytes, pos, pos + 8);
    let v = u64_from_le_bytes(piece);
    Ok((v, pos + 8))
}

/// Reads a 4-byte little-endian integer starting at `pos`.
pub fn read_u32(bytes: &[u8], pos: usize) -> (r: Result<(u32, usize), DecodeError>)
    requires
        pos <= bytes@.len(),
    ensures
        match r {
            Ok(p) => p.1 == pos + 4 && p.1 <= bytes@.len() && bytes@.subrange(
                pos as int,
                p.1 as int,
            ) == spec_u32_to_le_bytes(p.0),
            Err(e) => bytes@.len() - pos < 4 && e == DecodeError::EarlyEndOfStream,
        },
{
    proof {
        lemma_auto_spec_u32_to_from_le_bytes();
    }
    if bytes.len() - pos < 4 {
        return Err(DecodeError::EarlyEndOfStream);
    }
    let piece = slice_subrange(bytes, pos, pos + 4);
    let v = u32_from_le_bytes(piece);
    Ok((v, pos + 4))
}

/// The 8-byte little-endian encoding is injective.
pub proof fn lemma_u64_le_injective(x: u64, y: u64)
    requires
        spec_u64_to_le_bytes(x) == spec_u64_to_le_bytes(y),
    ensures
        x == y,
{
    lemma_auto_spec_u64_to_from_le_bytes();
    assert(spec_u64_from_le_bytes(spec_u64_to_le_bytes(x)) == x);
    assert(spec_u64_from_le_bytes(spec_u64_to_le_bytes(y)) == y);
}

/// The 4-byte little-endian encoding is injective.
pub proof fn lemma_u32_le_injective(x: u32, y: u32)
    requires
        spec_u32_to_le_bytes(x) == spec_u32_to_le_bytes(y),
    ensures
        x == y,
{
    lemma_auto_spec_u32_to_from_le_bytes();
    assert(spec_u32_to_le_bytes(x).len() == 4);
    assert(spec_u32_to_le_bytes(y).len() == 4);
    assert(spec_u32_from_le_bytes(spec_u32_to_le_bytes(x)) == x);
    assert(spec_u32_from_le_bytes(spec_u32_to_le_bytes(y)) == y);
}

} // verus!
