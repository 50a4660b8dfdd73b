//! A validator's stake record ("bid") for a proof-of-stake ledger, together
//! with its canonical, self-delimiting binary encoding.
//!
//! The entity keeps monetary state in 512-bit unsigned integers mutated only
//! through checked arithmetic, enforces a one-way funds-lock lifecycle, and
//! encodes to bytes deterministically so that equal logical values always
//! produce equal byte strings.

use vstd::prelude::*;

pub mod bid;
pub mod codec;
pub mod delegator;
pub mod u512;
pub mod uref;

pub use bid::{Bid, DelegationRate, LockState};
pub use delegator::{Delegator, Delegators, PublicKey};
pub use u512::U512;
pub use uref::{READ_ADD_WRITE, URef};

verus! {

/// Domain errors raised by the bid entity itself.
#[derive(Clone, Copy, Debug, PartialEq, Eq, Structural)]
pub enum Error {
    /// A stake decrease was attempted while the bid's funds are locked.
    FundsLocked,
    /// A checked arithmetic operation would leave the 512-bit unsigned range.
    InvalidAmount,
}

/// Errors raised while decoding the canonical byte representation.
#[derive(Clone, Copy, Debug, PartialEq, Eq, Structural)]
pub enum DecodeError {
    /// The input ended before the value was complete.
    EarlyEndOfStream,
    /// The input bytes do not form a canonical encoding.
    Formatting,
}

} // verus!
