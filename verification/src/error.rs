//! The errors this client surfaces to its callers, apart from the channel's
//! own send failures.

use vstd::prelude::*;

verus! {

/// A failure surfaced by the unary path or at configuration time.
#[derive(Clone, Copy, Debug, PartialEq, Eq, Structural)]
pub enum TransferError {
    /// The chunked unary exchange finished without any chunk response
    /// carrying a payload.
    Timeout,
    /// An auth token was configured but is empty — a configuration error
    /// caught before any call is made.
    EmptyAuthToken,
}

} // verus!
