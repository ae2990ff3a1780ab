//! Errors that the engine reports to its caller at once, without a completion.

use vstd::prelude::*;

verus! {

#[derive(Debug, Clone, Copy, PartialEq, Eq, Structural)]
pub enum AioError {
    /// A segment of a vector does not lie inside the host memory at hand.
    BadAddress,
    /// The request length cannot be rounded to the request alignment.
    RoundLength,
    /// The request carries no operation.
    NoOpcode,
    /// No tag is left under which a request could be queued.
    NoTag,
}

} // verus!
