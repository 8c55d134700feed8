//! What can go wrong, and is reported rather than swallowed.

use vstd::prelude::*;

verus! {

/// The error kinds of the scheme. Each public function's contract states
/// exactly which inputs produce which kind.
#[derive(Clone, Copy, Debug, PartialEq, Eq, Structural)]
pub enum Error {
    /// A byte chunk does not decode to a valid field element.
    InvalidEncoding,
    /// A share set has mismatched `y` lengths.
    InconsistentShareLength,
    /// Fewer distinct evaluation points than the threshold: the intended
    /// privacy outcome when too few clients agree, not a fault.
    InsufficientShares,
    /// The randomness service cannot answer.
    ServiceUnavailable,
    /// The epoch's key was punctured; evaluations under it fail for good.
    EpochPunctured,
}

} // verus!
