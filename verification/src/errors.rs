//! Error kinds of the engine.  Every failure is fatal to the operation that
//! raised it; no operation mutates state before its checks have passed.

use vstd::prelude::*;

verus! {

/// Why an operation of the engine was refused.
#[derive(Clone, Copy, Debug, PartialEq, Eq, Structural)]
pub enum EngineError {
    /// A position operation was given both or neither of the two token
    /// amounts.
    IncorrectToken,
    /// The supplied token lies on the wrong side of the current price for
    /// the requested range; the caller should have supplied the other asset.
    WrongSide,
    /// A token amount was zero, or a removal would leave a non-positive
    /// locked amount.
    NonPositiveAmount,
    /// The pool, traversing all its positions, cannot satisfy the requested
    /// swap amount.
    InsufficientLiquidity,
    /// A price range was empty, or collapsed to a single tick after
    /// snapping to the tick grid.
    InvalidRange,
    /// A price lies outside the representable tick grid.
    PriceOutOfRange,
    /// A fixed-point intermediate value exceeded the representable range.
    Overflow,
}

} // verus!
