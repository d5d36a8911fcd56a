use vstd::prelude::*;

verus! {

/// Why an update or a field of a feed payload could not be used.
#[derive(Clone, Copy, Debug, PartialEq, Eq, Structural)]
pub enum OrderbookError {
    /// A price, quantity or timestamp is not a well-formed decimal number
    /// within range.
    InvalidNumber,
    /// The ranked update lacks asks or bids, so it has no spread.
    EmptySide,
}

} // verus!
