use vstd::prelude::*;

verus! {

/// Failure conditions reported by the library.
///
/// Every fallible operation reports one of these as an explicit result
/// value; no operation panics on inputs admitted by its precondition.
#[derive(Clone, Copy, Debug, PartialEq, Eq, Structural)]
pub enum SharksError {
    /// The threshold lies outside `[1, 255]`.
    ConfigurationError,
    /// Fewer distinct x-coordinates than the threshold were supplied to
    /// recovery.
    InsufficientShares,
    /// The share collection handed to recovery is inconsistent: two shares
    /// carry the same x-coordinate, or the y-vectors disagree in length.
    MalformedShares,
    /// A serialized share was malformed (empty input carries no
    /// x-coordinate).
    DecodeError,
    /// A field division by the zero element was attempted.
    DivisionByZero,
}

} // verus!
