use vstd::prelude::*;

verus! {

/// The ways a run can fail. Opening the input file is the caller's business;
/// once the bytes are in hand, a run fails either because a record is
/// malformed or because the input holds no records at all.
#[derive(Clone, Copy, Debug, PartialEq, Eq, Structural)]
pub enum FilterError {
    /// A record in the input is malformed: data before the first header, or a
    /// header without an identifier token.
    ParseError,
    /// The input was read but holds no records; statistics cannot be computed.
    EmptyInput,
}

} // verus!
