use vstd::prelude::*;

verus! {

/// What can go wrong when converting to or from Roman digits.
#[derive(Clone, Copy, Debug, PartialEq, Eq, Structural)]
pub enum Error {
    /// The number has no Roman representation (zero).
    InvalidNumber(u32),
    /// The character or byte is not a Roman digit.
    InvalidDigit(char),
}

} // verus!
