use vstd::prelude::*;

verus! {

/// What went wrong during an evaluation.
#[derive(PartialEq, Eq, Structural, Clone, Copy, Debug)]
pub enum ErrorKind {
    /// A numeric run that is not valid text. Runs hold ASCII bytes only, so
    /// the scanner itself never reports this; it is kept for byte sources
    /// that decode text before scanning.
    InvalidUtf8,
    /// A run of digits and decimal points that is no float literal
    /// (`.` alone, or more than one decimal point).
    InvalidNumber,
    /// A byte outside the token set.
    UnexpectedCharacter(u8),
    /// A parenthesis without its partner.
    UnmatchedParenthesis,
    /// An operator, or the end of input, found too few operands.
    StackUnderflow,
    /// More than one value was left once the input was exhausted.
    ExcessOperands,
    /// The byte source could not be read.
    IoFailure,
}

/// The failure of an evaluation.
#[derive(PartialEq, Eq, Structural, Clone, Copy, Debug)]
pub struct Error {
    pub kind: ErrorKind,
}

impl Error {
    pub fn new(kind: ErrorKind) -> (r: Error)
        ensures
            r.kind == kind,
    {
        Error { kind }
    }
}

} // verus!
