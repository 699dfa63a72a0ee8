use vstd::prelude::*;

use crate::arg::{Flag, ShortArg};

verus! {

/// A problem with the user's input that meant it could not be parsed into a
/// coherent list of arguments.
#[allow(inconsistent_fields)]
#[derive(PartialEq, Debug)]
pub enum ParseError {
    /// A flag that has to take a value was not given one.
    NeedsValue { flag: Flag },
    /// A flag that cannot take a value was given one.
    ForbiddenValue { flag: Flag },
    /// A short argument, alone or in a cluster, matches no registered option.
    UnknownShortArgument { attempt: ShortArg },
    /// A long argument matches no registered option. The bytes are kept as
    /// they were typed, and need not be valid text.
    UnknownArgument { attempt: Vec<u8> },
}

/// The mathematical model of a `ParseError`: the raw bytes of an unknown
/// long argument become a sequence.
pub enum ParseFailure {
    NeedsValue(Flag),
    ForbiddenValue(Flag),
    UnknownShort(u8),
    UnknownLong(Seq<u8>),
}

impl View for ParseError {
    type V = ParseFailure;

    open spec fn view(&self) -> ParseFailure {
        match self {
            ParseError::NeedsValue { flag } => ParseFailure::NeedsValue(*flag),
            ParseError::ForbiddenValue { flag } => ParseFailure::ForbiddenValue(*flag),
            ParseError::UnknownShortArgument { attempt } => ParseFailure::UnknownShort(*attempt),
            ParseError::UnknownArgument { attempt } => ParseFailure::UnknownLong(attempt@),
        }
    }
}

} // verus!
