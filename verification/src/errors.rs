use vstd::prelude::*;

verus! {

/// Why an entry of a retention policy string is malformed.
#[derive(Debug, Clone, Copy, PartialEq, Eq, Structural)]
pub enum ParseChannelConfigError {
    /// The duration ends in a character that is not a known unit.
    InvalidDurationSuffix(char),
    /// The duration token is empty.
    NoDuration,
    /// The entry is not of the form `name:duration`.
    InvalidFormat,
}

/// Why a retention policy string gave no policy table.
#[derive(Debug, Clone, Copy, PartialEq, Eq, Structural)]
pub enum ParseError {
    /// An entry is malformed.
    Config(ParseChannelConfigError),
    /// What stands before the unit is not an `i64` written in base ten.
    InvalidNumber,
    /// The duration is longer than a `chrono::Duration` can be.
    DurationOutOfRange,
}

} // verus!
