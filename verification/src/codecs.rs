//! Codecs for commands and responses: the wire-level errors and the RESP2
//! implementation.

use vstd::prelude::*;

pub mod command;
pub mod resp2;
pub mod text;

verus! {

/// An error encountered while encoding a value.
#[derive(Debug, Clone, Copy, PartialEq, Eq, Structural)]
pub enum EncodeError {
    Dummy,
}

/// An error encountered while decoding wire bytes.
#[derive(Debug, Clone, Copy, PartialEq, Eq, Structural)]
pub enum DecodeError {
    /// An unexpected byte at the current position.
    UnexpectedByte(u8),
    /// An unrecognized command name.
    UnrecognizedCommand,
    /// A recognized command with the wrong number of arguments.
    UnexpectedNumberOfArguments,
    /// An invalid length for a bulk string or an array.
    InvalidLength,
    /// A length or integer field that is not valid UTF-8.
    InvalidString,
    /// A length or integer field that is not a decimal integer in range.
    InvalidInteger,
    /// A protocol value of the wrong shape for a command.
    InvalidDataType,
}

} // verus!
