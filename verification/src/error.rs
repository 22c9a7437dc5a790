//! The ways in which decoding a buffer can fail.

use vstd::prelude::*;

verus! {

/// Why a buffer does not decode to a protocol value.
#[derive(Clone, Copy, Debug, PartialEq, Eq, Structural)]
pub enum DecodeError {
    /// The buffer holds fewer than two bytes.
    BufferTooShort,
    /// The leading byte names none of the five kinds of value.
    UnknownType,
    /// A line has no terminator.
    MalformedFrame,
    /// A payload is not valid UTF-8.
    InvalidEncoding,
    /// A number, length or count is not a decimal number of its width.
    InvalidNumber,
    /// A declared length or count differs from what follows it.
    LengthMismatch,
}

impl DecodeError {
    /// The text that describes the failure to a peer.
    pub open spec fn description_spec(self) -> Seq<char> {
        match self {
            DecodeError::BufferTooShort => "Buffer too short"@,
            DecodeError::UnknownType => "Unknown RESP type"@,
            DecodeError::MalformedFrame => "Parse error"@,
            DecodeError::InvalidEncoding => "Invalid UTF-8 encoding"@,
            DecodeError::InvalidNumber => "Invalid number"@,
            DecodeError::LengthMismatch => "Buffer len doesn't match prefixed len"@,
        }
    }

    /// The text that describes the failure to a peer.
    pub fn description(&self) -> (text: String)
        ensures
            text@ == self.description_spec(),
    {
        match self {
            DecodeError::BufferTooShort => "Buffer too short".to_owned(),
            DecodeError::UnknownType => "Unknown RESP type".to_owned(),
            DecodeError::MalformedFrame => "Parse error".to_owned(),
            DecodeError::InvalidEncoding => "Invalid UTF-8 encoding".to_owned(),
            DecodeError::InvalidNumber => "Invalid number".to_owned(),
            DecodeError::LengthMismatch => "Buffer len doesn't match prefixed len".to_owned(),
        }
    }
}

} // verus!
