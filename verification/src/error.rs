//! The ways in which decoding a session-state log can fail.

use vstd::prelude::*;
use crate::text::{decimal_text, push_decimal};

verus! {

/// A fatal decoding failure. No failure is recoverable: once one is reported,
/// nothing that follows in the stream can be trusted.
#[derive(Clone, Copy, Debug, PartialEq, Eq, Structural)]
pub enum DecodeError {
    /// Fewer bytes were available than a read or a skip needed.
    Truncated,
    /// A variable-width integer began with a prefix byte that is not decoded:
    /// the 64-bit form, a signed form, or the reserved range above `0xE0`.
    UnsupportedEncoding { prefix: u8 },
    /// A record whose kind byte lies outside the known range.
    UnknownRecordKind { kind: u8, subkind: u8 },
    /// A field of a mark record carried a key other than `l`, `c`, `n`, `f`.
    UnexpectedField { key: u8 },
    /// The fields of a mark record do not end exactly where the declared
    /// length of the record ends.
    FrameMismatch,
    /// The file path of a mark that is to be printed is not valid UTF-8.
    EncodingError,
}

/// The message that reports `e`: the kind of the failure, and the bytes at
/// fault where there are any, in decimal.
pub open spec fn message_text(e: DecodeError) -> Seq<char> {
    match e {
        DecodeError::Truncated => "stream ends inside a record"@,
        DecodeError::UnsupportedEncoding { prefix } => "unsupported integer encoding: prefix "@
            + decimal_text(prefix as nat),
        DecodeError::UnknownRecordKind { kind, subkind } => "unknown record kind: header "@
            + decimal_text(kind as nat) + " "@ + decimal_text(subkind as nat),
        DecodeError::UnexpectedField { key } => "unexpected field: key "@ + decimal_text(
            key as nat,
        ),
        DecodeError::FrameMismatch => "fields do not end with the record"@,
        DecodeError::EncodingError => "file path is not valid UTF-8"@,
    }
}

impl DecodeError {
    /// The message that reports this failure.
    pub fn message(&self) -> (text: String)
        ensures
            text@ == message_text(*self),
    {
        match *self {
            DecodeError::Truncated => String::from_str("stream ends inside a record"),
            DecodeError::UnsupportedEncoding { prefix } => {
                let mut text = String::from_str("unsupported integer encoding: prefix ");
                push_decimal(&mut text, prefix as usize);
                text
            },
            DecodeError::UnknownRecordKind { kind, subkind } => {
                let mut text = String::from_str("unknown record kind: header ");
                push_decimal(&mut text, kind as usize);
                text.append(" ");
                push_decimal(&mut text, subkind as usize);
                text
            },
            DecodeError::UnexpectedField { key } => {
                let mut text = String::from_str("unexpected field: key ");
                push_decimal(&mut text, key as usize);
                text
            },
            DecodeError::FrameMismatch => String::from_str("fields do not end with the record"),
            DecodeError::EncodingError => String::from_str("file path is not valid UTF-8"),
        }
    }
}

} // verus!
