//! What decoding and encoding fail with.

use vstd::prelude::*;

verus! {

/// Why a byte buffer is not canonical Bencode.
#[derive(Clone, Copy, Debug, PartialEq, Eq)]
pub enum DecodeErrorKind {
    /// The buffer holds no bytes.
    EmptyInput,
    /// The buffer ends where a value must start.
    UnexpectedEnd,
    /// A value starts with a byte that starts no value.
    InvalidLeadByte,
    /// An integer has no closing `e`.
    UnterminatedInteger,
    /// An integer has no digits.
    EmptyInteger,
    /// An integer is written `-0`.
    NegativeZero,
    /// An integer other than zero starts with `0`.
    IntegerLeadingZero,
    /// An integer holds a byte that is no digit.
    InvalidIntegerDigit,
    /// A byte string's length has no `:` after it.
    MissingSeparator,
    /// A byte string's length other than zero starts with `0`.
    LengthLeadingZero,
    /// A byte string's length holds a byte that is no digit, or no digit at
    /// all.
    InvalidLengthDigit,
    /// A byte string's length exceeds the bytes that are left.
    LengthOverrun,
    /// The buffer ends inside a list.
    UnterminatedList,
    /// The buffer ends inside a dictionary.
    UnterminatedDictionary,
    /// A dictionary key comes before the key in front of it.
    UnsortedKeys,
    /// A dictionary key equals the key in front of it.
    DuplicateKey,
    /// Bytes follow the top-level value.
    TrailingData,
}

/// A decoding failure: what is wrong, and the byte offset at which it was
/// found.
#[derive(Clone, Copy, Debug, PartialEq, Eq)]
pub struct DecodeError {
    pub kind: DecodeErrorKind,
    pub offset: usize,
}

/// Why a value has no Bencode text.
#[derive(Clone, Copy, Debug, PartialEq, Eq)]
pub enum EncodeError {
    /// A value of a type that Bencode has no form for.
    UnsupportedType,
    /// A dictionary holds two entries with the same key.
    DuplicateKey,
    /// A list or dictionary contains itself.
    Cycle,
}

/// An encoding failure in a graph: what is wrong, and the position of the
/// node at which it was found.
#[derive(Clone, Copy, Debug, PartialEq, Eq)]
pub struct GraphError {
    pub kind: EncodeError,
    pub node: usize,
}

impl DecodeErrorKind {
    /// The text that describes this kind of failure.
    pub open spec fn message_text(self) -> Seq<char> {
        match self {
            DecodeErrorKind::EmptyInput => "empty bytes"@,
            DecodeErrorKind::UnexpectedEnd => "index out of range"@,
            DecodeErrorKind::InvalidLeadByte => "invalid leading byte"@,
            DecodeErrorKind::UnterminatedInteger => "invalid int, missing 'e'"@,
            DecodeErrorKind::EmptyInteger => "invalid int, no digits found"@,
            DecodeErrorKind::NegativeZero => "invalid int, '-0' found"@,
            DecodeErrorKind::IntegerLeadingZero => {
                "invalid int, non-zero int should not start with '0'"@
            },
            DecodeErrorKind::InvalidIntegerDigit => "invalid int, non-digit found"@,
            DecodeErrorKind::MissingSeparator => "invalid bytes, missing length separator"@,
            DecodeErrorKind::LengthLeadingZero => "invalid bytes length, leading '0' found"@,
            DecodeErrorKind::InvalidLengthDigit => "invalid bytes length, non-digit found"@,
            DecodeErrorKind::LengthOverrun => "invalid bytes length, buffer overflow"@,
            DecodeErrorKind::UnterminatedList => "unexpected end when parsing list"@,
            DecodeErrorKind::UnterminatedDictionary => "bytes end when decoding dict"@,
            DecodeErrorKind::UnsortedKeys => "dict key not sorted"@,
            DecodeErrorKind::DuplicateKey => "duplicated dict key found"@,
            DecodeErrorKind::TrailingData => {
                "invalid bencode data, bytes follow the top level value"@
            },
        }
    }

    /// A human-readable description of this kind of failure.
    pub fn message(self) -> (text: &'static str)
        ensures
            text@ == self.message_text(),
    {
        match self {
            DecodeErrorKind::EmptyInput => "empty bytes",
            DecodeErrorKind::UnexpectedEnd => "index out of range",
            DecodeErrorKind::InvalidLeadByte => "invalid leading byte",
            DecodeErrorKind::UnterminatedInteger => "invalid int, missing 'e'",
            DecodeErrorKind::EmptyInteger => "invalid int, no digits found",
            DecodeErrorKind::NegativeZero => "invalid int, '-0' found",
            DecodeErrorKind::IntegerLeadingZero => {
                "invalid int, non-zero int should not start with '0'"
            },
            DecodeErrorKind::InvalidIntegerDigit => "invalid int, non-digit found",
            DecodeErrorKind::MissingSeparator => "invalid bytes, missing length separator",
            DecodeErrorKind::LengthLeadingZero => "invalid bytes length, leading '0' found",
            DecodeErrorKind::InvalidLengthDigit => "invalid bytes length, non-digit found",
            DecodeErrorKind::LengthOverrun => "invalid bytes length, buffer overflow",
            DecodeErrorKind::UnterminatedList => "unexpected end when parsing list",
            DecodeErrorKind::UnterminatedDictionary => "bytes end when decoding dict",
            DecodeErrorKind::UnsortedKeys => "dict key not sorted",
            DecodeErrorKind::DuplicateKey => "duplicated dict key found",
            DecodeErrorKind::TrailingData => {
                "invalid bencode data, bytes follow the top level value"
            },
        }
    }
}

impl DecodeError {
    /// A human-readable description of the failure, without its offset.
    pub fn message(&self) -> (text: &'static str)
        ensures
            text@ == self.kind.message_text(),
    {
        self.kind.message()
    }

    /// The byte offset at which the input was found wrong.
    pub fn offset(&self) -> (offset: usize)
        ensures
            offset == self.offset,
    {
        self.offset
    }
}

impl EncodeError {
    /// The text that describes this failure.
    pub open spec fn message_text(self) -> Seq<char> {
        match self {
            EncodeError::UnsupportedType => "unsupported type"@,
            EncodeError::DuplicateKey => "duplicated keys"@,
            EncodeError::Cycle => "circular reference found"@,
        }
    }

    /// A human-readable description of the failure.
    pub fn message(&self) -> (text: &'static str)
        ensures
            text@ == self.message_text(),
    {
        match self {
            EncodeError::UnsupportedType => "unsupported type",
            EncodeError::DuplicateKey => "duplicated keys",
            EncodeError::Cycle => "circular reference found",
        }
    }
}

impl GraphError {
    /// A human-readable description of the failure, without its node.
    pub fn message(&self) -> (text: &'static str)
        ensures
            text@ == self.kind.message_text(),
    {
        self.kind.message()
    }

    /// The position of the node at which the failure was found.
    pub fn node(&self) -> (node: usize)
        ensures
            node == self.node,
    {
        self.node
    }
}

} // verus!
