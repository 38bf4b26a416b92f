use vstd::prelude::*;

verus! {

/// What went wrong while reading MessagePack input.
#[derive(Debug, Clone, Copy, PartialEq, Eq, Structural)]
pub enum DecodeErrorKind {
    /// The input ended in the middle of a value.
    UnexpectedEnd,
    /// The marker `0xc1`, which MessagePack never assigns.
    ReservedMarker,
    /// An extension value where a typed value was expected.
    ExtensionUnsupported,
    /// A float where an integer was required.
    ExpectedInteger,
    /// The value at the cursor is not a number.
    ExpectedNumber,
    /// The value at the cursor is not a string.
    ExpectedString,
    /// The value at the cursor is not a binary value.
    ExpectedBinary,
    /// The value at the cursor is not an array.
    ExpectedArray,
    /// The value at the cursor is not a map.
    ExpectedMap,
    /// A string whose bytes are not UTF-8.
    InvalidUtf8,
    /// A binary value that runs past the end of the input.
    TruncatedBinary,
    /// A map key that is not a string.
    MapKeyNotString,
    /// `next_key` with no container open.
    MapIteratorInactive,
    /// `next_key` while the innermost container is an array.
    ExpectedActiveMap,
    /// `next_array_item` with no container open.
    ArrayIteratorInactive,
    /// `next_array_item` while the innermost container is a map.
    ExpectedActiveArray,
    /// A stated length that does not fit the address space.
    ValueLengthTooLarge,
    /// A map header whose entry count overflows when doubled.
    MapLengthTooLarge,
    /// An extension header whose length overflows.
    ExtensionLengthTooLarge,
    /// The number of values still to skip overflows.
    ContainerTooLarge,
    /// Bytes left over after the top-level value.
    TrailingData,
}

/// The text a decoding failure of this kind is reported with.
pub open spec fn kind_message(k: DecodeErrorKind) -> Seq<char> {
    match k {
        DecodeErrorKind::UnexpectedEnd => "unexpected end of MessagePack input"@,
        DecodeErrorKind::ReservedMarker => "reserved MessagePack marker"@,
        DecodeErrorKind::ExtensionUnsupported => "MessagePack extension values are not supported"@,
        DecodeErrorKind::ExpectedInteger => "expected integer"@,
        DecodeErrorKind::ExpectedNumber => "expected number"@,
        DecodeErrorKind::ExpectedString => "expected string"@,
        DecodeErrorKind::ExpectedBinary => "expected binary value"@,
        DecodeErrorKind::ExpectedArray => "expected array"@,
        DecodeErrorKind::ExpectedMap => "expected map"@,
        DecodeErrorKind::InvalidUtf8 => "invalid UTF-8 string"@,
        DecodeErrorKind::TruncatedBinary => "truncated binary value"@,
        DecodeErrorKind::MapKeyNotString => "MessagePack map keys must be strings"@,
        DecodeErrorKind::MapIteratorInactive => "map iterator is not active"@,
        DecodeErrorKind::ExpectedActiveMap => "expected active map"@,
        DecodeErrorKind::ArrayIteratorInactive => "array iterator is not active"@,
        DecodeErrorKind::ExpectedActiveArray => "expected active array"@,
        DecodeErrorKind::ValueLengthTooLarge => "value length is too large"@,
        DecodeErrorKind::MapLengthTooLarge => "map length is too large"@,
        DecodeErrorKind::ExtensionLengthTooLarge => "extension length is too large"@,
        DecodeErrorKind::ContainerTooLarge => "MessagePack container is too large"@,
        DecodeErrorKind::TrailingData => "trailing data"@,
    }
}

impl DecodeErrorKind {
    /// The text this kind of failure is reported with.
    pub fn message(&self) -> (r: &'static str)
        ensures
            r@ == kind_message(*self),
    {
        match self {
            DecodeErrorKind::UnexpectedEnd => "unexpected end of MessagePack input",
            DecodeErrorKind::ReservedMarker => "reserved MessagePack marker",
            DecodeErrorKind::ExtensionUnsupported => "MessagePack extension values are not supported",
            DecodeErrorKind::ExpectedInteger => "expected integer",
            DecodeErrorKind::ExpectedNumber => "expected number",
            DecodeErrorKind::ExpectedString => "expected string",
            DecodeErrorKind::ExpectedBinary => "expected binary value",
            DecodeErrorKind::ExpectedArray => "expected array",
            DecodeErrorKind::ExpectedMap => "expected map",
            DecodeErrorKind::InvalidUtf8 => "invalid UTF-8 string",
            DecodeErrorKind::TruncatedBinary => "truncated binary value",
            DecodeErrorKind::MapKeyNotString => "MessagePack map keys must be strings",
            DecodeErrorKind::MapIteratorInactive => "map iterator is not active",
            DecodeErrorKind::ExpectedActiveMap => "expected active map",
            DecodeErrorKind::ArrayIteratorInactive => "array iterator is not active",
            DecodeErrorKind::ExpectedActiveArray => "expected active array",
            DecodeErrorKind::ValueLengthTooLarge => "value length is too large",
            DecodeErrorKind::MapLengthTooLarge => "map length is too large",
            DecodeErrorKind::ExtensionLengthTooLarge => "extension length is too large",
            DecodeErrorKind::ContainerTooLarge => "MessagePack container is too large",
            DecodeErrorKind::TrailingData => "trailing data",
        }
    }
}

/// A decoding failure and the byte offset it was detected at.
#[derive(Debug, Clone, Copy, PartialEq, Eq, Structural)]
pub struct DecodeError {
    pub kind: DecodeErrorKind,
    pub position: usize,
}

pub open spec fn decode_err(kind: DecodeErrorKind, position: int) -> DecodeError {
    DecodeError { kind, position: position as usize }
}

/// Builds the error value for `kind` at `position`.
pub fn make_decode_error(kind: DecodeErrorKind, position: usize) -> (e: DecodeError)
    ensures
        e == decode_err(kind, position as int),
{
    DecodeError { kind, position }
}

} // verus!
