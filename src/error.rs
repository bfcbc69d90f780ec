//! Errors of the bit codec.
use vstd::prelude::*;

verus! {

/// What can go wrong while packing or unpacking a value.
#[derive(Debug, PartialEq)]
pub enum Error {
    /// The encoding needs more than 64 bits.
    SerMsgTooLong,
    /// A variant index does not fit the 4-bit tag: type name, variant name.
    SerFieldIndexTooLarge(&'static str, &'static str),
    /// A sequence, string or byte blob is longer than 15: its kind and length.
    SerLengthTooLarge(&'static str, usize),
    /// A sequence whose length is not known up front.
    SerLengthUnknow,
    /// Bytes that should spell a string are not UTF-8.
    DeUtf8DecodeFail,
    /// A character was expected and the string is empty.
    DeCharFail,
    /// The shape asks for more bits than the input holds.
    DeMsgTooLong,
    /// Any other failure, described.
    Other(&'static str),
    /// A shape that this codec does not carry (maps, self-describing input).
    Unsupport(&'static str),
    /// Raised by the code that walks a value while packing it.
    SerCustom,
    /// Raised by the code that rebuilds a value while unpacking it.
    DeCustom,
}

} // verus!
