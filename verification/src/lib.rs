use vstd::prelude::*;

pub mod codec;
pub mod crypto;
pub mod hexcode;
pub mod digits;
pub mod obfus;
pub mod shape;
pub mod text;
pub mod util;

verus! {

/// Error cases of the codec and of the key operations built on it.
#[derive(Clone, Copy, Debug, PartialEq, Eq, Structural)]
pub enum CodecError {
    /// The requested base lies outside 2..=62.
    InvalidBase,
    /// An empty digit string was given where a number was expected.
    EmptyInput,
    /// A character falls outside the alphabet of the requested base.
    InvalidCharacter,
    /// A hexadecimal byte string is malformed (odd length or bad digit).
    DecodeError,
    /// A params value could not be canonically serialized.
    SerializationError,
}

} // verus!
