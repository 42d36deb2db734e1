//! A codec that turns a small image into a short string of printable
//! characters, and such a string back into a blurred image.
//!
//! The string is a numeral of radix 83 in groups: the size of a grid of
//! colour components, a scale, the average colour, and the other components.
//! This crate reads and writes the groups, packs and unpacks the quantised
//! channels, checks the inputs of both directions, and lays out pixel buffers
//! and component grids. The transform between pixels and components is
//! arithmetic on real numbers: it enters [`decode`] and [`encode`] as function
//! values, and the contracts say what is handed to them, in which order they
//! are asked, and where their results go.

use vstd::prelude::*;

pub mod base83;
pub mod codec;
pub mod hash;
pub mod pixels;
pub mod quantised;

pub use base83::{decode_base83_bytes, decode_base83_string, encode_base83_string, ALPHABET};
pub use codec::{decode, encode};
pub use hash::Components;
pub use pixels::{check_encode_input, fold_pixels, map_components, render, Rgb};
pub use quantised::{decode_ac, decode_dc, encode_ac, encode_dc, Channels};

verus! {

/// Why a hash string cannot be decoded.
#[derive(Clone, Copy, Debug, PartialEq, Eq, Structural)]
pub enum Error {
    /// The hash is shorter than the six digits of the smallest hash.
    LengthInvalid,
    /// The hash is not as long as its first digit says it is.
    LengthMismatch,
}

/// Why an image cannot be encoded.
#[derive(Clone, Copy, Debug, PartialEq, Eq, Structural)]
pub enum EncodingError {
    /// A number of components is not from 1 to 9.
    ComponentsNumberInvalid,
    /// The pixel buffer does not hold four bytes for each pixel of the image.
    BytesPerPixelMismatch,
}

impl Error {
    /// What went wrong, in words.
    pub open spec fn spec_message(self) -> Seq<char> {
        match self {
            Error::LengthInvalid => "the length of the hash is invalid"@,
            Error::LengthMismatch =>
                "the specified number of components does not match the actual length"@,
        }
    }

    /// What went wrong, in words.
    pub fn message(&self) -> (text: &'static str)
        ensures
            text@ == self.spec_message(),
    {
        match self {
            Error::LengthInvalid => "the length of the hash is invalid",
            Error::LengthMismatch =>
                "the specified number of components does not match the actual length",
        }
    }
}

impl EncodingError {
    /// What went wrong, in words.
    pub open spec fn spec_message(self) -> Seq<char> {
        match self {
            EncodingError::ComponentsNumberInvalid => "cannot encode this number of components"@,
            EncodingError::BytesPerPixelMismatch =>
                "the bytes per pixel does not match the pixel count"@,
        }
    }

    /// What went wrong, in words.
    pub fn message(&self) -> (text: &'static str)
        ensures
            text@ == self.spec_message(),
    {
        match self {
            EncodingError::ComponentsNumberInvalid => "cannot encode this number of components",
            EncodingError::BytesPerPixelMismatch =>
                "the bytes per pixel does not match the pixel count",
        }
    }
}

} // verus!
