//! The failures that end an encode or a decode.

use vstd::prelude::*;

verus! {

/// Why a payload cannot be encoded.
#[derive(Clone, Copy, Debug, PartialEq, Eq, Structural)]
pub enum EncodeError {
    /// The file name is longer than the 200 bytes that the header holds.
    NameTooLong,
    /// The palette has neither 2 nor 4 colours.
    InvalidPalette,
    /// The number of error-correction bytes per block is not between 1 and 126.
    InvalidEccBytes,
    /// The frame has too few pixels for the header, or more than can be addressed.
    InvalidFrameSize,
}

/// Why a sequence of frames cannot be decoded.
#[derive(Clone, Copy, Debug, PartialEq, Eq, Structural)]
pub enum DecodeError {
    /// The header block holds more errors than its suffix can correct.
    MetadataUnrecoverable,
    /// The header was written by another version of the format.
    VersionMismatch { found: u16 },
    /// The header names a palette size or a suffix length that the format lacks.
    MalformedHeader,
    /// The header announces a payload too large for this machine's memory.
    PayloadTooLarge,
}

} // verus!
