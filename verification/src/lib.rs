//! A bit-addressable immutable buffer: packed binary data with a bit offset
//! and a bit length that need not fall on byte boundaries.

pub mod bitmath;
pub mod bits;
pub mod laws;
pub mod radix;

use vstd::prelude::*;

verus! {

/// The errors that buffer operations can raise.
#[derive(Debug, PartialEq, Eq)]
pub enum BitsError {
    /// A bit index or bit range exceeds the available bit length.
    OutOfBounds(u64, u64),
    /// A binary or octal source string contains a character outside its alphabet.
    InvalidCharacter(char),
    /// A radix conversion was attempted on an unsuitable bit length.
    InvalidLength(u64),
    /// A hexadecimal source string contains a non-hex-digit character,
    /// reported with its character position.
    HexDecodeError(char, u64),
    /// A bitwise operation was attempted between buffers of different lengths.
    LengthMismatch(u64, u64),
}

} // verus!
