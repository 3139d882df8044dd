use vstd::prelude::*;

verus! {

/// The ways in which an operation of this library rejects its input.
#[derive(Clone, Copy, Debug, PartialEq, Eq, Structural)]
pub enum CryptoError {
    /// Two buffers that must have equal length differ in length, or data
    /// handed to a block operation is not a whole number of blocks.
    LengthMismatch,
    /// A byte sequence is not decodable as text.
    InvalidText,
    /// A hexadecimal text has odd length or holds a character that is no
    /// hexadecimal digit.
    InvalidHexDigit,
    /// A Base64 text holds a character outside the standard alphabet.
    InvalidAlphabetChar,
    /// A block cipher key is not exactly sixteen bytes long.
    InvalidKeyLength,
    /// A decrypted buffer is empty, or its last byte asks for more padding
    /// to be removed than the buffer holds.
    InvalidPadding,
    /// The block cipher primitive reported a failure of its own.
    CipherFailure,
}

} // verus!
