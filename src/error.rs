use vstd::prelude::*;

verus! {

/// The failures that the codec, the mask generation function, OAEP and the
/// RSA primitives report.
#[derive(Debug, Clone, Copy, PartialEq, Eq, Structural)]
pub enum RsaError {
    /// The message exceeds what one block can carry for the key and hash.
    MessageTooLong,
    /// An integer does not fit in the requested number of octets.
    IntegerTooLarge,
    /// An integer handed to a primitive is not below the modulus.
    MessageRepresentativeOutOfRange,
    /// Any failure while unpacking an encoded message.
    DecodingError,
    /// A mask longer than the mask generation function can produce.
    MaskTooLong,
    /// The random source could not supply a seed.
    RandomnessUnavailable,
}

} // verus!
