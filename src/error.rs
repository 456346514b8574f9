use vstd::prelude::*;

verus! {

/// Every structural failure that aborts the decoding of an archive.
#[derive(Clone, Copy, Debug, PartialEq, Eq, Structural)]
pub enum DecodeError {
    /// The input holds no `AsciiCoder.DecodeFiles` marker.
    MarkerNotFound,
    /// The input ended before the manifest's `~` terminator.
    ManifestUnterminated,
    /// An armored unit ended on a byte that is neither alphabet nor sentinel.
    ArmorAlphabetError,
    /// A sentinel disagreed with the leftover bit count, or the input ended
    /// before any terminator.
    ArmorTerminatorMismatch,
    /// A signed varint ran past 32 bits of shift.
    VarintOverflow,
    /// The input ended inside a signed varint.
    VarintTruncated,
    /// The decompressed length read from the payload is negative.
    NegativeLength,
    /// The bit-stream ended before the announced number of bytes was produced.
    DecompressionTruncated,
}

} // verus!
