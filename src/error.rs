//! The errors of encoding and decoding.
use vstd::prelude::*;

verus! {

/// Why an encode or a decode failed.
#[derive(PartialEq, Eq, Structural, Debug, Clone, Copy)]
pub enum QresError {
    /// A run-length record ends before its four bytes.
    TruncatedRunRecord,
    /// The zlib compressor reported a failure; compressing into memory never
    /// does, so no function of this library returns it.
    Compression,
    /// The zlib decompressor rejected a chunk.
    Decompression,
    /// The compressed sizes add up to more than 64 bits hold.
    SizeOverflow,
    /// The serialized header does not fit the four-byte length prefix.
    HeaderTooLarge,
    /// The header could not be serialized; bincode always serializes it, so
    /// no function of this library returns it.
    HeaderEncoding,
    /// The container is shorter than its four-byte length prefix.
    MissingLengthPrefix,
    /// The declared header length runs past the end of the container.
    HeaderOverrun,
    /// The header bytes do not deserialize.
    BadHeader,
    /// The declared chunk sizes run past the end of the container.
    ChunkOverrun,
    /// The decoded size differs from the size the header records.
    SizeMismatch,
}

} // verus!
