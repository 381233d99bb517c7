//! Typed errors: every failure of the codec is surfaced to the caller as
//! one of these, so that archive-format faults, size faults and
//! compression faults stay distinguishable.

use vstd::prelude::*;

verus! {

/// An entry cannot be represented in a ustar header.
#[derive(Clone, Copy, Debug, PartialEq, Eq, Structural)]
pub enum EncodingError {
    /// The entry breaks a structural invariant: empty path, a NUL byte in
    /// the path or link target, or a nonzero size on a directory or symlink.
    InvalidEntry,
    /// The (normalized) path does not fit the name field.
    PathTooLong,
    /// A symlink target does not fit the linkname field.
    LinkTargetTooLong,
    /// The mode or mtime does not fit its fixed-width octal field.
    FieldTooLarge,
}

/// A 512-byte header block could not be decoded.
#[derive(Clone, Copy, Debug, PartialEq, Eq, Structural)]
pub enum HeaderError {
    /// The stored checksum disagrees with the sum of the header bytes.
    ChecksumMismatch,
    /// A numeric field holds something other than octal digits with
    /// NUL or space padding (or a representable base-256 size).
    MalformedNumericField,
}

/// A failure while adding entries to an archive.
#[derive(Clone, Copy, Debug, PartialEq, Eq, Structural)]
pub enum WriteError {
    /// The data handed over does not have exactly the declared size.
    SizeMismatch,
    /// The entry's header cannot be encoded.
    Encoding(EncodingError),
}

/// A failure while reading an archive.
#[derive(Clone, Copy, Debug, PartialEq, Eq, Structural)]
pub enum ReadError {
    /// The stream ends before the current header, its data, or the
    /// end-of-archive marker is complete.
    TruncatedArchive,
    /// More bytes were requested from an entry than it holds.
    EndOfEntry,
    /// A header block failed validation.
    Header(HeaderError),
}

/// A failure of the compressed outer framing, distinct from every
/// archive-format error.
#[derive(Clone, Copy, Debug, PartialEq, Eq, Structural)]
pub enum CompressionError {
    /// The bytes are not a well-formed compressed stream.
    CorruptStream,
}

/// A failure while reading a compressed archive: either the outer
/// compressed framing is corrupt, or the inner archive is.
#[derive(Clone, Copy, Debug, PartialEq, Eq, Structural)]
pub enum ExtractError {
    Compression(CompressionError),
    Archive(ReadError),
}

} // verus!
