//! A streaming tar archive codec: fixed 512-byte header blocks with
//! checksums, octal numeric fields, data-block padding, and an
//! end-of-archive marker, together with a writer, a forward-only reader,
//! and a gzip adapter for compressed streams.

use vstd::prelude::*;

pub mod archive;
pub mod entry;
pub mod errors;
pub mod gzip;
pub mod header;
pub mod octal;
pub mod reader;
pub mod writer;

verus! {

/// Number of bytes in one tar block.
pub const BLOCK_SIZE: usize = 512;

/// Bytes of padding that follow `size` bytes of entry data, so that the
/// data region is a whole number of blocks.
pub open spec fn spec_pad_len(size: int) -> int {
    if size % 512 == 0 {
        0
    } else {
        512 - size % 512
    }
}

/// Padding that follows `size` data bytes, as executable code.
pub fn pad_len(size: u64) -> (r: u64)
    ensures
        r == spec_pad_len(size as int),
        r < 512,
{
    if size % 512 == 0 {
        0
    } else {
        512 - size % 512
    }
}

} // verus!
