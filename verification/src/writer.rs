//! The archive writer: appends header, data and padding blocks for each
//! entry to a byte sink, then the two-block end-of-archive marker.
//! All writes are sequential; a writer abandoned before `finish` leaves
//! an invalid archive (no end marker), never a silently finalized one.

use vstd::prelude::*;
use crate::entry::{Entry, EntryModel, entry_error, spec_normalize};
use crate::errors::WriteError;
use crate::header::{encode_header, spec_encode_header, zeros};
use crate::{pad_len, spec_pad_len};

verus! {

/// Bytes one entry contributes to the archive stream: its header block,
/// its `size` data bytes, and NUL padding up to a block boundary.
pub open spec fn entry_stream(m: EntryModel, data: Seq<u8>) -> Seq<u8> {
    spec_encode_header(m) + data + zeros(spec_pad_len(m.size as int) as nat)
}

/// The end-of-archive marker: two all-zero 512-byte blocks.
pub open spec fn end_marker() -> Seq<u8> {
    zeros(1024)
}

/// A sequential archive writer over an exclusively owned byte sink.
pub struct Writer {
    out: Vec<u8>,
    finished: bool,
}

impl Writer {
    /// The bytes written to the sink so far.
    pub closed spec fn bytes(&self) -> Seq<u8> {
        self.out@
    }

    /// Whether the end-of-archive marker has been written.
    pub closed spec fn finished(&self) -> bool {
        self.finished
    }

    /// Opens a writer that appends to `sink`.
    pub fn open(sink: Vec<u8>) -> (w: Writer)
        ensures
            w.bytes() == sink@,
            !w.finished(),
    {
        Writer { out: sink, finished: false }
    }

    /// Appends one entry. The data must have exactly the declared size;
    /// on any error the sink is left unchanged and the error says why.
    pub fn add_entry(&mut self, e: &Entry, data: &Vec<u8>) -> (r: Result<(), WriteError>)
        requires
            !old(self).finished(),
        ensures
            !final(self).finished(),
            match r {
                Ok(_) => entry_error(e@) is None && data@.len() == e@.size && final(self).bytes()
                    == old(self).bytes() + entry_stream(spec_normalize(e@), data@),
                Err(we) => final(self).bytes() == old(self).bytes() && match we {
                    WriteError::Encoding(er) => entry_error(e@) == Some(er),
                    WriteError::SizeMismatch => entry_error(e@) is None && data@.len() != e@.size,
                },
            },
    {
        let mut header = match encode_header(e) {
            Ok(b) => b,
            Err(er) => {
                return Err(WriteError::Encoding(er));
            },
        };
        if !(data.len() as u64 == e.size) {
            return Err(WriteError::SizeMismatch);
        }
        let ghost m = spec_normalize(e@);
        self.out.append(&mut header);
        let ghost base = self.out@;
        let mut i: usize = 0;
        while i < data.len()
            invariant
                i <= data.len(),
                self.out@ =~= base + data@.take(i as int),
                !self.finished,
            decreases data.len() - i,
        {
            self.out.push(data[i]);
            proof {
                assert(base + data@.take(i as int + 1) =~= (base + data@.take(i as int)).push(
                    data@[i as int],
                ));
            }
            i = i + 1;
        }
        proof {
            assert(data@.take(data@.len() as int) =~= data@);
        }
        let ghost base2 = self.out@;
        let pad = pad_len(e.size);
        let mut j: u64 = 0;
        while j < pad
            invariant
                j <= pad,
                self.out@ =~= base2 + zeros(j as nat),
                !self.finished,
            decreases pad - j,
        {
            self.out.push(0u8);
            proof {
                assert(base2 + zeros((j + 1) as nat) =~= (base2 + zeros(j as nat)).push(0u8));
            }
            j = j + 1;
        }
        proof {
            assert(self.out@ =~= old(self).bytes() + entry_stream(m, data@));
        }
        Ok(())
    }

    /// Writes the end-of-archive marker; no further entries are accepted.
    pub fn finish(&mut self)
        requires
            !old(self).finished(),
        ensures
            final(self).finished(),
            final(self).bytes() == old(self).bytes() + end_marker(),
    {
        let ghost base = self.out@;
        let mut j: usize = 0;
        while j < 1024
            invariant
                j <= 1024,
                self.out@ =~= base + zeros(j as nat),
            decreases 1024 - j,
        {
            self.out.push(0u8);
            proof {
                assert(base + zeros((j + 1) as nat) =~= (base + zeros(j as nat)).push(0u8));
            }
            j = j + 1;
        }
        self.finished = true;
    }

    /// Consumes the writer and hands the sink back.
    pub fn into_bytes(self) -> (b: Vec<u8>)
        ensures
            b@ == self.bytes(),
    {
        self.out
    }
}

} // verus!
