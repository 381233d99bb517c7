//! The archive reader: a forward-only, single-pass cursor over a byte
//! source. Each `next_entry` call auto-skips whatever is left of the
//! previous entry's data and padding, validates the next header, and
//! stops cleanly on the end-of-archive marker (or on a single zero block
//! at the very end of the stream, for lax producers).

use vstd::prelude::*;
use crate::entry::{Entry, EntryModel};
use crate::errors::ReadError;
use crate::header::spec_decode_header;
use crate::spec_pad_len;

verus! {

/// True when every byte of `s` is NUL.
pub open spec fn block_zero(s: Seq<u8>) -> bool {
    forall|k: int| 0 <= k < s.len() ==> #[trigger] s[k] == 0
}

/// What the stream holds at offset `pos`: the end of the archive, one
/// entry whose data and padding fit the remaining stream, or a failure.
pub enum HeadStep {
    /// End of archive: a zero block followed by a second zero block, or
    /// a zero block directly at the end of the stream.
    End,
    Fail(ReadError),
    Item(EntryModel),
}

/// Classifies the stream at offset `pos`; this is the reader's whole
/// decision at one step.
pub open spec fn spec_head(s: Seq<u8>, pos: int) -> HeadStep
    recommends
        0 <= pos <= s.len(),
{
    if s.len() - pos < 512 {
        HeadStep::Fail(ReadError::TruncatedArchive)
    } else if block_zero(s.subrange(pos, pos + 512)) {
        if s.len() - pos == 512 {
            HeadStep::End
        } else if s.len() - pos - 512 < 512 {
            HeadStep::Fail(ReadError::TruncatedArchive)
        } else if block_zero(s.subrange(pos + 512, pos + 1024)) {
            HeadStep::End
        } else {
            HeadStep::Fail(ReadError::TruncatedArchive)
        }
    } else {
        match spec_decode_header(s.subrange(pos, pos + 512)) {
            Err(h) => HeadStep::Fail(ReadError::Header(h)),
            Ok(m) => if s.len() - pos - 512 < m.size + spec_pad_len(m.size as int) {
                HeadStep::Fail(ReadError::TruncatedArchive)
            } else {
                HeadStep::Item(m)
            },
        }
    }
}

/// One parsed archive member: its metadata and its payload bytes.
#[verifier::ext_equal]
pub struct ItemModel {
    pub entry: EntryModel,
    pub data: Seq<u8>,
}

/// The entries stored in `s` from offset `pos` on, or the first failure.
pub open spec fn spec_parse_from(s: Seq<u8>, pos: int) -> Result<Seq<ItemModel>, ReadError>
    recommends
        0 <= pos <= s.len(),
    decreases s.len() - pos
        when 0 <= pos <= s.len()
{
    match spec_head(s, pos) {
        HeadStep::End => Ok(Seq::empty()),
        HeadStep::Fail(e) => Err(e),
        HeadStep::Item(m) => {
            let data = s.subrange(pos + 512, pos + 512 + m.size);
            match spec_parse_from(s, pos + 512 + m.size + spec_pad_len(m.size as int)) {
                Ok(rest) => Ok(seq![ItemModel { entry: m, data }] + rest),
                Err(e) => Err(e),
            }
        },
    }
}

/// Where the reader stands.
#[derive(Clone, Copy)]
pub enum ReaderState {
    /// Entries may still follow.
    Active,
    /// The end-of-archive marker was seen; terminal.
    Done,
    /// A validation failure was seen; terminal.
    Failed(ReadError),
}

/// A forward-only archive reader owning its byte source.
pub struct Reader {
    src: Vec<u8>,
    pos: usize,
    remaining: u64,
    pad: u64,
    state: ReaderState,
}

impl Reader {
    /// The byte source.
    pub closed spec fn source(&self) -> Seq<u8> {
        self.src@
    }

    /// The read cursor: entry data is served from here.
    pub closed spec fn position(&self) -> int {
        self.pos as int
    }

    /// Unread data bytes of the current entry.
    pub closed spec fn remaining_data(&self) -> int {
        self.remaining as int
    }

    /// Padding bytes that follow the current entry's data.
    pub closed spec fn padding(&self) -> int {
        self.pad as int
    }

    pub closed spec fn state(&self) -> ReaderState {
        self.state
    }

    /// The offset where header parsing resumes: past whatever is unread
    /// of the current entry and its padding.
    pub open spec fn resume_at(&self) -> int {
        self.position() + self.remaining_data() + self.padding()
    }

    /// The cursor never runs past the source.
    pub open spec fn wf(&self) -> bool {
        &&& self.position() + self.remaining_data() + self.padding() <= self.source().len()
        &&& self.position() >= 0
        &&& self.remaining_data() >= 0
        &&& self.padding() < 512
        &&& self.padding() >= 0
    }

    /// Opens a reader at the start of `source`.
    pub fn open(source: Vec<u8>) -> (r: Reader)
        ensures
            r.wf(),
            r.source() == source@,
            r.position() == 0,
            r.remaining_data() == 0,
            r.padding() == 0,
            r.state() is Active,
    {
        Reader { src: source, pos: 0, remaining: 0, pad: 0, state: ReaderState::Active }
    }

    /// Advances to the next entry, skipping anything unread of the
    /// current one. Yields `None` at the end-of-archive marker; every
    /// failure is terminal and is repeated on later calls.
    pub fn next_entry(&mut self) -> (r: Result<Option<Entry>, ReadError>)
        requires
            old(self).wf(),
        ensures
            final(self).wf(),
            final(self).source() == old(self).source(),
            match old(self).state() {
                ReaderState::Done => r == Ok::<Option<Entry>, ReadError>(None) && final(self).state() is Done,
                ReaderState::Failed(e0) => r == Err::<Option<Entry>, ReadError>(e0) && final(self).state() == ReaderState::Failed(e0),
                ReaderState::Active => {
                    let p = old(self).resume_at();
                    match spec_head(old(self).source(), p) {
                        HeadStep::End => r == Ok::<Option<Entry>, ReadError>(None) && final(self).state() is Done,
                        HeadStep::Fail(e1) => r == Err::<Option<Entry>, ReadError>(e1) && final(self).state() == ReaderState::Failed(e1),
                        HeadStep::Item(m) => {
                            &&& match r {
                                Ok(o) => match o {
                                    Some(en) => en@ == m,
                                    None => false,
                                },
                                _ => false,
                            }
                            &&& final(self).state() is Active
                            &&& final(self).position() == p + 512
                            &&& final(self).remaining_data() == m.size
                            &&& final(self).padding() == spec_pad_len(m.size as int)
                        },
                    }
                },
            },
    {
        match self.state {
            ReaderState::Done => {
                return Ok(None);
            },
            ReaderState::Failed(e0) => {
                return Err(e0);
            },
            ReaderState::Active => {},
        }
        proof {
            assert(self.src@.len() == self.src.len());
        }
        let p_wide: u64 = self.pos as u64 + self.remaining + self.pad;
        proof {
            assert(p_wide <= self.src@.len());
        }
        let p = p_wide as usize;
        self.pos = p;
        self.remaining = 0;
        self.pad = 0;
        let len = self.src.len();
        if len - p < 512 {
            self.state = ReaderState::Failed(ReadError::TruncatedArchive);
            return Err(ReadError::TruncatedArchive);
        }
        if is_zero_block(&self.src, p) {
            if len - p == 512 {
                self.state = ReaderState::Done;
                return Ok(None);
            }
            if len - p - 512 < 512 {
                self.state = ReaderState::Failed(ReadError::TruncatedArchive);
                return Err(ReadError::TruncatedArchive);
            }
            if is_zero_block(&self.src, p + 512) {
                self.state = ReaderState::Done;
                return Ok(None);
            }
            self.state = ReaderState::Failed(ReadError::TruncatedArchive);
            return Err(ReadError::TruncatedArchive);
        }
        let block = copy_block(&self.src, p);
        match crate::header::decode_header(&block) {
            Err(h) => {
                self.state = ReaderState::Failed(ReadError::Header(h));
                Err(ReadError::Header(h))
            },
            Ok(en) => {
                let avail: u64 = (len - p - 512) as u64;
                let pd = crate::pad_len(en.size);
                if en.size > avail || pd > avail - en.size {
                    self.state = ReaderState::Failed(ReadError::TruncatedArchive);
                    return Err(ReadError::TruncatedArchive);
                }
                self.pos = p + 512;
                self.remaining = en.size;
                self.pad = pd;
                Ok(Some(en))
            },
        }
    }

    /// Reads `n` bytes of the current entry's data; asking for more than
    /// is left fails with `EndOfEntry` and consumes nothing.
    pub fn read_data(&mut self, n: u64) -> (r: Result<Vec<u8>, ReadError>)
        requires
            old(self).wf(),
        ensures
            final(self).wf(),
            final(self).source() == old(self).source(),
            match old(self).state() {
                ReaderState::Done => r == Err::<Vec<u8>, ReadError>(ReadError::EndOfEntry) && *final(self) == *old(self),
                ReaderState::Failed(e0) => r == Err::<Vec<u8>, ReadError>(e0) && *final(self) == *old(self),
                ReaderState::Active => if n > old(self).remaining_data() {
                    r == Err::<Vec<u8>, ReadError>(ReadError::EndOfEntry) && *final(self) == *old(self)
                } else {
                    match r {
                        Ok(d) => {
                            &&& d@ == old(self).source().subrange(
                                old(self).position(),
                                old(self).position() + n,
                            )
                            &&& final(self).state() is Active
                            &&& final(self).position() == old(self).position() + n
                            &&& final(self).remaining_data() == old(self).remaining_data() - n
                            &&& final(self).padding() == old(self).padding()
                        },
                        _ => false,
                    }
                },
            },
    {
        match self.state {
            ReaderState::Done => {
                return Err(ReadError::EndOfEntry);
            },
            ReaderState::Failed(e0) => {
                return Err(e0);
            },
            ReaderState::Active => {},
        }
        if n > self.remaining {
            return Err(ReadError::EndOfEntry);
        }
        proof {
            assert(self.src@.len() == self.src.len());
        }
        let count = n as usize;
        let mut out: Vec<u8> = Vec::new();
        let mut i: usize = 0;
        while i < count
            invariant
                i <= count,
                self.pos + count <= self.src@.len(),
                self.src@.len() <= usize::MAX,
                out@.len() == i,
                forall|k: int| 0 <= k < i ==> out@[k] == self.src@[self.pos + k],
            decreases count - i,
        {
            out.push(self.src[self.pos + i]);
            i = i + 1;
        }
        proof {
            assert(out@ =~= self.src@.subrange(self.pos as int, self.pos + count));
        }
        self.pos = self.pos + count;
        self.remaining = self.remaining - n;
        Ok(out)
    }
}

/// True when the 512 bytes at `pos` are all NUL.
fn is_zero_block(src: &Vec<u8>, pos: usize) -> (r: bool)
    requires
        pos + 512 <= src.len(),
    ensures
        r == block_zero(src@.subrange(pos as int, pos + 512)),
{
    let ghost f = src@.subrange(pos as int, pos + 512);
    let mut i: usize = 0;
    while i < 512
        invariant
            i <= 512,
            pos + 512 <= src.len(),
            f == src@.subrange(pos as int, pos + 512),
            forall|k: int| 0 <= k < i ==> #[trigger] f[k] == 0,
        decreases 512 - i,
    {
        if src[pos + i] != 0 {
            proof {
                assert(f[i as int] == src@[pos + i]);
            }
            return false;
        }
        proof {
            assert(f[i as int] == src@[pos + i]);
        }
        i = i + 1;
    }
    true
}

/// Copies the 512-byte block at `pos` out of the source.
fn copy_block(src: &Vec<u8>, pos: usize) -> (r: Vec<u8>)
    requires
        pos + 512 <= src.len(),
    ensures
        r@.len() == 512,
        r@ == src@.subrange(pos as int, pos + 512),
{
    let mut out: Vec<u8> = Vec::new();
    let mut i: usize = 0;
    while i < 512
        invariant
            i <= 512,
            pos + 512 <= src.len(),
            out@.len() == i,
            forall|k: int| 0 <= k < i ==> out@[k] == src@[pos + k],
        decreases 512 - i,
    {
        out.push(src[pos + i]);
        i = i + 1;
    }
    proof {
        assert(out@ =~= src@.subrange(pos as int, pos + 512));
    }
    out
}

} // verus!
