//! Whole archives: encoding an ordered list of entries into one byte
//! stream and decoding it back, over raw or gzip-compressed streams,
//! with the archive-level round-trip proof.

use vstd::prelude::*;
use crate::entry::{
    Entry, EntryModel, entry_error, is_normalized, spec_normalize, valid_model,
};
use crate::errors::{CompressionError, ExtractError, ReadError, WriteError};
use crate::header::{lemma_header_round_trip, spec_decode_header, spec_encode_header, zeros};
use crate::reader::{block_zero, HeadStep, ItemModel, Reader, spec_head, spec_parse_from};
use crate::writer::{end_marker, entry_stream, Writer};
use crate::gzip::gunzip_of;
use crate::spec_pad_len;

verus! {

/// One archive member handed to or produced by whole-archive calls.
pub struct ArchiveItem {
    pub entry: Entry,
    pub data: Vec<u8>,
}

impl View for ArchiveItem {
    type V = ItemModel;

    open spec fn view(&self) -> ItemModel {
        ItemModel { entry: self.entry@, data: self.data@ }
    }
}

/// The models of a list of items.
pub open spec fn views_of(items: Seq<ArchiveItem>) -> Seq<ItemModel> {
    items.map_values(|it: ArchiveItem| it@)
}

/// Why an item would be rejected by the writer, or `None`.
pub open spec fn item_error(m: ItemModel) -> Option<WriteError> {
    match entry_error(m.entry) {
        Some(er) => Some(WriteError::Encoding(er)),
        None => if m.data.len() != m.entry.size {
            Some(WriteError::SizeMismatch)
        } else {
            None
        },
    }
}

/// What encoding a list of items yields: the concatenated entry streams
/// and the end marker, or the first item's error, in order.
pub open spec fn spec_build(items: Seq<ItemModel>) -> Result<Seq<u8>, WriteError>
    decreases items.len(),
{
    if items.len() == 0 {
        Ok(end_marker())
    } else {
        match item_error(items[0]) {
            Some(we) => Err(we),
            None => match spec_build(items.drop_first()) {
                Ok(rest) => Ok(
                    entry_stream(spec_normalize(items[0].entry), items[0].data) + rest,
                ),
                Err(we) => Err(we),
            },
        }
    }
}

/// Encodes the items into one archive byte stream, ending with the
/// two-block end-of-archive marker.
pub fn encode_archive(items: &Vec<ArchiveItem>) -> (r: Result<Vec<u8>, WriteError>)
    ensures
        match r {
            Ok(b) => spec_build(views_of(items@)) == Ok::<Seq<u8>, WriteError>(b@),
            Err(we) => spec_build(views_of(items@)) == Err::<Seq<u8>, WriteError>(we),
        },
{
    let ghost ms = views_of(items@);
    let mut w = Writer::open(Vec::new());
    let mut i: usize = 0;
    proof {
        assert(ms.skip(0) =~= ms);
        assert(w.bytes() =~= Seq::<u8>::empty());
        if spec_build(ms) is Ok {
            assert(Seq::<u8>::empty() + spec_build(ms)->Ok_0 =~= spec_build(ms)->Ok_0);
        }
    }
    while i < items.len()
        invariant
            i <= items.len(),
            ms == views_of(items@),
            !w.finished(),
            spec_build(ms) == (match spec_build(ms.skip(i as int)) {
                Ok(rest) => Ok::<Seq<u8>, WriteError>(w.bytes() + rest),
                Err(we) => Err::<Seq<u8>, WriteError>(we),
            }),
        decreases items.len() - i,
    {
        let ghost tail = ms.skip(i as int);
        let ghost wb0 = w.bytes();
        proof {
            assert(ms.len() == items@.len());
            assert(tail[0] == ms[i as int]);
            assert(ms[i as int] == items@[i as int]@);
            assert(tail.drop_first() =~= ms.skip(i as int + 1));
        }
        match w.add_entry(&items[i].entry, &items[i].data) {
            Ok(_) => {
                proof {
                    assert(item_error(tail[0]) is None);
                    let stream = entry_stream(spec_normalize(tail[0].entry), tail[0].data);
                    assert(w.bytes() == wb0 + stream);
                    assert(spec_build(tail) == (match spec_build(ms.skip(i as int + 1)) {
                        Ok(rest) => Ok::<Seq<u8>, WriteError>(stream + rest),
                        Err(we) => Err::<Seq<u8>, WriteError>(we),
                    }));
                    if spec_build(ms.skip(i as int + 1)) is Ok {
                        let rest = spec_build(ms.skip(i as int + 1))->Ok_0;
                        assert(wb0 + (stream + rest) =~= (wb0 + stream) + rest);
                    }
                }
            },
            Err(we) => {
                proof {
                    assert(item_error(tail[0]) == Some(we));
                    assert(spec_build(tail) == Err::<Seq<u8>, WriteError>(we));
                }
                return Err(we);
            },
        }
        i = i + 1;
    }
    proof {
        assert(ms.skip(items@.len() as int) =~= Seq::<ItemModel>::empty());
        assert(spec_build(ms.skip(items@.len() as int)) == Ok::<Seq<u8>, WriteError>(end_marker()));
    }
    w.finish();
    let out = w.into_bytes();
    Ok(out)
}

/// Decodes a whole archive byte stream into its ordered list of entries
/// and payloads: exactly what `spec_parse_from` says, including each
/// failure.
pub fn decode_archive(source: Vec<u8>) -> (r: Result<Vec<ArchiveItem>, ReadError>)
    ensures
        match r {
            Ok(items) => spec_parse_from(source@, 0) == Ok::<Seq<ItemModel>, ReadError>(
                views_of(items@),
            ),
            Err(e) => spec_parse_from(source@, 0) == Err::<Seq<ItemModel>, ReadError>(e),
        },
{
    let ghost src = source@;
    let mut rd = Reader::open(source);
    let mut items: Vec<ArchiveItem> = Vec::new();
    proof {
        assert(views_of(items@) =~= Seq::<ItemModel>::empty());
        if spec_parse_from(src, 0) is Ok {
            assert(Seq::<ItemModel>::empty() + spec_parse_from(src, 0)->Ok_0 =~= spec_parse_from(
                src,
                0,
            )->Ok_0);
        }
    }
    loop
        invariant
            src == source@,
            rd.wf(),
            rd.source() == src,
            rd.state() is Active,
            rd.remaining_data() == 0,
            0 <= rd.resume_at() <= src.len(),
            spec_parse_from(src, 0) == (match spec_parse_from(src, rd.resume_at()) {
                Ok(t) => Ok::<Seq<ItemModel>, ReadError>(views_of(items@) + t),
                Err(e) => Err::<Seq<ItemModel>, ReadError>(e),
            }),
        decreases src.len() - rd.resume_at(),
    {
        let ghost p = rd.resume_at();
        let ghost items0 = items@;
        match rd.next_entry() {
            Err(e) => {
                proof {
                    assert(spec_parse_from(src, p) == Err::<Seq<ItemModel>, ReadError>(e));
                }
                return Err(e);
            },
            Ok(None) => {
                proof {
                    assert(spec_parse_from(src, p) == Ok::<Seq<ItemModel>, ReadError>(
                        Seq::empty(),
                    ));
                    assert(views_of(items@) + Seq::<ItemModel>::empty() =~= views_of(items@));
                }
                return Ok(items);
            },
            Ok(Some(en)) => {
                let ghost m = spec_head(src, p)->Item_0;
                let size = en.size;
                match rd.read_data(size) {
                    Err(_) => {
                        proof {
                            assert(false);
                        }
                        return Err(ReadError::TruncatedArchive);
                    },
                    Ok(data) => {
                        proof {
                            assert(data@ == src.subrange(p + 512, p + 512 + m.size));
                        }
                        items.push(ArchiveItem { entry: en, data });
                        proof {
                            let it = ItemModel {
                                entry: m,
                                data: src.subrange(p + 512, p + 512 + m.size),
                            };
                            assert forall|j: int|
                                0 <= j < items@.len() implies views_of(items@)[j] == views_of(
                                items0,
                            ).push(it)[j] by {
                                if j < items0.len() {
                                    assert(items@[j] == items0[j]);
                                } else {
                                    assert(items@[j]@ =~= it);
                                }
                            }
                            assert(views_of(items@) =~= views_of(items0).push(it));
                            let p2 = p + 512 + m.size + spec_pad_len(m.size as int);
                            assert(rd.resume_at() == p2);
                            assert(spec_parse_from(src, p) == (match spec_parse_from(src, p2) {
                                Ok(rest) => Ok::<Seq<ItemModel>, ReadError>(seq![it] + rest),
                                Err(e2) => Err::<Seq<ItemModel>, ReadError>(e2),
                            }));
                            if spec_parse_from(src, p2) is Ok {
                                let t2 = spec_parse_from(src, p2)->Ok_0;
                                assert(views_of(items0) + (seq![it] + t2) =~= views_of(items@)
                                    + t2);
                            }
                        }
                    },
                }
            },
        }
    }
}

/// True of items the round-trip law speaks of: a valid, already
/// normalized entry of a modeled kind, with data of exactly its size.
pub open spec fn item_round_trippable(m: ItemModel) -> bool {
    &&& valid_model(m.entry)
    &&& is_normalized(m.entry)
    &&& !(m.entry.entry_type is Other)
    &&& m.data.len() == m.entry.size
}

/// The archive stream of round-trippable items: their entry streams in
/// order, then the end marker.
pub open spec fn spec_stream_of(items: Seq<ItemModel>) -> Seq<u8>
    decreases items.len(),
{
    if items.len() == 0 {
        end_marker()
    } else {
        entry_stream(items[0].entry, items[0].data) + spec_stream_of(items.drop_first())
    }
}

/// The head step only looks at the stream from its offset on, so it is
/// unchanged under any prefix.
pub proof fn lemma_head_shift(a: Seq<u8>, b: Seq<u8>, k: int)
    requires
        0 <= k <= b.len(),
    ensures
        spec_head(a + b, a.len() + k) == spec_head(b, k),
{
    let s = a + b;
    let p = a.len() + k;
    assert(s.len() - p == b.len() - k);
    if b.len() - k >= 512 {
        assert(s.subrange(p, p + 512) =~= b.subrange(k, k + 512));
        if block_zero(b.subrange(k, k + 512)) {
            if b.len() - k > 512 && b.len() - k - 512 >= 512 {
                assert(s.subrange(p + 512, p + 1024) =~= b.subrange(k + 512, k + 1024));
            }
        }
    }
}

/// Parsing only looks at the stream from its offset on, so it is
/// unchanged under any prefix.
pub proof fn lemma_parse_shift(a: Seq<u8>, b: Seq<u8>, k: int)
    requires
        0 <= k <= b.len(),
    ensures
        spec_parse_from(a + b, a.len() + k) == spec_parse_from(b, k),
    decreases b.len() - k,
{
    lemma_head_shift(a, b, k);
    let s = a + b;
    let p = a.len() + k;
    match spec_head(b, k) {
        HeadStep::End => {},
        HeadStep::Fail(_) => {},
        HeadStep::Item(m) => {
            assert(s.subrange(p + 512, p + 512 + m.size) =~= b.subrange(
                k + 512,
                k + 512 + m.size,
            ));
            let k2 = k + 512 + m.size + spec_pad_len(m.size as int);
            assert(0 <= k2 <= b.len());
            lemma_parse_shift(a, b, k2);
            assert(p + 512 + m.size + spec_pad_len(m.size as int) == a.len() + k2);
        },
    }
}

/// A valid item list builds without error, into exactly its stream.
pub proof fn lemma_build_of_valid(items: Seq<ItemModel>)
    requires
        forall|j: int| 0 <= j < items.len() ==> item_round_trippable(#[trigger] items[j]),
    ensures
        spec_build(items) == Ok::<Seq<u8>, WriteError>(spec_stream_of(items)),
    decreases items.len(),
{
    if items.len() > 0 {
        let m0 = items[0];
        assert(item_round_trippable(m0));
        assert(spec_normalize(m0.entry) == m0.entry);
        assert(item_error(m0) is None);
        let rest = items.drop_first();
        assert forall|j: int| 0 <= j < rest.len() implies item_round_trippable(
            #[trigger] rest[j],
        ) by {
            assert(rest[j] == items[j + 1]);
        }
        lemma_build_of_valid(rest);
    }
}

/// Round trip of a whole archive: the encoded stream of any list of
/// valid, normalized entries of modeled kinds, each with data of exactly
/// its size, decodes back to the same list, metadata and data bytes
/// identical.
#[verifier::rlimit(100)]
pub proof fn lemma_archive_round_trip(items: Seq<ItemModel>)
    requires
        forall|j: int| 0 <= j < items.len() ==> item_round_trippable(#[trigger] items[j]),
    ensures
        spec_build(items) == Ok::<Seq<u8>, WriteError>(spec_stream_of(items)),
        spec_parse_from(spec_stream_of(items), 0) == Ok::<Seq<ItemModel>, ReadError>(items),
    decreases items.len(),
{
    lemma_build_of_valid(items);
    let s = spec_stream_of(items);
    if items.len() == 0 {
        assert(s == end_marker());
        assert(s.len() == 1024);
        assert(block_zero(s.subrange(0, 512))) by {
            assert forall|j: int| 0 <= j < 512 implies #[trigger] s.subrange(0, 512)[j] == 0 by {
                assert(s.subrange(0, 512)[j] == zeros(1024)[j]);
            }
        }
        assert(block_zero(s.subrange(512, 1024))) by {
            assert forall|j: int| 0 <= j < 512 implies #[trigger] s.subrange(512, 1024)[j]
                == 0 by {
                assert(s.subrange(512, 1024)[j] == zeros(1024)[512 + j]);
            }
        }
        assert(spec_head(s, 0) == HeadStep::End);
        assert(items =~= Seq::<ItemModel>::empty());
    } else {
        let m0 = items[0];
        assert(item_round_trippable(m0));
        let e0 = m0.entry;
        let h = spec_encode_header(e0);
        let stream0 = entry_stream(e0, m0.data);
        let rest = items.drop_first();
        let tail = spec_stream_of(rest);
        assert(s == stream0 + tail);
        let size = e0.size as int;
        let pad = spec_pad_len(size);
        assert(h.len() == 512);
        assert(stream0.len() == 512 + size + pad);
        assert(s.subrange(0, 512) =~= h) by {
            assert forall|j: int| 0 <= j < 512 implies s.subrange(0, 512)[j] == h[j] by {
                assert(s[j] == stream0[j]);
                assert(stream0[j] == h[j]);
            }
        }
        assert(h[257] == 117u8);
        assert(!block_zero(s.subrange(0, 512))) by {
            assert(s.subrange(0, 512)[257] == 117u8);
        }
        lemma_header_round_trip(e0);
        assert(spec_decode_header(s.subrange(0, 512)) == Ok::<EntryModel, crate::errors::HeaderError>(e0));
        assert(s.len() - 512 >= size + pad);
        assert(spec_head(s, 0) == HeadStep::Item(e0));
        assert(s.subrange(512, 512 + size) =~= m0.data) by {
            assert forall|j: int| 0 <= j < size implies s.subrange(512, 512 + size)[j]
                == m0.data[j] by {
                assert(s[512 + j] == stream0[512 + j]);
                assert(stream0[512 + j] == (m0.data + zeros(pad as nat))[j]);
            }
        }
        assert forall|j: int| 0 <= j < rest.len() implies item_round_trippable(
            #[trigger] rest[j],
        ) by {
            assert(rest[j] == items[j + 1]);
        }
        lemma_archive_round_trip(rest);
        lemma_parse_shift(stream0, tail, 0);
        assert(tail.skip(0) =~= tail);
        assert(spec_parse_from(s, stream0.len() as int) == spec_parse_from(tail, 0));
        assert(512 + size + pad == stream0.len() as int);
        assert(spec_parse_from(s, 0) == Ok::<Seq<ItemModel>, ReadError>(
            seq![ItemModel { entry: e0, data: s.subrange(512, 512 + size) }] + rest,
        ));
        assert(seq![m0] + rest =~= items);
    }
}

/// Encodes the items and wraps the archive stream in gzip.
pub fn encode_archive_gz(items: &Vec<ArchiveItem>) -> (r: Result<Vec<u8>, WriteError>)
    ensures
        match r {
            Ok(b) => spec_build(views_of(items@)) is Ok && gunzip_of(b@) == Some(
                spec_build(views_of(items@))->Ok_0,
            ),
            Err(we) => spec_build(views_of(items@)) == Err::<Seq<u8>, WriteError>(we),
        },
{
    match encode_archive(items) {
        Ok(raw) => Ok(crate::gzip::compress(&raw)),
        Err(we) => Err(we),
    }
}

/// Decompresses and decodes a compressed archive; compression faults and
/// archive-format faults stay distinct.
pub fn decode_archive_gz(data: &Vec<u8>) -> (r: Result<Vec<ArchiveItem>, ExtractError>)
    ensures
        match r {
            Ok(items) => gunzip_of(data@) is Some && spec_parse_from(gunzip_of(data@)->Some_0, 0)
                == Ok::<Seq<ItemModel>, ReadError>(views_of(items@)),
            Err(ex) => match ex {
                ExtractError::Compression(c) => gunzip_of(data@) is None && c
                    == CompressionError::CorruptStream,
                ExtractError::Archive(e) => gunzip_of(data@) is Some && spec_parse_from(
                    gunzip_of(data@)->Some_0,
                    0,
                ) == Err::<Seq<ItemModel>, ReadError>(e),
            },
        },
{
    let raw = match crate::gzip::decompress(data) {
        Ok(d) => d,
        Err(c) => {
            return Err(ExtractError::Compression(c));
        },
    };
    match decode_archive(raw) {
        Ok(items) => Ok(items),
        Err(e) => Err(ExtractError::Archive(e)),
    }
}

} // verus!
