use rtar::archive::{decode_archive, decode_archive_gz, encode_archive, encode_archive_gz, ArchiveItem};
use rtar::entry::{Entry, EntryType};
use rtar::errors::{ExtractError, HeaderError, ReadError, WriteError};
use rtar::header::{decode_header, encode_header};
use rtar::reader::Reader;
use rtar::writer::Writer;
use rtar::BLOCK_SIZE;

fn file_entry(path: &str, data: &[u8]) -> ArchiveItem {
    ArchiveItem {
        entry: Entry {
            path: path.as_bytes().to_vec(),
            size: data.len() as u64,
            mode: 0o644,
            mtime: 1_700_000_000,
            entry_type: EntryType::RegularFile,
        },
        data: data.to_vec(),
    }
}

fn dir_entry(path: &str) -> ArchiveItem {
    ArchiveItem {
        entry: Entry {
            path: path.as_bytes().to_vec(),
            size: 0,
            mode: 0o755,
            mtime: 1_700_000_000,
            entry_type: EntryType::Directory,
        },
        data: Vec::new(),
    }
}

fn assert_same_entry(a: &Entry, b: &Entry) {
    assert_eq!(a.path, b.path);
    assert_eq!(a.size, b.size);
    assert_eq!(a.mode, b.mode);
    assert_eq!(a.mtime, b.mtime);
    match (&a.entry_type, &b.entry_type) {
        (EntryType::RegularFile, EntryType::RegularFile) => {}
        (EntryType::Directory, EntryType::Directory) => {}
        (EntryType::Symlink(t1), EntryType::Symlink(t2)) => assert_eq!(t1, t2),
        (EntryType::Other, EntryType::Other) => {}
        _ => panic!("entry types differ"),
    }
}

#[test]
fn round_trip_two_entries() {
    let items = vec![file_entry("a.txt", b"hello"), dir_entry("dir/")];
    let bytes = encode_archive(&items).unwrap();
    let out = decode_archive(bytes).unwrap();
    assert_eq!(out.len(), 2);
    assert_same_entry(&out[0].entry, &items[0].entry);
    assert_same_entry(&out[1].entry, &items[1].entry);
    assert_eq!(out[0].data, b"hello".to_vec());
    assert_eq!(out[1].data, Vec::<u8>::new());
}

#[test]
fn compressed_round_trip_scenario() {
    let items = vec![file_entry("a.txt", b"hello"), dir_entry("dir/")];
    let gz = encode_archive_gz(&items).unwrap();
    assert_eq!(&gz[0..2], &[0x1f, 0x8b]);
    let out = decode_archive_gz(&gz).unwrap();
    assert_eq!(out.len(), 2);
    assert_same_entry(&out[0].entry, &items[0].entry);
    assert_same_entry(&out[1].entry, &items[1].entry);
    assert_eq!(out[0].data, b"hello".to_vec());
}

#[test]
fn corrupt_gzip_is_a_compression_error() {
    let garbage = vec![1u8, 2, 3, 4, 5, 6, 7, 8];
    match decode_archive_gz(&garbage) {
        Err(ExtractError::Compression(_)) => {}
        other => panic!("expected a compression error, got {:?}", other.is_ok()),
    }
}

#[test]
fn checksum_detects_every_single_byte_flip() {
    let item = file_entry("flip.txt", b"payload");
    let block = encode_header(&item.entry).unwrap();
    assert_eq!(block.len(), 512);
    assert!(decode_header(&block).is_ok());
    for i in 0..512 {
        if 148 <= i && i < 156 {
            continue;
        }
        let mut bad = block.clone();
        bad[i] = bad[i] ^ 0xff;
        match decode_header(&bad) {
            Err(HeaderError::ChecksumMismatch) => {}
            other => panic!("flip at {} not caught: {:?}", i, other),
        }
    }
}

#[test]
fn size_mismatch_shorter_and_longer() {
    let mut w = Writer::open(Vec::new());
    let mut item = file_entry("s.txt", b"12345678");
    item.entry.size = 9;
    match w.add_entry(&item.entry, &item.data) {
        Err(WriteError::SizeMismatch) => {}
        other => panic!("short data not rejected: {:?}", other),
    }
    item.entry.size = 7;
    match w.add_entry(&item.entry, &item.data) {
        Err(WriteError::SizeMismatch) => {}
        other => panic!("long data not rejected: {:?}", other),
    }
    item.entry.size = 8;
    assert!(w.add_entry(&item.entry, &item.data).is_ok());
}

#[test]
fn entry_of_size_513_occupies_two_data_blocks() {
    let data = vec![7u8; 513];
    let items = vec![file_entry("p.bin", &data)];
    let bytes = encode_archive(&items).unwrap();
    // one header block, two data blocks (513 bytes + 511 padding), two
    // end-marker blocks
    assert_eq!(bytes.len(), 5 * BLOCK_SIZE);
    for k in 512 + 513..512 + 1024 {
        assert_eq!(bytes[k], 0, "padding byte {} not zero", k);
    }
    assert_eq!(bytes[512 + 512], 7);
}

#[test]
fn auto_skip_yields_third_entry_intact() {
    let items = vec![
        file_entry("one", b"first-data"),
        file_entry("two", b"second-data-to-be-skipped"),
        file_entry("three", b"third-data"),
    ];
    let bytes = encode_archive(&items).unwrap();
    let mut rd = Reader::open(bytes);
    let e1 = rd.next_entry().unwrap().unwrap();
    assert_eq!(e1.path, b"one".to_vec());
    let d1 = rd.read_data(e1.size).unwrap();
    assert_eq!(d1, b"first-data".to_vec());
    let e2 = rd.next_entry().unwrap().unwrap();
    assert_eq!(e2.path, b"two".to_vec());
    // entry two's data is not consumed at all
    let e3 = rd.next_entry().unwrap().unwrap();
    assert_eq!(e3.path, b"three".to_vec());
    let d3 = rd.read_data(e3.size).unwrap();
    assert_eq!(d3, b"third-data".to_vec());
    assert!(rd.next_entry().unwrap().is_none());
}

#[test]
fn single_zero_block_at_eof_is_done() {
    let items = vec![file_entry("a.txt", b"hello")];
    let mut bytes = encode_archive(&items).unwrap();
    // drop the second zero block of the end marker
    bytes.truncate(bytes.len() - 512);
    let out = decode_archive(bytes).unwrap();
    assert_eq!(out.len(), 1);
    assert_eq!(out[0].data, b"hello".to_vec());
}

#[test]
fn missing_end_marker_is_truncated() {
    let items = vec![file_entry("a.txt", b"hello")];
    let mut bytes = encode_archive(&items).unwrap();
    bytes.truncate(bytes.len() - 1024);
    match decode_archive(bytes) {
        Err(ReadError::TruncatedArchive) => {}
        other => panic!("expected truncation, got {:?}", other.is_ok()),
    }
}

#[test]
fn truncated_mid_data_is_truncated() {
    let items = vec![file_entry("a.txt", b"hello")];
    let mut bytes = encode_archive(&items).unwrap();
    bytes.truncate(700);
    match decode_archive(bytes) {
        Err(ReadError::TruncatedArchive) => {}
        other => panic!("expected truncation, got {:?}", other.is_ok()),
    }
}

#[test]
fn reading_past_entry_data_is_end_of_entry() {
    let items = vec![file_entry("a.txt", b"hello")];
    let bytes = encode_archive(&items).unwrap();
    let mut rd = Reader::open(bytes);
    let e = rd.next_entry().unwrap().unwrap();
    match rd.read_data(e.size + 1) {
        Err(ReadError::EndOfEntry) => {}
        other => panic!("expected end of entry, got {:?}", other.is_ok()),
    }
    // the failed read consumed nothing
    let d = rd.read_data(e.size).unwrap();
    assert_eq!(d, b"hello".to_vec());
}

#[test]
fn empty_archive_is_just_the_end_marker() {
    let items: Vec<ArchiveItem> = Vec::new();
    let bytes = encode_archive(&items).unwrap();
    assert_eq!(bytes.len(), 1024);
    assert!(bytes.iter().all(|b| *b == 0));
    let out = decode_archive(bytes).unwrap();
    assert!(out.is_empty());
}

#[test]
fn empty_input_is_truncated_not_done() {
    match decode_archive(Vec::new()) {
        Err(ReadError::TruncatedArchive) => {}
        other => panic!("expected truncation, got {:?}", other.is_ok()),
    }
}

#[test]
fn unmodeled_kind_is_written_as_a_regular_file() {
    let item = ArchiveItem {
        entry: Entry {
            path: b"odd".to_vec(),
            size: 3,
            mode: 0o644,
            mtime: 0,
            entry_type: EntryType::Other,
        },
        data: b"abc".to_vec(),
    };
    let bytes = encode_archive(&vec![item]).unwrap();
    let out = decode_archive(bytes).unwrap();
    assert_eq!(out.len(), 1);
    assert!(matches!(out[0].entry.entry_type, EntryType::RegularFile));
    assert_eq!(out[0].data, b"abc".to_vec());
}

#[test]
fn a_failed_reader_repeats_its_error() {
    let junk = vec![1u8; 600];
    let mut rd = Reader::open(junk);
    let first = rd.next_entry();
    assert!(matches!(first, Err(ReadError::Header(HeaderError::ChecksumMismatch))));
    let second = rd.next_entry();
    assert!(matches!(second, Err(ReadError::Header(HeaderError::ChecksumMismatch))));
}
