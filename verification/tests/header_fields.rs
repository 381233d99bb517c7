use rtar::entry::{Entry, EntryType};
use rtar::errors::{EncodingError, HeaderError};
use rtar::header::{decode_header, encode_header};

fn plain_entry(path: &str, size: u64, entry_type: EntryType) -> Entry {
    Entry { path: path.as_bytes().to_vec(), size, mode: 0o644, mtime: 1_700_000_000, entry_type }
}

/// Computes the stored checksum of a hand-crafted block, as a producer would.
fn fix_checksum(block: &mut Vec<u8>) {
    for k in 148..156 {
        block[k] = b' ';
    }
    let sum: u32 = block.iter().map(|b| *b as u32).sum();
    let digits = format!("{:06o}", sum);
    let db = digits.as_bytes();
    for k in 0..6 {
        block[148 + k] = db[k];
    }
    block[154] = 0;
    block[155] = b' ';
}

#[test]
fn octal_fields_have_the_ustar_layout() {
    let e = plain_entry("a.txt", 5, EntryType::RegularFile);
    let block = encode_header(&e).unwrap();
    assert_eq!(&block[0..5], b"a.txt");
    assert_eq!(block[5], 0);
    assert_eq!(&block[100..108], b"0000644\0");
    assert_eq!(&block[124..136], b"00000000005\0");
    assert_eq!(&block[136..148], b"14524770400\0");
    assert_eq!(block[156], b'0');
    assert_eq!(&block[257..263], b"ustar\0");
    assert_eq!(&block[263..265], b"00");
}

#[test]
fn directory_path_is_normalized_with_a_slash() {
    let e = plain_entry("somedir", 0, EntryType::Directory);
    let block = encode_header(&e).unwrap();
    let back = decode_header(&block).unwrap();
    assert_eq!(back.path, b"somedir/".to_vec());
    assert!(matches!(back.entry_type, EntryType::Directory));
    assert_eq!(block[156], b'5');
}

#[test]
fn symlink_round_trips_with_its_target() {
    let e = Entry {
        path: b"link".to_vec(),
        size: 0,
        mode: 0o777,
        mtime: 1,
        entry_type: EntryType::Symlink(b"target/elsewhere".to_vec()),
    };
    let block = encode_header(&e).unwrap();
    assert_eq!(block[156], b'2');
    let back = decode_header(&block).unwrap();
    match back.entry_type {
        EntryType::Symlink(t) => assert_eq!(t, b"target/elsewhere".to_vec()),
        _ => panic!("symlink did not round-trip"),
    }
}

#[test]
fn large_size_uses_base256_and_round_trips() {
    let big: u64 = 9_000_000_000; // too large for eleven octal digits
    let e = plain_entry("big.bin", big, EntryType::RegularFile);
    let block = encode_header(&e).unwrap();
    assert_eq!(block[124], 0x80);
    let back = decode_header(&block).unwrap();
    assert_eq!(back.size, big);
}

#[test]
fn space_terminated_numeric_field_is_accepted() {
    let e = plain_entry("a.txt", 5, EntryType::RegularFile);
    let mut block = encode_header(&e).unwrap();
    // rewrite the size field as space-padded octal: "5" then spaces
    let field = b"5           ";
    for k in 0..12 {
        block[124 + k] = field[k];
    }
    fix_checksum(&mut block);
    let back = decode_header(&block).unwrap();
    assert_eq!(back.size, 5);
}

#[test]
fn non_octal_numeric_field_is_malformed() {
    let e = plain_entry("a.txt", 5, EntryType::RegularFile);
    let mut block = encode_header(&e).unwrap();
    block[130] = b'x';
    fix_checksum(&mut block);
    match decode_header(&block) {
        Err(HeaderError::MalformedNumericField) => {}
        other => panic!("expected a malformed field, got {:?}", other),
    }
}

#[test]
fn unknown_typeflag_falls_back_to_regular_file() {
    let e = plain_entry("a.txt", 5, EntryType::RegularFile);
    let mut block = encode_header(&e).unwrap();
    block[156] = b'7';
    fix_checksum(&mut block);
    let back = decode_header(&block).unwrap();
    assert!(matches!(back.entry_type, EntryType::RegularFile));
}

#[test]
fn prefix_field_is_joined_into_the_path() {
    let e = plain_entry("name.txt", 5, EntryType::RegularFile);
    let mut block = encode_header(&e).unwrap();
    let prefix = b"very/deep";
    for k in 0..prefix.len() {
        block[345 + k] = prefix[k];
    }
    fix_checksum(&mut block);
    let back = decode_header(&block).unwrap();
    assert_eq!(back.path, b"very/deep/name.txt".to_vec());
}

#[test]
fn path_too_long_is_rejected() {
    let long = "x".repeat(101);
    let e = plain_entry(&long, 0, EntryType::RegularFile);
    assert!(matches!(encode_header(&e), Err(EncodingError::PathTooLong)));
    let fits = "x".repeat(100);
    assert!(encode_header(&plain_entry(&fits, 0, EntryType::RegularFile)).is_ok());
}

#[test]
fn long_path_splits_into_the_prefix_field() {
    let long = format!("{}/{}", "p".repeat(60), "n".repeat(80));
    let e = plain_entry(&long, 5, EntryType::RegularFile);
    let block = encode_header(&e).unwrap();
    assert_eq!(&block[0..80], "n".repeat(80).as_bytes());
    assert_eq!(&block[345..405], "p".repeat(60).as_bytes());
    let back = decode_header(&block).unwrap();
    assert_eq!(back.path, long.as_bytes().to_vec());
}

#[test]
fn normalized_long_directory_splits_at_its_own_slash() {
    let dir100 = "d".repeat(100);
    let e = plain_entry(&dir100, 0, EntryType::Directory);
    let block = encode_header(&e).unwrap();
    let back = decode_header(&block).unwrap();
    let mut expected = dir100.into_bytes();
    expected.push(b'/');
    assert_eq!(back.path, expected);
}

#[test]
fn unsplittable_long_path_is_rejected() {
    let long = format!("{}/{}", "p".repeat(180), "n".repeat(20));
    let e = plain_entry(&long, 0, EntryType::RegularFile);
    assert!(matches!(encode_header(&e), Err(EncodingError::PathTooLong)));
}

#[test]
fn invalid_entries_are_rejected() {
    let mut e = plain_entry("dir/", 3, EntryType::Directory);
    assert!(matches!(encode_header(&e), Err(EncodingError::InvalidEntry)));
    e = plain_entry("a\0b", 0, EntryType::RegularFile);
    assert!(matches!(encode_header(&e), Err(EncodingError::InvalidEntry)));
    e = plain_entry("", 0, EntryType::RegularFile);
    assert!(matches!(encode_header(&e), Err(EncodingError::InvalidEntry)));
    e = Entry {
        path: b"l".to_vec(),
        size: 0,
        mode: 0,
        mtime: 0,
        entry_type: EntryType::Symlink(b"a\0b".to_vec()),
    };
    assert!(matches!(encode_header(&e), Err(EncodingError::InvalidEntry)));
}

#[test]
fn oversized_link_target_and_fields_are_rejected() {
    let e = Entry {
        path: b"l".to_vec(),
        size: 0,
        mode: 0,
        mtime: 0,
        entry_type: EntryType::Symlink(vec![b't'; 101]),
    };
    assert!(matches!(encode_header(&e), Err(EncodingError::LinkTargetTooLong)));
    let mut f = plain_entry("a", 0, EntryType::RegularFile);
    f.mode = 0o10000000;
    assert!(matches!(encode_header(&f), Err(EncodingError::FieldTooLarge)));
    f.mode = 0;
    f.mtime = 0o100000000000;
    assert!(matches!(encode_header(&f), Err(EncodingError::FieldTooLarge)));
}
