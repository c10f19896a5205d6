use checkpoint_core::meta::{ExportImportFilesMetaData, FileMetadata};
use checkpoint_core::Error;

fn representative_file() -> FileMetadata {
    FileMetadata {
        column_family_name: b"cf1".to_vec(),
        level: -3,
        file_number: 42,
        relative_filename: b"00000000000000000001".to_vec(),
        name: b"/db/00000000000000000001".to_vec(),
        directory: b"backup".to_vec(),
        temperature: 2,
        smallest_seqno: 7,
        largest_seqno: 19,
        smallestkey: b"a".to_vec(),
        largestkey: b"zz".to_vec(),
        num_entries: 12,
        num_deletions: 3,
        num_reads_sampled: 1000,
        being_compacted: true,
        file_creation_time: 1700000000,
        oldest_ancester_time: 1600000000,
        file_checksum: b"\x01\x02\xff".to_vec(),
        file_checksum_func_name: b"crc32c".to_vec(),
    }
}

fn zeroed_file() -> FileMetadata {
    FileMetadata {
        column_family_name: Vec::new(),
        level: 0,
        file_number: 0,
        relative_filename: Vec::new(),
        name: Vec::new(),
        directory: Vec::new(),
        temperature: 0,
        smallest_seqno: 0,
        largest_seqno: 0,
        smallestkey: Vec::new(),
        largestkey: Vec::new(),
        num_entries: 0,
        num_deletions: 0,
        num_reads_sampled: 0,
        being_compacted: false,
        file_creation_time: 0,
        oldest_ancester_time: 0,
        file_checksum: Vec::new(),
        file_checksum_func_name: Vec::new(),
    }
}

#[test]
fn test_codec_round_trip() {
    // A representative bundle with non-empty fields and with zero-valued and
    // empty-string fields: decode(encode(b)) recovers it field for field.
    let bundle = ExportImportFilesMetaData {
        db_comparator_name: b"leveldb.BytewiseComparator".to_vec(),
        files: vec![representative_file(), zeroed_file()],
    };
    let text = bundle.encode();
    let back = ExportImportFilesMetaData::decode(&text).unwrap();
    assert_eq!(back, bundle);

    let empty_bundle =
        ExportImportFilesMetaData { db_comparator_name: Vec::new(), files: Vec::new() };
    let text = empty_bundle.encode();
    let back = ExportImportFilesMetaData::decode(&text).unwrap();
    assert_eq!(back, empty_bundle);
}

#[test]
fn test_encode_exact_form() {
    // The textual schema written out: length-prefixed comparator name, then
    // the file count, each number as exactly twenty decimal digits.
    let bundle = ExportImportFilesMetaData {
        db_comparator_name: b"abc".to_vec(),
        files: Vec::new(),
    };
    let text = bundle.encode();
    assert_eq!(
        String::from_utf8(text).unwrap(),
        "00000000000000000003abc00000000000000000000"
    );
}

#[test]
fn test_codec_extreme_values() {
    let mut lo = zeroed_file();
    lo.level = i32::MIN;
    let mut hi = zeroed_file();
    hi.level = i32::MAX;
    hi.file_number = u64::MAX;
    hi.smallest_seqno = u64::MAX;
    hi.largest_seqno = u64::MAX;
    hi.num_entries = u64::MAX;
    hi.temperature = u8::MAX;
    hi.being_compacted = true;
    let bundle = ExportImportFilesMetaData {
        db_comparator_name: b"c".to_vec(),
        files: vec![lo, hi],
    };
    let text = bundle.encode();
    let back = ExportImportFilesMetaData::decode(&text).unwrap();
    assert_eq!(back, bundle);
}

#[test]
fn test_decode_rejects_overflowing_number() {
    // A twenty-digit number above the largest machine integer cannot be a
    // length prefix of any encoded bundle.
    let text = b"99999999999999999999abc".to_vec();
    assert_eq!(ExportImportFilesMetaData::decode(&text), Err(Error::Malformed));
}

#[test]
fn test_decode_malformed() {
    // Not even a length prefix.
    assert_eq!(
        ExportImportFilesMetaData::decode(&b"garbage".to_vec()),
        Err(Error::Malformed)
    );
    // A digit-looking prefix whose announced length overruns the input.
    assert_eq!(
        ExportImportFilesMetaData::decode(&b"00000000000000000009abc".to_vec()),
        Err(Error::Malformed)
    );
    // Non-digit bytes where the file count should stand.
    assert_eq!(
        ExportImportFilesMetaData::decode(&b"00000000000000000003abcnot-a-number-at-all!!".to_vec()),
        Err(Error::Malformed)
    );
    // Trailing bytes after a complete bundle are refused.
    let bundle = ExportImportFilesMetaData {
        db_comparator_name: b"abc".to_vec(),
        files: Vec::new(),
    };
    let mut text = bundle.encode();
    text.push(b' ');
    assert_eq!(ExportImportFilesMetaData::decode(&text), Err(Error::Malformed));
    // The empty input is refused too.
    assert_eq!(ExportImportFilesMetaData::decode(&Vec::new()), Err(Error::Malformed));
}
