use marf_index::error::Error;
use marf_index::history_blob::{
    HistoryBlobFooter, HistoryBlobHeader, HistoryBlobReader, HistoryBlobWriter, HistoryChunk,
    HistoryChunkHeader, StagedHistoryBlob, HISTORY_BLOB_FLAG_FIXED_VALUE_ENCODING,
    HISTORY_BLOB_HEADER_SIZE, HISTORY_CHUNK_FLAG_FIXED_VALUE_ENCODING,
};
use marf_index::history_names::{
    history_blob_filename, history_blob_path, history_blob_tmp_name, history_blob_tmp_path,
    is_history_blob_tmp_name, parse_history_blob_filename,
};
use marf_index::history_reconcile::{
    enumerate_history_blob_tmp_files, enumerate_history_blobs, history_blob_action,
    reconcile_history_blobs, ExpectedHistoryBlob, FoundHistoryBlob, HistoryBlobAction,
    HistoryBlobReconcileReport,
};
use marf_index::value::MARFValue;

/// A recognizable value: the label in the leading bytes.
fn mv(label: u32) -> MARFValue {
    let mut b = [0u8; 40];
    b[0..4].copy_from_slice(&label.to_be_bytes());
    MARFValue(b)
}

fn entries_desc(heights: &[u32]) -> Vec<(u32, MARFValue)> {
    heights.iter().map(|&h| (h, mv(h))).collect()
}

fn mk_writer(level_id: u32) -> HistoryBlobWriter {
    HistoryBlobWriter::create_at(history_blob_tmp_path("dir", level_id, 1, 2, 3), level_id)
}

fn finished(level_id: u32, heights: &[u32]) -> Vec<u8> {
    let mut w = mk_writer(level_id);
    w.append_chunk(&entries_desc(heights)).unwrap();
    w.finalize().unwrap()
}

fn is_corruption(e: &Error) -> bool {
    matches!(e, Error::CorruptionError(_))
}

#[test]
fn header_round_trip() {
    let h = HistoryBlobHeader {
        version: 1,
        flags: HISTORY_BLOB_FLAG_FIXED_VALUE_ENCODING,
        level_id: 0xdead_beef,
    };
    let bytes = h.encode();
    let decoded = HistoryBlobHeader::decode(&bytes).unwrap();
    assert_eq!(decoded, h);
}

#[test]
fn header_decode_rejects_bad_magic() {
    let mut bytes = HistoryBlobHeader {
        version: 1,
        flags: 1,
        level_id: 0,
    }
    .encode();
    bytes[0] = b'X';
    let err = HistoryBlobHeader::decode(&bytes).unwrap_err();
    assert!(matches!(err, Error::CorruptionError(_)));
}

#[test]
fn header_decode_rejects_unsupported_version() {
    let mut bytes = HistoryBlobHeader {
        version: 1,
        flags: 1,
        level_id: 0,
    }
    .encode();
    bytes[4] = 99;
    let err = HistoryBlobHeader::decode(&bytes).unwrap_err();
    assert!(matches!(err, Error::CorruptionError(_)));
}

#[test]
fn header_layout() {
    let h = HistoryBlobHeader {
        version: 1,
        flags: 1,
        level_id: 0x0102_0304,
    };
    assert_eq!(h.encode(), vec![b'M', b'H', b'I', b'S', 1, 1, 1, 2, 3, 4]);
    assert!(is_corruption(
        &HistoryBlobHeader::decode(&h.encode()[..9]).unwrap_err()
    ));
}

#[test]
fn footer_round_trip() {
    let f = HistoryBlobFooter {
        chunk_count: 1234,
        total_entry_count: 56_789_012,
        body_len: 9_876_543_210,
    };
    let bytes = f.encode();
    let decoded = HistoryBlobFooter::decode(&bytes).unwrap();
    assert_eq!(decoded, f);
}

#[test]
fn footer_decode_rejects_bad_magic() {
    let mut bytes = HistoryBlobFooter {
        chunk_count: 0,
        total_entry_count: 0,
        body_len: 0,
    }
    .encode();
    bytes[20] = b'X';
    let err = HistoryBlobFooter::decode(&bytes).unwrap_err();
    assert!(matches!(err, Error::CorruptionError(_)));
}

#[test]
fn chunk_header_rejects_zero_entry_count() {
    let h = HistoryChunkHeader {
        version: 1,
        flags: HISTORY_CHUNK_FLAG_FIXED_VALUE_ENCODING,
        entry_count: 0,
    };
    let err = HistoryChunkHeader::decode(&h.encode()).unwrap_err();
    assert!(matches!(err, Error::CorruptionError(_)));
}

#[test]
fn chunk_header_rejects_reserved_flag_bits() {
    let h = HistoryChunkHeader {
        version: 1,
        flags: HISTORY_CHUNK_FLAG_FIXED_VALUE_ENCODING | 0x02,
        entry_count: 1,
    };
    let err = HistoryChunkHeader::decode(&h.encode()).unwrap_err();
    assert!(matches!(err, Error::CorruptionError(_)));
}

#[test]
fn chunk_header_rejects_missing_fixed_encoding_bit() {
    let h = HistoryChunkHeader {
        version: 1,
        flags: 0,
        entry_count: 1,
    };
    let err = HistoryChunkHeader::decode(&h.encode()).unwrap_err();
    assert!(matches!(err, Error::CorruptionError(_)));
}

#[test]
fn chunk_header_length() {
    let h = HistoryChunkHeader {
        version: 1,
        flags: 1,
        entry_count: 3,
    };
    assert_eq!(h.encode(), vec![1, 1, 0, 0, 0, 3]);
    assert_eq!(h.chunk_byte_len(), 138);
    assert_eq!(HistoryChunkHeader::decode(&h.encode()).unwrap(), h);
    // the header alone is no chunk
    assert!(is_corruption(&HistoryChunk::decode(&h.encode()).unwrap_err()));
}

#[test]
fn writer_reader_round_trip_single_chunk() {
    let entries = entries_desc(&[150, 130, 110]);
    let mut w = mk_writer(7);
    let (offset, byte_len) = w.append_chunk(&entries).unwrap();
    let file = w.finalize().unwrap();

    let r = HistoryBlobReader::open(&file, Some(7)).unwrap();
    assert_eq!(r.header().level_id, 7);
    assert_eq!(r.footer().chunk_count, 1);
    assert_eq!(r.footer().total_entry_count, 3);
    assert_eq!(r.body_start(), 10);
    assert_eq!((offset, byte_len), (10, 138));

    let chunk = r.read_chunk(offset, byte_len, 3).unwrap();
    assert_eq!(chunk.entries_owned(), entries);
    assert_eq!(chunk.len(), 3);
    assert!(!chunk.is_empty());
}

#[test]
fn writer_reader_round_trip_many_chunks() {
    let mut w = mk_writer(1);
    let key_a = entries_desc(&[990, 880, 770, 660, 550]);
    let key_b = entries_desc(&[800, 100]);
    let key_c = entries_desc(&[42]);
    let (oa, la) = w.append_chunk(&key_a).unwrap();
    let (ob, lb) = w.append_chunk(&key_b).unwrap();
    let (oc, lc) = w.append_chunk(&key_c).unwrap();
    let file = w.finalize().unwrap();

    let r = HistoryBlobReader::open(&file, None).unwrap();
    assert_eq!(r.footer().chunk_count, 3);
    assert_eq!(r.footer().total_entry_count, 5 + 2 + 1);
    assert_eq!(r.read_chunk(oa, la, 5).unwrap().entries_owned(), key_a);
    assert_eq!(r.read_chunk(ob, lb, 2).unwrap().entries_owned(), key_b);
    assert_eq!(r.read_chunk(oc, lc, 1).unwrap().entries_owned(), key_c);
}

#[test]
fn value_at_height_resolves_within_range() {
    let entries = entries_desc(&[800, 500, 200]); // descending
    let mut w = mk_writer(2);
    let (off, len) = w.append_chunk(&entries).unwrap();
    let file = w.finalize().unwrap();

    let r = HistoryBlobReader::open(&file, None).unwrap();
    let chunk = r.read_chunk(off, len, 3).unwrap();
    // h >= 800: tip
    assert_eq!(chunk.value_at_height(900), Some(mv(800)));
    assert_eq!(chunk.value_at_height(800), Some(mv(800)));
    // 500 <= h < 800
    assert_eq!(chunk.value_at_height(799), Some(mv(500)));
    assert_eq!(chunk.value_at_height(500), Some(mv(500)));
    // 200 <= h < 500
    assert_eq!(chunk.value_at_height(499), Some(mv(200)));
    assert_eq!(chunk.value_at_height(200), Some(mv(200)));
    // h < 200: the key did not exist yet
    assert_eq!(chunk.value_at_height(199), None);
    assert_eq!(chunk.value_at_height(0), None);
}

#[test]
fn value_at_height_single_entry() {
    let entries = entries_desc(&[42]);
    let mut w = mk_writer(3);
    let (off, len) = w.append_chunk(&entries).unwrap();
    let file = w.finalize().unwrap();

    let r = HistoryBlobReader::open(&file, None).unwrap();
    let chunk = r.read_chunk(off, len, 1).unwrap();
    assert_eq!(chunk.value_at_height(100), Some(mv(42)));
    assert_eq!(chunk.value_at_height(42), Some(mv(42)));
    assert_eq!(chunk.value_at_height(41), None);
}

#[test]
fn writer_rejects_empty_chunk() {
    let mut w = mk_writer(4);
    let err = w.append_chunk(&[]).unwrap_err();
    assert!(matches!(err, Error::CorruptionError(_)));
}

#[test]
fn writer_rejects_ascending_entries() {
    let mut w = mk_writer(5);
    let err = w.append_chunk(&[(10, mv(1)), (20, mv(2))]).unwrap_err();
    assert!(matches!(err, Error::CorruptionError(_)));
}

#[test]
fn writer_accepts_equal_heights_and_is_unchanged_by_a_refusal() {
    let mut w = mk_writer(5);
    let before = w.bytes.clone();
    assert!(w.append_chunk(&[(1, mv(1)), (2, mv(2))]).is_err());
    assert_eq!(w.bytes, before);
    assert_eq!(w.append_chunk(&[(2, mv(1)), (2, mv(2))]).unwrap(), (10, 94));
}

#[test]
fn writer_overflow_is_reported() {
    let mut w = mk_writer(5);
    w.chunk_count = u32::MAX;
    assert!(matches!(
        w.append_chunk(&[(2, mv(1))]).unwrap_err(),
        Error::OverflowError
    ));
    let mut w = mk_writer(5);
    w.next_offset = u64::MAX - 10;
    assert!(matches!(
        w.append_chunk(&[(2, mv(1))]).unwrap_err(),
        Error::OverflowError
    ));
    let mut w = mk_writer(5);
    w.total_entry_count = u64::MAX;
    assert!(matches!(
        w.append_chunk(&[(2, mv(1))]).unwrap_err(),
        Error::OverflowError
    ));
    let mut w = mk_writer(5);
    w.next_offset = 9;
    assert!(is_corruption(&w.finalize().unwrap_err()));
}

#[test]
fn reader_rejects_truncated_file() {
    let file = finished(6, &[100]);
    // Only the header is left.
    let err = HistoryBlobReader::open(&file[..HISTORY_BLOB_HEADER_SIZE], Some(6)).unwrap_err();
    assert!(matches!(err, Error::CorruptionError(_)));
    for keep in 0..file.len() {
        assert!(is_corruption(
            &HistoryBlobReader::open(&file[..keep], Some(6)).unwrap_err()
        ));
    }
}

#[test]
fn reader_rejects_wrong_level_id() {
    let file = finished(8, &[1]);
    let err = HistoryBlobReader::open(&file, Some(99)).unwrap_err();
    assert!(matches!(err, Error::CorruptionError(_)));
}

#[test]
fn reader_rejects_torn_footer_magic() {
    let mut file = finished(9, &[1]);
    let len = file.len();
    file[len - 4..].copy_from_slice(b"XXXX");
    let err = HistoryBlobReader::open(&file, None).unwrap_err();
    assert!(matches!(err, Error::CorruptionError(_)));
}

#[test]
fn reader_rejects_footer_that_tells_another_length() {
    let mut file = finished(9, &[1]);
    file.insert(10, 0);
    assert!(is_corruption(
        &HistoryBlobReader::open(&file, None).unwrap_err()
    ));
    let mut huge = finished(9, &[1]);
    let len = huge.len();
    huge[len - 12..len - 4].copy_from_slice(&u64::MAX.to_be_bytes());
    assert!(is_corruption(
        &HistoryBlobReader::open(&huge, None).unwrap_err()
    ));
}

#[test]
fn reader_rejects_chunk_entry_count_mismatch() {
    let entries = entries_desc(&[5, 4, 3]);
    let mut w = mk_writer(10);
    let (off, len) = w.append_chunk(&entries).unwrap();
    let file = w.finalize().unwrap();
    let r = HistoryBlobReader::open(&file, None).unwrap();
    // ask for the wrong entry count (chunk has 3, ask for 2).
    let err = r.read_chunk(off, len, 2).unwrap_err();
    assert!(matches!(err, Error::CorruptionError(_)));
    // the right length for two entries, but the header tells three
    assert!(is_corruption(&r.read_chunk(off, 94, 2).unwrap_err()));
}

#[test]
fn reader_rejects_oversized_byte_len_overlapping_next_chunk() {
    // Two adjacent chunks: one of three entries, then one of one entry. A leaf for the first
    // that claims the bytes of both must be rejected, though the bytes lie in the body and the
    // chunk header would still parse.
    let mut w = mk_writer(14);
    let (off_a, len_a) = w.append_chunk(&entries_desc(&[5, 4, 3])).unwrap();
    let (_off_b, len_b) = w.append_chunk(&entries_desc(&[10])).unwrap();
    let file = w.finalize().unwrap();

    let r = HistoryBlobReader::open(&file, None).unwrap();
    let chunk = r.read_chunk(off_a, len_a, 3).unwrap();
    assert_eq!(chunk.entry_count, 3);

    let oversized = len_a + len_b;
    let err = r.read_chunk(off_a, oversized, 3).unwrap_err();
    assert!(matches!(err, Error::CorruptionError(_)));

    let err2 = r.read_chunk(off_a, len_a, 4).unwrap_err();
    assert!(matches!(err2, Error::CorruptionError(_)));
}

#[test]
fn header_decode_rejects_missing_fixed_value_encoding_flag() {
    let mut bytes = HistoryBlobHeader {
        version: 1,
        flags: HISTORY_BLOB_FLAG_FIXED_VALUE_ENCODING,
        level_id: 0,
    }
    .encode();
    bytes[5] = 0; // clear flags
    let err = HistoryBlobHeader::decode(&bytes).unwrap_err();
    assert!(matches!(err, Error::CorruptionError(_)));
}

#[test]
fn header_decode_rejects_reserved_flag_bits() {
    let h = HistoryBlobHeader {
        version: 1,
        flags: HISTORY_BLOB_FLAG_FIXED_VALUE_ENCODING,
        level_id: 0,
    };
    let mut bytes = h.encode();
    bytes[5] |= 0b1000_0000; // set a reserved bit
    let err = HistoryBlobHeader::decode(&bytes).unwrap_err();
    assert!(matches!(err, Error::CorruptionError(_)));
}

#[test]
fn reader_rejects_chunk_offset_out_of_body() {
    let file = finished(11, &[1]);
    let r = HistoryBlobReader::open(&file, None).unwrap();
    // Offset way past the end.
    let err = r.read_chunk(99_999, 100, 1).unwrap_err();
    assert!(matches!(err, Error::CorruptionError(_)));
    // The right length, but past the end, in the header, or beyond all offsets.
    assert!(is_corruption(&r.read_chunk(99_999, 50, 1).unwrap_err()));
    assert!(is_corruption(&r.read_chunk(9, 50, 1).unwrap_err()));
    assert!(is_corruption(&r.read_chunk(u64::MAX, 50, 1).unwrap_err()));
}

#[test]
fn writer_cancel_unlinks_tmp() {
    let mut w = mk_writer(13);
    let tmp = w.tmp_path().to_string();
    w.append_chunk(&entries_desc(&[1])).unwrap();
    assert_eq!(w.cancel(), tmp);
}

#[test]
fn staged_drop_without_forget_unlinks_file() {
    let staged_tmp = history_blob_tmp_path("dir", 14, 1, 2, 3);
    let guard = StagedHistoryBlob::new(staged_tmp.clone());
    assert_eq!(guard.tmp_path(), staged_tmp);
    assert_eq!(guard.leftover(), Some(staged_tmp.as_str()));
}

#[test]
fn staged_forget_does_not_unlink() {
    let staged_tmp = history_blob_tmp_path("dir", 15, 1, 2, 3);
    let mut guard = StagedHistoryBlob::new(staged_tmp);
    guard.forget();
    assert_eq!(guard.leftover(), None);
}

#[test]
fn filename_format_matches_spec() {
    // Values smaller than the width of a field get zero-padded; larger values render at their
    // natural width.
    let name = history_blob_filename(7, 100, 999, 0x1000);
    assert_eq!(
        name,
        "marf-history-level-000007-h00000100-00000999-blob-0000000000001000.dat"
    );
    assert_eq!(
        history_blob_filename(u32::MAX, 0, u32::MAX, u64::MAX),
        "marf-history-level-4294967295-h00000000-4294967295-blob-ffffffffffffffff.dat"
    );
}

#[test]
fn path_joins_directory_and_name() {
    let name = history_blob_filename(7, 100, 999, 0x1000);
    assert_eq!(
        history_blob_path("/a/b", 7, 100, 999, 0x1000),
        format!("/a/b/{}", name)
    );
    assert_eq!(
        history_blob_path("/a/b/", 7, 100, 999, 0x1000),
        format!("/a/b/{}", name)
    );
    assert_eq!(history_blob_path("", 7, 100, 999, 0x1000), name);
}

#[test]
fn parse_filename_round_trips() {
    let name = history_blob_filename(42, 100, 199, 0xdead_beef);
    let (lvl, mn, mx, off) = parse_history_blob_filename(&name).unwrap();
    assert_eq!(lvl, 42);
    assert_eq!(mn, 100);
    assert_eq!(mx, 199);
    assert_eq!(off, 0xdead_beef);
}

#[test]
fn parse_filename_rejects_unrelated_files() {
    assert!(parse_history_blob_filename("README.md").is_none());
    assert!(parse_history_blob_filename(
        "marf-roots-level-000001-h00000000-00000099-blob-0000000000000000.dat"
    )
    .is_none());
    assert!(parse_history_blob_filename("marf-history-level-001-h0-99-blob-0.txt").is_none());
}

#[test]
fn parse_filename_edge_cases() {
    let f = parse_history_blob_filename;
    assert_eq!(
        f("marf-history-level-000001-h00000000-00000099-blob-00000000000000ff.dat"),
        Some((1, 0, 99, 255))
    );
    assert_eq!(
        f("marf-history-level-4294967295-h4294967295-4294967295-blob-ffffffffffffffff.dat"),
        Some((u32::MAX, u32::MAX, u32::MAX, u64::MAX))
    );
    // no padding, another width, a sign, upper case
    assert_eq!(f("marf-history-level-1-h0-99-blob-0.dat"), None);
    assert_eq!(
        f("marf-history-level-0000001-h00000000-00000099-blob-00000000000000ff.dat"),
        None
    );
    assert_eq!(
        f("marf-history-level-+00001-h00000000-00000099-blob-00000000000000ff.dat"),
        None
    );
    assert_eq!(
        f("marf-history-level-000001-h00000000-00000099-blob-00000000000000FF.dat"),
        None
    );
    assert_eq!(f("marf-history-level-4294967296-h0-99-blob-0.dat"), None);
    assert_eq!(f("marf-history-level-1-h0-99-blob-10000000000000000.dat"), None);
    assert_eq!(f("marf-history-level-1-0-99-blob-0.dat"), None);
    assert_eq!(f("marf-history-level-1-h0-99-blob.dat"), None);
    assert_eq!(f("marf-history-level-1-h0-99-blob-0-0.dat"), None);
    assert_eq!(f("marf-history-level-1-h0-99-blub-0.dat"), None);
    assert_eq!(f("marf-history-level--h0-99-blob-0.dat"), None);
    assert_eq!(f("marf-history-level-1-h0-99-blob-g.dat"), None);
    assert_eq!(f("marf-history-level-.dat"), None);
    assert_eq!(f(".dat"), None);
    assert_eq!(f(""), None);
}

#[test]
fn tmp_names() {
    assert_eq!(
        history_blob_tmp_name(5, 255, 12, 3),
        ".history-tmp-level-000005-ff-12-3.dat"
    );
    assert_eq!(
        history_blob_tmp_path("d", 5, 255, 12, 3),
        "d/.history-tmp-level-000005-ff-12-3.dat"
    );
    assert_eq!(
        history_blob_tmp_name(5, (1u128 << 64) + 0xabc, 12, 3),
        ".history-tmp-level-000005-10000000000000abc-12-3.dat"
    );
    assert!(is_history_blob_tmp_name(&history_blob_tmp_name(5, 255, 12, 3)));
    assert!(!is_history_blob_tmp_name(".history-tmp-x.da"));
    assert!(!is_history_blob_tmp_name("history-tmp-x.dat"));
    assert!(!is_history_blob_tmp_name(&history_blob_filename(1, 2, 3, 4)));
}

#[test]
fn enumerate_history_blobs_returns_only_history_files() {
    let names = vec![
        "README.md".to_string(),
        history_blob_filename(1, 0, 99, 0x1000),
        "marf-roots-level-000002-h00000100-00000199-blob-0000000000002000.dat".to_string(),
    ];
    let found = enumerate_history_blobs(&names);
    assert_eq!(found, vec![(1, (1, 0, 99, 0x1000))]);
}

#[test]
fn enumerate_history_blob_tmp_files_finds_orphan_tmp() {
    let names = vec![
        history_blob_filename(1, 0, 99, 0x1000),
        history_blob_tmp_name(5, 1, 2, 3),
    ];
    assert_eq!(enumerate_history_blob_tmp_files(&names), vec![1]);
}

#[test]
fn enumerate_returns_empty_when_dir_missing() {
    let names: Vec<String> = Vec::new();
    assert!(enumerate_history_blobs(&names).is_empty());
    assert!(enumerate_history_blob_tmp_files(&names).is_empty());
}

fn row(level_id: u32, present: bool, trimmed: bool) -> ExpectedHistoryBlob {
    ExpectedHistoryBlob {
        level_id,
        min_height: 0,
        max_height: 99,
        blob_offset: 0x1000,
        present,
        trimmed,
    }
}

fn found(level_id: u32, bytes: &[u8], removed: bool) -> FoundHistoryBlob<'_> {
    FoundHistoryBlob {
        identity: (level_id, 0, 99, 0x1000),
        bytes,
        removed,
    }
}

#[test]
fn reconcile_keeps_present_and_counts_orphans() {
    let one = finished(1, &[10]);
    let expected = [row(1, true, false), row(2, false, false), row(3, true, true)];
    let files = [
        found(1, &one, false),
        found(2, &[], true),
        found(3, &[], true),
        found(4, &[], false),
    ];
    let report = reconcile_history_blobs("d", &[true, false, true], &files, &expected).unwrap();
    assert_eq!(
        report,
        HistoryBlobReconcileReport {
            tmp_orphans_deleted: 2,
            dat_orphans_deleted: 2,
            dat_kept: 1
        }
    );
    assert_eq!(
        history_blob_action(&expected, (1, 0, 99, 0x1000)),
        HistoryBlobAction::Keep
    );
    assert_eq!(
        history_blob_action(&expected, (1, 0, 98, 0x1000)),
        HistoryBlobAction::Remove
    );
    assert_eq!(
        history_blob_action(&expected, (3, 0, 99, 0x1000)),
        HistoryBlobAction::Remove
    );
}

#[test]
fn reconcile_rejects_missing_and_invalid_files() {
    let one = finished(1, &[10]);
    let expected = [row(1, true, false)];
    match reconcile_history_blobs("d", &[], &[], &expected) {
        Err(Error::CorruptionError(m)) => assert!(m.contains("d/"), "{m}"),
        _ => panic!("expected the missing blob to be named"),
    }
    // a file with another height range does not stand in for it
    let near = FoundHistoryBlob {
        identity: (1, 0, 98, 0x1000),
        bytes: &one,
        removed: true,
    };
    assert!(is_corruption(
        &reconcile_history_blobs("d", &[], &[near], &expected).unwrap_err()
    ));
    // the right name on the blob of another level
    let other = finished(2, &[10]);
    assert!(is_corruption(
        &reconcile_history_blobs("d", &[], &[found(1, &other, false)], &expected).unwrap_err()
    ));
    // a later row for the same blob decides
    let twice = [row(1, true, false), row(1, true, true)];
    assert!(is_corruption(
        &reconcile_history_blobs("d", &[], &[found(1, &one, true)], &twice).unwrap_err()
    ));
    assert_eq!(
        reconcile_history_blobs("d", &[], &[], &[]).unwrap(),
        HistoryBlobReconcileReport::default()
    );
}

#[test]
fn decode_errors_tell_what_was_found() {
    assert_eq!(
        HistoryBlobHeader::decode(&[0; 9]).unwrap_err().message(),
        "history blob: header truncated (9 < 10)"
    );
    assert_eq!(
        HistoryBlobHeader::decode(&[1, 2, 3, 4, 1, 1, 0, 0, 0, 7]).unwrap_err().message(),
        "history blob: bad header magic [1, 2, 3, 4], expected [77, 72, 73, 83]"
    );
    assert_eq!(
        HistoryBlobHeader::decode(b"MHIS\x02\x01\0\0\0\x07").unwrap_err().message(),
        "history blob: unsupported version 2 (expected 1)"
    );
    assert_eq!(
        HistoryBlobHeader::decode(b"MHIS\x01\x81\0\0\0\x07").unwrap_err().message(),
        "history blob: reserved header flag bits set (flags=0x81, valid mask 0x01)"
    );
}
