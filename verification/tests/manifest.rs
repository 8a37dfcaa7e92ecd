use agentstate::errors::StateError;
use agentstate::groupcommit::{Batch, WalState, WorkerAction, WorkerEvent, BATCH_MAX_BYTES, BATCH_MAX_MS, SEGMENT_BYTES};
use agentstate::manifest::{new_segment_name, parse_segment_number, segment_name, Manifest, WalSegmentMeta};

fn meta(name: &str, max_seq: u64) -> WalSegmentMeta {
    WalSegmentMeta { name: name.to_string(), max_seq }
}

fn manifest(segments: &[(&str, u64)], bookmark: Option<u64>, snapshot: Option<&str>) -> Manifest {
    Manifest {
        version: 1,
        current_snapshot: snapshot.map(|s| s.to_string()),
        snapshot_bookmark: bookmark,
        last_seq: segments.iter().map(|s| s.1).max().unwrap_or(0),
        current_segment: segments.last().map(|s| s.0.to_string()).unwrap_or_default(),
        segments: segments.iter().map(|(n, s)| meta(n, *s)).collect(),
    }
}

fn names(m: &Manifest) -> Vec<&str> {
    m.segments.iter().map(|s| s.name.as_str()).collect()
}

#[test]
fn segment_names_are_eight_digits_and_a_suffix() {
    assert_eq!(segment_name(1), "00000001.wal");
    assert_eq!(segment_name(0), "00000000.wal");
    assert_eq!(segment_name(42), "00000042.wal");
    assert_eq!(segment_name(99_999_999), "99999999.wal");
    assert_eq!(segment_name(100_000_000), "100000000.wal");
    assert_eq!(segment_name(u64::MAX), "18446744073709551615.wal");
    assert_eq!(segment_name(1_234_567_890), format!("{:08}.wal", 1_234_567_890u64));
}

#[test]
fn segment_numbers_are_read_from_names() {
    assert_eq!(parse_segment_number("00000001.wal"), Some(1));
    assert_eq!(parse_segment_number("00000042.wal"), Some(42));
    assert_eq!(parse_segment_number("7"), Some(7));
    assert_eq!(parse_segment_number("7.wal.wal"), Some(7));
    assert_eq!(parse_segment_number("+7.wal"), Some(7));
    assert_eq!(parse_segment_number("18446744073709551615.wal"), Some(u64::MAX));
    assert_eq!(parse_segment_number("18446744073709551616.wal"), None);
    assert_eq!(parse_segment_number("99999999999999999999999.wal"), None);
    assert_eq!(parse_segment_number(""), None);
    assert_eq!(parse_segment_number(".wal"), None);
    assert_eq!(parse_segment_number("+"), None);
    assert_eq!(parse_segment_number("++1"), None);
    assert_eq!(parse_segment_number("-1.wal"), None);
    assert_eq!(parse_segment_number("1 .wal"), None);
    assert_eq!(parse_segment_number("1.wal "), None);
    assert_eq!(parse_segment_number("12a.wal"), None);
    assert_eq!(parse_segment_number("1.WAL"), None);
    assert_eq!(parse_segment_number("\u{661}.wal"), None);
    for name in ["00000001.wal", "7.wal.wal", "+7", "x", "", "+", "1.log", "000"] {
        assert_eq!(parse_segment_number(name), name.trim_end_matches(".wal").parse::<u64>().ok());
    }
}

#[test]
fn each_segment_is_named_after_the_one_before() {
    assert_eq!(new_segment_name(None), "00000001.wal");
    assert_eq!(new_segment_name(Some(&meta("00000001.wal", 0))), "00000002.wal");
    assert_eq!(new_segment_name(Some(&meta("00000009.wal", 0))), "00000010.wal");
    assert_eq!(new_segment_name(Some(&meta("99999999.wal", 0))), "100000000.wal");
    assert_eq!(new_segment_name(Some(&meta("strange", 0))), "00000001.wal");
    assert_eq!(new_segment_name(Some(&meta("", 0))), "00000001.wal");
    assert_eq!(new_segment_name(Some(&meta("18446744073709551615.wal", 0))), "00000001.wal");
}

#[test]
fn opening_a_fresh_log_starts_the_first_segment() {
    let mut m = Manifest::fresh();
    assert_eq!(m.version, 1);
    assert!(m.segments.is_empty());
    let name = m.open_segment();
    assert_eq!(name, "00000001.wal");
    assert_eq!(m.current_segment, "00000001.wal");
    assert_eq!(names(&m), vec!["00000001.wal"]);
    assert_eq!(m.segments[0].max_seq, 0);
    // Opening again goes on with the current segment.
    assert_eq!(m.open_segment(), "00000001.wal");
    assert_eq!(names(&m), vec!["00000001.wal"]);
}

#[test]
fn opening_goes_on_with_the_current_segment() {
    let mut m = manifest(&[("00000001.wal", 5), ("00000002.wal", 9)], None, None);
    assert_eq!(m.open_segment(), "00000002.wal");
    assert_eq!(names(&m), vec!["00000001.wal", "00000002.wal"]);
    // Without a current segment the next one is started after the last.
    let mut m = manifest(&[("00000001.wal", 5), ("00000002.wal", 9)], None, None);
    m.current_segment = String::new();
    assert_eq!(m.open_segment(), "00000003.wal");
    assert_eq!(m.current_segment, "00000003.wal");
    assert_eq!(names(&m), vec!["00000001.wal", "00000002.wal"]);
}

#[test]
fn a_manifest_that_cannot_be_read_counts_as_empty() {
    let m = Manifest::default();
    assert_eq!(m.version, 0);
    assert_eq!(m.last_seq, 0);
    assert!(m.current_snapshot.is_none());
    assert!(m.snapshot_bookmark.is_none());
    assert!(m.current_segment.is_empty());
    assert!(m.segments.is_empty());
    let d = WalSegmentMeta::default();
    assert_eq!((d.name.as_str(), d.max_seq), ("", 0));
}

#[test]
fn a_durable_batch_raises_the_reach_of_the_manifest() {
    let mut m = manifest(&[("00000001.wal", 5), ("00000002.wal", 9)], None, None);
    m.commit_batch(12);
    assert_eq!(m.last_seq, 12);
    assert_eq!(m.segments[1].max_seq, 12);
    assert_eq!(m.segments[0].max_seq, 5);
    // A batch that ends with a lower number lowers nothing.
    m.commit_batch(0);
    assert_eq!(m.last_seq, 12);
    assert_eq!(m.segments[1].max_seq, 12);
    let mut empty = Manifest::fresh();
    empty.commit_batch(3);
    assert_eq!(empty.last_seq, 3);
    assert!(empty.segments.is_empty());
}

#[test]
fn rotation_starts_a_segment_at_the_last_durable_number() {
    let mut m = manifest(&[("00000001.wal", 5)], None, None);
    m.commit_batch(8);
    let name = m.rotate();
    assert_eq!(name, "00000002.wal");
    assert_eq!(m.current_segment, "00000002.wal");
    assert_eq!(names(&m), vec!["00000001.wal", "00000002.wal"]);
    assert_eq!(m.segments[1].max_seq, 8);
    assert_eq!(m.clone().rotate(), "00000003.wal");
}

#[test]
fn a_snapshot_bookmarks_the_last_durable_number() {
    let mut m = manifest(&[("00000001.wal", 5)], None, None);
    m.note_snapshot("snap-X.zst".to_string());
    assert_eq!(m.current_snapshot.as_deref(), Some("snap-X.zst"));
    assert_eq!(m.snapshot_bookmark, Some(5));
}

#[test]
fn trimming_needs_the_current_snapshot() {
    let mut m = manifest(&[("1.wal", 1), ("2.wal", 2)], Some(9), Some("snap-A.zst"));
    for id in ["snap-B.zst", "", "snap-A"] {
        match m.trim_wal(id) {
            Err(StateError::Invalid(detail)) => assert_eq!(detail, "snapshot id mismatch"),
            other => panic!("unexpected: {:?}", other),
        }
    }
    assert_eq!(names(&m), vec!["1.wal", "2.wal"]);
    let mut none = manifest(&[("1.wal", 1)], Some(9), None);
    assert!(matches!(none.trim_wal(""), Err(StateError::Invalid(_))));
}

#[test]
fn trimming_keeps_the_last_segment_before_the_bookmark() {
    let mut m = manifest(
        &[("1.wal", 10), ("2.wal", 20), ("3.wal", 30), ("4.wal", 40), ("5.wal", 50)],
        Some(35),
        Some("s"),
    );
    let deleted = m.trim_wal("s").unwrap();
    assert_eq!(deleted, vec!["1.wal", "2.wal"]);
    assert_eq!(names(&m), vec!["3.wal", "4.wal", "5.wal"]);
    assert_eq!(m.snapshot_bookmark, Some(35));
    assert_eq!(m.current_snapshot.as_deref(), Some("s"));
    // Trimming again drops nothing more.
    assert!(m.trim_wal("s").unwrap().is_empty());
    assert_eq!(names(&m), vec!["3.wal", "4.wal", "5.wal"]);
}

#[test]
fn a_segment_that_reaches_the_bookmark_is_kept() {
    let mut m = manifest(&[("1.wal", 10), ("2.wal", 20), ("3.wal", 30)], Some(20), Some("s"));
    assert!(m.trim_wal("s").unwrap().is_empty());
    assert_eq!(names(&m), vec!["1.wal", "2.wal", "3.wal"]);
    let mut m = manifest(&[("1.wal", 10), ("2.wal", 20), ("3.wal", 30)], Some(21), Some("s"));
    assert_eq!(m.trim_wal("s").unwrap(), vec!["1.wal"]);
    assert_eq!(names(&m), vec!["2.wal", "3.wal"]);
}

#[test]
fn trimming_where_everything_lies_before_the_bookmark_keeps_the_last_segment() {
    let mut m = manifest(&[("1.wal", 10), ("2.wal", 20), ("3.wal", 30)], Some(100), Some("s"));
    assert_eq!(m.trim_wal("s").unwrap(), vec!["1.wal", "2.wal"]);
    assert_eq!(names(&m), vec!["3.wal"]);
}

#[test]
fn trimming_goes_by_reach_not_by_position() {
    let mut m = manifest(&[("1.wal", 10), ("2.wal", 90), ("3.wal", 30), ("4.wal", 95)], Some(50), Some("s"));
    assert_eq!(m.trim_wal("s").unwrap(), vec!["1.wal"]);
    assert_eq!(names(&m), vec!["2.wal", "3.wal", "4.wal"]);
}

#[test]
fn trimming_without_a_bookmark_or_without_segments_drops_nothing() {
    let mut m = manifest(&[("1.wal", 0), ("2.wal", 0)], None, Some("s"));
    assert!(m.trim_wal("s").unwrap().is_empty());
    assert_eq!(names(&m), vec!["1.wal", "2.wal"]);
    let mut m = manifest(&[], Some(5), Some("s"));
    assert!(m.trim_wal("s").unwrap().is_empty());
    assert!(m.segments.is_empty());
}

#[test]
fn the_writer_gathers_until_the_batch_is_full_or_time_is_up() {
    assert_eq!(BATCH_MAX_BYTES, 256 * 1024);
    assert_eq!(BATCH_MAX_MS, 3);
    assert_eq!(SEGMENT_BYTES, 256 * 1024 * 1024);
    let mut batch = Batch::begin(100, 1);
    assert_eq!(batch, Batch { bytes: 100, records: 1, max_seq: 1 });
    assert_eq!(batch.step(WorkerEvent::Record { len: 50, seq: 2 }, 200), WorkerAction::Collect);
    assert_eq!(batch, Batch { bytes: 150, records: 2, max_seq: 2 });
    assert_eq!(batch.step(WorkerEvent::Record { len: 49, seq: 3 }, 200), WorkerAction::Collect);
    assert_eq!(batch.step(WorkerEvent::Record { len: 1, seq: 0 }, 200), WorkerAction::Flush);
    // A record with a lower number does not lower the batch's.
    assert_eq!(batch, Batch { bytes: 200, records: 4, max_seq: 3 });
    let mut waiting = Batch::begin(10, 7);
    assert_eq!(waiting.step(WorkerEvent::Deadline, 200), WorkerAction::Flush);
    assert_eq!(waiting.step(WorkerEvent::Closed, 200), WorkerAction::Flush);
    assert_eq!(waiting, Batch { bytes: 10, records: 1, max_seq: 7 });
}

#[test]
fn a_flush_records_the_greatest_number_of_the_batch() {
    let mut state = WalState { manifest: Manifest::fresh(), segment_bytes: 0 };
    state.manifest.open_segment();
    // A put numbered 5, then a delete, which bears no number.
    let mut batch = Batch::begin(40, 5);
    assert_eq!(batch.step(WorkerEvent::Record { len: 40, seq: 0 }, 1000), WorkerAction::Collect);
    assert_eq!(batch.step(WorkerEvent::Deadline, 1000), WorkerAction::Flush);
    assert_eq!(batch, Batch { bytes: 80, records: 2, max_seq: 5 });
    state.flushed(&batch);
    assert_eq!(state.manifest.last_seq, 5);
    assert_eq!(state.manifest.segments[0].max_seq, 5);
    // Namespaces count apart: 2 after 9 leaves 9.
    let mut batch = Batch::begin(10, 7);
    batch.step(WorkerEvent::Record { len: 10, seq: 9 }, 1000);
    batch.step(WorkerEvent::Record { len: 10, seq: 2 }, 1000);
    state.flushed(&batch);
    assert_eq!(state.manifest.last_seq, 9);
    assert_eq!(state.manifest.segments[0].max_seq, 9);
}

#[test]
fn a_first_record_beyond_the_batch_size_still_waits_for_the_next_event() {
    let mut batch = Batch::begin(1000, 1);
    assert_eq!(batch.step(WorkerEvent::Record { len: 0, seq: 2 }, 200), WorkerAction::Flush);
    let mut zero = Batch::begin(0, 1);
    assert_eq!(zero.step(WorkerEvent::Record { len: 0, seq: 2 }, 0), WorkerAction::Flush);
}

#[test]
fn batch_sizes_stop_at_the_greatest_size() {
    let mut batch = Batch::begin(usize::MAX - 1, 1);
    assert_eq!(batch.step(WorkerEvent::Record { len: 5, seq: 2 }, usize::MAX), WorkerAction::Flush);
    assert_eq!(batch.bytes, usize::MAX);
    assert_eq!(batch.records, 2);
}

#[test]
fn a_flush_is_recorded_and_a_full_segment_rotated() {
    let mut state = WalState { manifest: Manifest::fresh(), segment_bytes: 0 };
    state.manifest.open_segment();
    let batch = Batch { bytes: 600, records: 3, max_seq: 3 };
    state.flushed(&batch);
    assert_eq!(state.segment_bytes, 600);
    assert_eq!(state.manifest.last_seq, 3);
    assert_eq!(state.manifest.segments[0].max_seq, 3);
    assert_eq!(state.rotate_if_due(601), None);
    assert_eq!(state.segment_bytes, 600);
    assert_eq!(state.rotate_if_due(600), Some("00000002.wal".to_string()));
    assert_eq!(state.segment_bytes, 0);
    assert_eq!(state.manifest.current_segment, "00000002.wal");
    assert_eq!(state.manifest.segments.len(), 2);
    assert_eq!(state.manifest.segments[1].max_seq, 3);
    state.flushed(&Batch { bytes: 10, records: 1, max_seq: 0 });
    assert_eq!(state.manifest.last_seq, 3);
    assert_eq!(state.manifest.segments[1].max_seq, 3);
    assert_eq!(state.segment_bytes, 10);
    state.segment_bytes = u64::MAX - 1;
    state.flushed(&Batch { bytes: 10, records: 1, max_seq: 9 });
    assert_eq!(state.segment_bytes, u64::MAX);
    assert_eq!(state.manifest.last_seq, 9);
}
