use agentstate::errors::StateError;
use agentstate::manifest::Manifest;
use agentstate::mem::InMemoryStore;
use agentstate::model::{Object, PutRequest, Tags};
use agentstate::persistent::{
    instant_from_secs, rebuild, replay_record, secs_from_instant, snapshot_name, LoggedRecord,
    PersistentStore, RecBody, WalEntry,
};
use agentstate::query::{QueryRequest, TagFilter};
use agentstate::snapshot::{
    decode_snapshot, encode_snapshot, join_lines, lines_of_snapshot, restore, RestoreReport,
    SnapshotManifest, SNAPSHOT_LEVEL,
};
use agentstate::traits::{GetOptions, WatchFilter};
use agentstate::walbin::{replay, scan_segment, RecType};
use agentstate::watch::WatchConfig;

const SECOND: i64 = 1_000_000_000;

fn request(id: &str, body: &str) -> PutRequest {
    PutRequest {
        kind: "t".to_string(),
        body: body.to_string(),
        tags: Tags::from_pairs(vec![("k".to_string(), "v".to_string())]),
        ttl_seconds: None,
        id: Some(id.to_string()),
        parents: Vec::new(),
    }
}

fn object(ns: &str, id: &str, seq: u64) -> Object {
    Object {
        id: id.to_string(),
        ns: ns.to_string(),
        kind: "t".to_string(),
        body: "{}".to_string(),
        tags: Tags::new(),
        ttl_seconds: None,
        parents: Vec::new(),
        commit: format!("c{}", seq),
        ts: 0,
        commit_seq: seq,
    }
}

fn logged(seq: u64, body: RecBody) -> LoggedRecord {
    LoggedRecord { seq, ts: 100, body }
}

fn put_record(ns: &str, id: &str, seq: u64) -> RecBody {
    RecBody::Put { ns: ns.to_string(), obj: object(ns, id, seq) }
}

fn delete_record(ns: &str, id: &str) -> RecBody {
    RecBody::Delete { ns: ns.to_string(), id: id.to_string() }
}

fn open_empty() -> PersistentStore {
    PersistentStore::open(Manifest::fresh(), Vec::new(), Vec::new(), WatchConfig::standard())
}

// A line for an object, as the tool that writes snapshots would render it.
fn line_of(o: &Object) -> String {
    format!("{}|{}|{}|{}", o.ns, o.id, o.commit_seq, o.body)
}

fn object_of(line: &str) -> Object {
    let parts: Vec<&str> = line.splitn(4, '|').collect();
    let mut o = object(parts[0], parts[1], parts[2].parse().unwrap());
    o.body = parts[3].to_string();
    o
}

#[test]
fn snapshot_trim_and_restart_keep_every_object() {
    let mut store = open_empty();
    let mut wal = agentstate::groupcommit::WalState { manifest: Manifest::fresh(), segment_bytes: 0 };
    wal.manifest.open_segment();
    let mut segments: Vec<Vec<u8>> = vec![Vec::new()];
    for i in 0..100 {
        let (o, entry) = store
            .put_at("a", request(&format!("o{}", i), "{}"), String::new(), i as i64 * SECOND)
            .unwrap();
        assert_eq!(entry.seq, i + 1);
        let frame = entry.frame(line_of(&o).as_bytes()).unwrap();
        let batch = agentstate::groupcommit::Batch::begin(frame.len(), entry.seq);
        segments.last_mut().unwrap().extend_from_slice(&frame);
        wal.flushed(&batch);
        if wal.rotate_if_due(1500).is_some() {
            segments.push(Vec::new());
        }
        store.acknowledged(entry.seq);
    }
    assert!(segments.len() > 3);
    assert_eq!(segments.len(), wal.manifest.segments.len());
    assert_eq!(store.manifest.last_seq, 100);
    assert_eq!(wal.manifest.last_seq, 100);

    // Snapshot.
    store.manifest = wal.manifest.clone();
    let plan = store.snapshot("01ARZ3NDEKTSV4RRFFQ69G5FAV");
    assert_eq!(plan.file_name, "snap-01ARZ3NDEKTSV4RRFFQ69G5FAV.zst");
    assert_eq!(plan.objects.len(), 100);
    let lines: Vec<String> = plan.objects.iter().map(line_of).collect();
    let file = encode_snapshot(&lines).unwrap();
    let (id, last) = store.snapshot_written(plan.file_name);
    assert_eq!(last, 100);

    // Trim.
    let before = store.manifest.segments.len();
    let deleted = store.admin_trim_wal(&id).unwrap();
    assert!(!deleted.is_empty());
    assert_eq!(deleted.len() + store.manifest.segments.len(), before);
    assert_eq!(deleted[0], "00000001.wal");
    let manifest = store.admin_manifest();
    assert_eq!(manifest.last_seq, 100);
    assert_eq!(manifest.snapshot_bookmark, Some(100));
    let kept: Vec<Vec<u8>> = manifest
        .segments
        .iter()
        .map(|s| {
            let n: usize = s.name.trim_end_matches(".wal").parse().unwrap();
            segments[n - 1].clone()
        })
        .collect();
    // The log alone no longer holds every object.
    let tail = replay(&kept);
    assert!(tail.len() < 100);
    assert!(tail.iter().all(|f| f.rtype == RecType::Put.code()));

    // Restart: the snapshot, then what is left of the log.
    let seed: Vec<Object> = decode_snapshot(&file).unwrap().iter().map(|l| object_of(l)).collect();
    assert_eq!(seed.len(), 100);
    let records: Vec<LoggedRecord> = tail
        .iter()
        .map(|f| {
            let o = object_of(std::str::from_utf8(&f.body).unwrap());
            LoggedRecord { seq: f.seq, ts: f.ts, body: RecBody::Put { ns: o.ns.clone(), obj: o } }
        })
        .collect();
    let bodies: Vec<RecBody> = tail
        .iter()
        .map(|f| {
            let o = object_of(std::str::from_utf8(&f.body).unwrap());
            RecBody::Put { ns: o.ns.clone(), obj: o }
        })
        .collect();
    let restarted = PersistentStore::open(manifest, seed.clone(), records, WatchConfig::standard());
    let current = restarted.mem.all_objects();
    assert_eq!(current.len(), 100);
    let mut ids: Vec<String> = current.iter().map(|o| o.id.clone()).collect();
    ids.sort();
    let mut expected: Vec<String> = (0..100).map(|i| format!("o{}", i)).collect();
    expected.sort();
    assert_eq!(ids, expected);
    assert_eq!(restarted.mem.counter("a"), 100);
    assert_eq!(restarted.manifest.last_seq, 100);
    // A subscriber that resumes is given what the log holds, each change once.
    let mut restarted = restarted;
    let h = restarted.mem.subscribe(WatchFilter { ns: "a".to_string() }, Some(0)).unwrap();
    let mut seen = Vec::new();
    while let Some(ev) = restarted.mem.try_next(h) {
        seen.push(ev.commit_seq());
    }
    assert_eq!(seen.len(), tail.len());
    assert_eq!(seen, tail.iter().map(|f| f.seq).collect::<Vec<u64>>());
    let mut once = seen.clone();
    once.dedup();
    assert_eq!(once, seen);
    for o in &current {
        let seq: u64 = o.id[1..].parse::<u64>().unwrap() + 1;
        assert_eq!(o.commit_seq, seq);
    }

    // The restore tool reports the same.
    let (objects, report) = restore(seed, bodies);
    assert_eq!(report.last_seq, 100);
    assert!(report.crc_ok && report.index_consistent);
    assert_eq!(report.objects, objects.len());
    let mut ids: Vec<String> = objects.iter().map(|o| o.id.clone()).collect();
    ids.sort();
    ids.dedup();
    assert_eq!(ids, expected);
    let (objects, report) = restore(
        decode_snapshot(&file).unwrap().iter().map(|l| object_of(l)).collect(),
        Vec::new(),
    );
    assert_eq!(objects.len(), 100);
    assert_eq!(report, RestoreReport { last_seq: 100, objects: 100, crc_ok: true, index_consistent: true });
}

#[test]
fn the_log_alone_rebuilds_the_store() {
    let mut store = open_empty();
    let mut records = Vec::new();
    let mut segment = Vec::new();
    for i in 0..5 {
        let (_, entry) = store
            .put_at("a", request(&format!("o{}", i), "{\"n\":1}"), String::new(), 7 * SECOND)
            .unwrap();
        segment.extend_from_slice(&entry.frame(b"body").unwrap());
        records.push(entry);
    }
    let entry = store.delete_at("a", "o1", 8 * SECOND).unwrap();
    segment.extend_from_slice(&entry.frame(b"body").unwrap());
    records.push(entry);
    // What replay reads has the header of what was written.
    let frames = scan_segment(&segment);
    assert_eq!(frames.iter().map(|f| f.seq).collect::<Vec<u64>>(), vec![1, 2, 3, 4, 5, 6]);
    assert_eq!(frames.iter().map(|f| f.ts).collect::<Vec<u64>>(), vec![7, 7, 7, 7, 7, 8]);
    assert_eq!(frames.iter().map(|f| f.rtype).collect::<Vec<u8>>(), vec![1, 1, 1, 1, 1, 2]);
    let logged: Vec<LoggedRecord> = records
        .into_iter()
        .zip(frames.iter())
        .map(|(e, f)| LoggedRecord { seq: f.seq, ts: f.ts, body: e.body })
        .collect();
    let rebuilt = rebuild(Vec::new(), logged, WatchConfig::standard());
    let mut ids: Vec<String> = rebuilt.all_objects().into_iter().map(|o| o.id).collect();
    ids.sort();
    assert_eq!(ids, vec!["o0", "o2", "o3", "o4"]);
    // The delete keeps its number, and the counter stands where it stood.
    assert_eq!(rebuilt.counter("a"), 6);
    assert_eq!(store.mem.counter("a"), 6);
    // The index was rebuilt too.
    let req = QueryRequest {
        tag_filter: Some(TagFilter(vec![("k".to_string(), "v".to_string())])),
        jsonpath: None,
        limit: None,
        fields: None,
    };
    assert_eq!(rebuilt.query_at("a", req, 0).unwrap().len(), 4);
    assert!(matches!(
        rebuilt.get_at("a", "o1", GetOptions { at_ts: None }, 0),
        Err(StateError::NotFound)
    ));
}

#[test]
fn replay_raises_the_counters_and_keeps_the_numbers_of_deletes() {
    let mut store = InMemoryStore::new();
    replay_record(&mut store, logged(7, put_record("a", "x", 7)));
    replay_record(&mut store, logged(3, put_record("a", "y", 3)));
    replay_record(&mut store, logged(2, put_record("b", "z", 2)));
    assert_eq!(store.counter("a"), 7);
    assert_eq!(store.counter("b"), 2);
    replay_record(&mut store, logged(8, delete_record("a", "x")));
    replay_record(&mut store, logged(5, delete_record("c", "none")));
    assert_eq!(store.counter("a"), 8);
    assert_eq!(store.counter("c"), 5);
    let h = store.subscribe(WatchFilter { ns: "a".to_string() }, Some(0)).unwrap();
    let mut seen = Vec::new();
    while let Some(ev) = store.try_next(h) {
        seen.push(ev.commit_seq());
    }
    assert_eq!(seen, vec![7, 3, 8]);
    // New writes go on above what was replayed.
    assert_eq!(store.put("a", request("n", "{}")).unwrap().commit_seq, 9);
    assert_eq!(store.put("c", request("n", "{}")).unwrap().commit_seq, 6);
}

#[test]
fn a_restart_reuses_no_number() {
    // A put, then a delete of the same object: numbers 1 and 2.
    let mut store = open_empty();
    let mut segment = Vec::new();
    let mut entries = Vec::new();
    let (_, entry) = store.put_at("a", request("x", "{}"), String::new(), SECOND).unwrap();
    assert_eq!(entry.seq, 1);
    segment.extend_from_slice(&entry.frame(b"put").unwrap());
    entries.push(entry);
    let entry = store.delete_at("a", "x", 2 * SECOND).unwrap();
    assert_eq!(entry.seq, 2);
    segment.extend_from_slice(&entry.frame(b"delete").unwrap());
    entries.push(entry);
    assert_eq!(store.mem.counter("a"), 2);

    // The store rebuilt from its own two records.
    let frames = scan_segment(&segment);
    assert_eq!(frames.iter().map(|f| f.seq).collect::<Vec<u64>>(), vec![1, 2]);
    let records: Vec<LoggedRecord> = entries
        .into_iter()
        .zip(frames.iter())
        .map(|(e, f)| LoggedRecord { seq: f.seq, ts: f.ts, body: e.body })
        .collect();
    let mut restarted =
        PersistentStore::open(Manifest::fresh(), Vec::new(), records, WatchConfig::standard());
    assert_eq!(restarted.mem.counter("a"), 2);
    assert!(restarted.mem.all_objects().is_empty());

    // A subscriber that resumes after commit 1 is handed the delete.
    let h = restarted.mem.subscribe(WatchFilter { ns: "a".to_string() }, Some(1)).unwrap();
    match restarted.mem.try_next(h) {
        Some(agentstate::traits::WatchEvent::Delete { ns, id, commit_seq }) => {
            assert_eq!((ns.as_str(), id.as_str(), commit_seq), ("a", "x", 2));
        },
        other => panic!("unexpected: {:?}", other),
    }
    assert!(restarted.mem.try_next(h).is_none());
    // From the start it is handed both, in order.
    let h = restarted.mem.subscribe(WatchFilter { ns: "a".to_string() }, Some(0)).unwrap();
    let mut seen = Vec::new();
    while let Some(ev) = restarted.mem.try_next(h) {
        seen.push(ev.commit_seq());
    }
    assert_eq!(seen, vec![1, 2]);

    // The next put gets a number that was never used, and so does its delete.
    let (o, entry) =
        restarted.put_at("a", request("y", "{}"), String::new(), 3 * SECOND).unwrap();
    assert_eq!(o.commit_seq, 3);
    assert_eq!(entry.seq, 3);
    assert_eq!(restarted.delete_at("a", "y", 4 * SECOND).unwrap().seq, 4);
}

#[test]
fn replay_installs_leases_and_idempotency_records_again() {
    let records = vec![
        LoggedRecord {
            seq: 0,
            ts: 100,
            body: RecBody::LeaseAcquire {
                ns: "n".to_string(),
                key: "r".to_string(),
                owner: "o1".to_string(),
                token: 4,
                ttl: 60,
            },
        },
        LoggedRecord {
            seq: 0,
            ts: 130,
            body: RecBody::LeaseRenew {
                ns: "n".to_string(),
                key: "r".to_string(),
                owner: "o1".to_string(),
                token: 4,
                ttl: 60,
            },
        },
        LoggedRecord {
            seq: 0,
            ts: 100,
            body: RecBody::LeaseAcquire {
                ns: "n".to_string(),
                key: "s".to_string(),
                owner: "o2".to_string(),
                token: 5,
                ttl: 60,
            },
        },
        LoggedRecord {
            seq: 0,
            ts: 101,
            body: RecBody::LeaseRelease {
                ns: "n".to_string(),
                key: "s".to_string(),
                owner: "o2".to_string(),
                token: 5,
            },
        },
        LoggedRecord {
            seq: 0,
            ts: 101,
            body: RecBody::LeaseRelease {
                ns: "n".to_string(),
                key: "r".to_string(),
                owner: "o2".to_string(),
                token: 4,
            },
        },
        LoggedRecord {
            seq: 0,
            ts: 102,
            body: RecBody::Idempotency {
                ns: "n".to_string(),
                key: "k".to_string(),
                body_hash: "h".to_string(),
                response: "{\"ok\":true}".to_string(),
                commit_seq: 3,
                expires_ts: 700,
            },
        },
        LoggedRecord {
            seq: 0,
            ts: 102,
            body: RecBody::Idempotency {
                ns: "n".to_string(),
                key: "bad".to_string(),
                body_hash: "h".to_string(),
                response: "oops".to_string(),
                commit_seq: 3,
                expires_ts: 700,
            },
        },
    ];
    let mut store = rebuild(Vec::new(), records, WatchConfig::standard());
    assert!(store.validate_fence_at("n", "r", 4, 189 * SECOND).is_ok());
    assert!(store.validate_fence_at("n", "r", 4, 190 * SECOND).is_err());
    assert!(store.validate_fence_at("n", "s", 5, 101 * SECOND).is_err());
    // Tokens minted before the restart are not minted again.
    assert_eq!(store.counter("n"), 5);
    assert_eq!(store.lease_acquire_at("n", "t", "o3", 1, 0).unwrap().token, 6);
    let rec = store.idempotency_lookup("n", "k", "h").unwrap().unwrap();
    assert_eq!(rec.response, "{\"ok\":true}");
    assert_eq!(rec.commit_seq, 3);
    assert_eq!(rec.expires_at, 700 * SECOND);
    assert!(store.idempotency_lookup("n", "bad", "h").unwrap().is_none());
}

#[test]
fn every_change_yields_its_record() {
    let mut store = open_empty();
    let now = 5 * SECOND + 999_999_999;
    let (o, entry) = store.put_at("a", request("x", "{}"), String::new(), now).unwrap();
    assert_eq!((entry.seq, entry.ts), (1, 5));
    assert_eq!(entry.body.rectype(), RecType::Put);
    match &entry.body {
        RecBody::Put { ns, obj } => {
            assert_eq!(ns, "a");
            assert_eq!(obj.commit, o.commit);
        },
        other => panic!("unexpected: {:?}", other),
    }
    let (lease, entry) = store.lease_acquire_at("a", "r", "o1", 60, now).unwrap();
    assert_eq!((entry.seq, entry.ts), (0, 5));
    match &entry.body {
        RecBody::LeaseAcquire { ns, key, owner, token, ttl } => {
            assert_eq!((ns.as_str(), key.as_str(), owner.as_str(), *token, *ttl), ("a", "r", "o1", 2, 60));
        },
        other => panic!("unexpected: {:?}", other),
    }
    let (_, entry) = store.lease_renew_at("a", "r", "o1", lease.token, 30, now).unwrap();
    assert_eq!(entry.body.rectype(), RecType::LeaseRenew);
    assert!(matches!(entry.body, RecBody::LeaseRenew { token: 2, ttl: 30, .. }));
    let entry = store.lease_release_at("a", "r", "o1", lease.token, now).unwrap();
    assert_eq!(entry.body.rectype(), RecType::LeaseRelease);
    let entry = store
        .idempotency_commit_at("a", "k", "h", "[1]".to_string(), 1, 605 * SECOND + 1, now)
        .unwrap();
    assert_eq!(entry.body.rectype(), RecType::Idempotency);
    match &entry.body {
        RecBody::Idempotency { body_hash, response, commit_seq, expires_ts, .. } => {
            assert_eq!((body_hash.as_str(), response.as_str(), *commit_seq, *expires_ts), ("h", "[1]", 1, 605));
        },
        other => panic!("unexpected: {:?}", other),
    }
    let entry = store.delete_at("a", "x", now).unwrap();
    // The put took 1 and the lease 2; the delete is given 3.
    assert_eq!((entry.seq, entry.ts), (3, 5));
    assert_eq!(entry.body.rectype(), RecType::Delete);
    // A change that fails yields no record.
    assert!(matches!(store.delete_at("a", "x", now), Err(StateError::NotFound)));
    assert!(matches!(store.lease_release_at("a", "r", "o1", 2, now), Err(StateError::NotFound)));
    assert!(matches!(
        store.idempotency_commit_at("a", "k", "h", "x".to_string(), 1, 0, now),
        Err(StateError::Invalid(_))
    ));
}

#[test]
fn an_acknowledgement_never_lowers_what_is_durable() {
    let mut store = open_empty();
    store.acknowledged(5);
    assert_eq!(store.manifest.last_seq, 5);
    store.acknowledged(3);
    assert_eq!(store.manifest.last_seq, 5);
    store.acknowledged(0);
    assert_eq!(store.admin_manifest().last_seq, 5);
}

#[test]
fn a_body_too_long_for_a_record_is_not_framed() {
    let entry = WalEntry { seq: 1, ts: 2, body: delete_record("a", "x") };
    assert!(entry.frame(b"").is_some());
    assert_eq!(entry.frame(b"abc").unwrap()[5], 2);
}

#[test]
fn instants_and_seconds() {
    assert_eq!(secs_from_instant(0), 0);
    assert_eq!(secs_from_instant(SECOND - 1), 0);
    assert_eq!(secs_from_instant(SECOND), 1);
    assert_eq!(secs_from_instant(-1), -1);
    assert_eq!(secs_from_instant(-SECOND), -1);
    assert_eq!(secs_from_instant(-SECOND - 1), -2);
    assert_eq!(secs_from_instant(i64::MAX), 9_223_372_036);
    assert_eq!(secs_from_instant(i64::MIN), -9_223_372_037);
    for now in [0i64, 1, -1, 999_999_999, -999_999_999, 1_000_000_001, -1_000_000_001, i64::MAX, i64::MIN] {
        assert_eq!(secs_from_instant(now), now.div_euclid(SECOND));
    }
    assert_eq!(instant_from_secs(0), 0);
    assert_eq!(instant_from_secs(3), 3 * SECOND);
    assert_eq!(instant_from_secs(-3), -3 * SECOND);
    assert_eq!(instant_from_secs(9_223_372_036), 9_223_372_036 * SECOND);
    assert_eq!(instant_from_secs(9_223_372_037), i64::MAX);
    assert_eq!(instant_from_secs(-9_223_372_037), i64::MIN);
    assert_eq!(instant_from_secs(u64::MAX as i128), i64::MAX);
    assert_eq!(instant_from_secs(i64::MIN as i128), i64::MIN);
}

#[test]
fn snapshot_files_are_named_by_their_id() {
    assert_eq!(snapshot_name("01ARZ3NDEKTSV4RRFFQ69G5FAV"), "snap-01ARZ3NDEKTSV4RRFFQ69G5FAV.zst");
    assert_eq!(snapshot_name(""), "snap-.zst");
    assert_eq!(SNAPSHOT_LEVEL, 3);
    let m = SnapshotManifest { created_ts: 1, objects: 2, path: "p".to_string() };
    let c = m.clone();
    assert_eq!((c.created_ts, c.objects, c.path.as_str()), (1, 2, "p"));
}

#[test]
fn a_snapshot_is_compressed_lines() {
    let lines = vec!["{\"a\":1}".to_string(), "{\"b\":\"\u{e9}\"}".to_string()];
    assert_eq!(join_lines(&lines), "{\"a\":1}\n{\"b\":\"\u{e9}\"}\n");
    assert_eq!(join_lines(&Vec::new()), "");
    let file = encode_snapshot(&lines).unwrap();
    // The file is a Zstandard frame, not the text itself.
    assert_eq!(&file[..4], &[0x28, 0xb5, 0x2f, 0xfd]);
    assert_ne!(file, join_lines(&lines).into_bytes());
    assert_eq!(zstd::decode_all(&file[..]).unwrap(), join_lines(&lines).into_bytes());
    assert_eq!(decode_snapshot(&file), Some(lines));
    let big: Vec<String> = (0..2000).map(|i| format!("{{\"n\":{}}}", i % 7)).collect();
    let file = encode_snapshot(&big).unwrap();
    assert!(file.len() < join_lines(&big).len() / 4);
    assert_eq!(decode_snapshot(&file), Some(big));
    assert_eq!(decode_snapshot(&encode_snapshot(&Vec::new()).unwrap()), Some(Vec::new()));
}

#[test]
fn a_file_that_is_no_snapshot_is_refused() {
    assert_eq!(decode_snapshot(b"plain text"), None);
    assert_eq!(decode_snapshot(&[0x28, 0xb5, 0x2f, 0xfd, 0xff]), None);
    let not_text = zstd::encode_all(&[0xffu8, 0xfe, 0x00][..], 3).unwrap();
    assert_eq!(decode_snapshot(&not_text), None);
    let text = zstd::encode_all(&b"a\n\n b \r\n"[..], 19).unwrap();
    assert_eq!(decode_snapshot(&text), Some(vec!["a".to_string(), " b ".to_string()]));
}

#[test]
fn blank_lines_are_left_out() {
    let lines = |s: &str| lines_of_snapshot(s);
    assert_eq!(lines(""), Vec::<String>::new());
    assert_eq!(lines("\n\n"), Vec::<String>::new());
    assert_eq!(lines("a"), vec!["a"]);
    assert_eq!(lines("a\n"), vec!["a"]);
    assert_eq!(lines("a\nb"), vec!["a", "b"]);
    assert_eq!(lines("a\r\nb\r\n"), vec!["a", "b"]);
    assert_eq!(lines("a\r"), vec!["a\r"]);
    assert_eq!(lines("a\r\n\r"), vec!["a"]);
    assert_eq!(lines("a\r\r\n"), vec!["a\r"]);
    assert_eq!(lines("\r\n \t\n\u{3000}\nx y \n"), vec!["x y "]);
    assert_eq!(lines(" a\n\n\nb "), vec![" a", "b "]);
    for text in ["", "a", "a\nb\n", "a\r\nb", "\n\n a \n", "x\r", "\r\n\r\n", " \u{a0} \ny"] {
        let expected: Vec<String> =
            text.lines().filter(|l| !l.trim().is_empty()).map(|l| l.to_string()).collect();
        assert_eq!(lines(text), expected);
    }
}

#[test]
fn restore_applies_the_log_to_the_snapshot() {
    let seed = vec![object("a", "x", 1), object("a", "y", 2), object("b", "x", 1)];
    let tail = vec![
        put_record("a", "z", 3),
        delete_record("a", "x"),
        RecBody::LeaseRelease {
            ns: "a".to_string(),
            key: "r".to_string(),
            owner: "o".to_string(),
            token: 1,
        },
        put_record("a", "y", 9),
        delete_record("b", "none"),
    ];
    let (objects, report) = restore(seed, tail);
    let got: Vec<(String, String, u64)> =
        objects.iter().map(|o| (o.ns.clone(), o.id.clone(), o.commit_seq)).collect();
    assert_eq!(
        got,
        vec![
            ("a".to_string(), "y".to_string(), 2),
            ("b".to_string(), "x".to_string(), 1),
            ("a".to_string(), "z".to_string(), 3),
            ("a".to_string(), "y".to_string(), 9),
        ]
    );
    assert_eq!(report, RestoreReport { last_seq: 9, objects: 4, crc_ok: true, index_consistent: true });
}

#[test]
fn restore_of_nothing_reports_nothing() {
    let (objects, report) = restore(Vec::new(), Vec::new());
    assert!(objects.is_empty());
    assert_eq!(report, RestoreReport { last_seq: 0, objects: 0, crc_ok: true, index_consistent: true });
    let (objects, report) = restore(vec![object("a", "x", 4)], vec![delete_record("a", "x")]);
    assert!(objects.is_empty());
    assert_eq!(report.last_seq, 0);
    assert_eq!(report.objects, 0);
}

#[test]
fn seeding_from_a_snapshot_logs_nothing() {
    let mut store = rebuild(
        vec![object("a", "x", 4), object("a", "y", 9), object("b", "z", 2)],
        vec![logged(10, put_record("a", "x", 10)), logged(11, delete_record("a", "y"))],
        WatchConfig::standard(),
    );
    assert_eq!(store.counter("a"), 11);
    assert_eq!(store.counter("b"), 2);
    let mut ids: Vec<(String, u64)> =
        store.all_objects().into_iter().map(|o| (o.id, o.commit_seq)).collect();
    ids.sort();
    assert_eq!(ids, vec![("x".to_string(), 10), ("z".to_string(), 2)]);
    let h = store.subscribe(WatchFilter { ns: "a".to_string() }, Some(0)).unwrap();
    let mut seen = Vec::new();
    while let Some(ev) = store.try_next(h) {
        seen.push(ev.commit_seq());
    }
    assert_eq!(seen, vec![10, 11]);
    let h = store.subscribe(WatchFilter { ns: "b".to_string() }, Some(0)).unwrap();
    assert!(store.try_next(h).is_none());
    let mut seeded = InMemoryStore::new();
    seeded.seed(object("a", "x", 4));
    assert_eq!(seeded.counter("a"), 4);
    assert_eq!(seeded.all_objects().len(), 1);
    let h = seeded.subscribe(WatchFilter { ns: "a".to_string() }, Some(0)).unwrap();
    assert!(seeded.try_next(h).is_none());
}
