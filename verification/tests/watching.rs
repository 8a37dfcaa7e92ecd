use agentstate::mem::InMemoryStore;
use agentstate::model::{Object, PutRequest, Tags};
use agentstate::traits::{serialized_len, WatchEvent, WatchFilter};
use agentstate::watch::{WatchBuffer, WatchConfig};

fn request(id: &str, body: &str) -> PutRequest {
    PutRequest {
        kind: "t".to_string(),
        body: body.to_string(),
        tags: Tags::new(),
        ttl_seconds: None,
        id: Some(id.to_string()),
        parents: Vec::new(),
    }
}

fn filter(ns: &str) -> WatchFilter {
    WatchFilter { ns: ns.to_string() }
}

fn small(max_events: usize) -> WatchConfig {
    WatchConfig { max_events, max_bytes: 1 << 20, retry_min_ms: 250, retry_max_ms: 4000 }
}

fn object(ns: &str, id: &str, body: &str, seq: u64) -> Object {
    Object {
        id: id.to_string(),
        ns: ns.to_string(),
        kind: "t".to_string(),
        body: body.to_string(),
        tags: Tags::new(),
        ttl_seconds: None,
        parents: Vec::new(),
        commit: String::new(),
        ts: 0,
        commit_seq: seq,
    }
}

fn seq_of(ev: &WatchEvent) -> u64 {
    ev.commit_seq()
}

#[test]
fn watch_resume_delivers_only_what_came_after() {
    let mut store = InMemoryStore::new();
    let first = store.subscribe(filter("a"), None).unwrap();
    store.put("a", request("A", "{}")).unwrap();
    store.put("a", request("B", "{}")).unwrap();
    assert!(store.unsubscribe(first));
    let again = store.subscribe(filter("a"), Some(1)).unwrap();
    let ev = store.try_next(again).unwrap();
    match &ev {
        WatchEvent::Put(o) => {
            assert_eq!(o.id, "B");
            assert_eq!(o.commit_seq, 2);
        },
        other => panic!("unexpected: {:?}", other),
    }
    assert!(store.try_next(again).is_none());
    assert_eq!(store.last_commit(again), Some(2));
}

#[test]
fn subscribers_get_the_changes_of_their_namespace_in_commit_order() {
    let mut store = InMemoryStore::new();
    let a = store.subscribe(filter("a"), None).unwrap();
    let b = store.subscribe(filter("b"), None).unwrap();
    store.put("a", request("x", "{}")).unwrap();
    store.put("b", request("y", "{}")).unwrap();
    store.put("a", request("z", "{}")).unwrap();
    store.delete("a", "x").unwrap();
    let mut seen = Vec::new();
    while let Some(ev) = store.try_next(a) {
        assert_eq!(ev.namespace(), "a");
        seen.push(seq_of(&ev));
    }
    assert_eq!(seen, vec![1, 2, 3]);
    let only = store.try_next(b).unwrap();
    assert_eq!(seq_of(&only), 1);
    assert!(store.try_next(b).is_none());
    assert_eq!(store.last_commit(a), Some(3));
}

#[test]
fn a_delete_is_delivered_as_a_delete() {
    let mut store = InMemoryStore::new();
    let h = store.subscribe(filter("a"), None).unwrap();
    store.put("a", request("x", "{}")).unwrap();
    store.delete("a", "x").unwrap();
    store.try_next(h).unwrap();
    match store.try_next(h).unwrap() {
        WatchEvent::Delete { ns, id, commit_seq } => {
            assert_eq!(ns, "a");
            assert_eq!(id, "x");
            assert_eq!(commit_seq, 2);
        },
        other => panic!("unexpected: {:?}", other),
    }
}

#[test]
fn resume_after_k_gives_exactly_the_later_commits() {
    let mut store = InMemoryStore::new();
    for i in 0..6 {
        store.put("a", request(&format!("o{}", i), "{}")).unwrap();
        store.put("b", request(&format!("p{}", i), "{}")).unwrap();
    }
    for k in 0..=7u64 {
        let h = store.subscribe(filter("a"), Some(k)).unwrap();
        assert_eq!(store.last_commit(h), Some(k));
        let mut seen = Vec::new();
        while let Some(ev) = store.try_next(h) {
            seen.push(seq_of(&ev));
        }
        let expected: Vec<u64> = (k + 1..=6).collect();
        assert_eq!(seen, expected);
        assert_eq!(store.overflow_meta(h), None);
    }
}

#[test]
fn a_new_subscriber_without_a_resume_point_starts_empty() {
    let mut store = InMemoryStore::new();
    store.put("a", request("x", "{}")).unwrap();
    let h = store.subscribe(filter("a"), None).unwrap();
    assert!(store.try_next(h).is_none());
    assert_eq!(store.last_commit(h), Some(0));
    store.put("a", request("y", "{}")).unwrap();
    assert_eq!(seq_of(&store.try_next(h).unwrap()), 2);
}

#[test]
fn overflow_is_reported_with_the_last_commit_and_a_retry_hint() {
    let mut store = InMemoryStore::with_config(small(3));
    let h = store.subscribe(filter("a"), None).unwrap();
    for i in 0..5 {
        store.put("a", request(&format!("o{}", i), "{}")).unwrap();
    }
    let (last, retry) = store.overflow_meta(h).unwrap();
    assert_eq!(last, 0);
    assert!((250..=4000).contains(&retry));
    assert_eq!(retry, 2125);
    // The buffer did not grow past its cap.
    let backlog = store.backlog_map();
    assert_eq!(backlog, vec![("a".to_string(), 3)]);
    // What was queued before the overflow is still delivered, in order.
    assert_eq!(seq_of(&store.try_next(h).unwrap()), 1);
    assert_eq!(seq_of(&store.try_next(h).unwrap()), 2);
    assert_eq!(seq_of(&store.try_next(h).unwrap()), 3);
    assert!(store.try_next(h).is_none());
    assert_eq!(store.overflow_meta(h), Some((3, 2125)));
}

#[test]
fn a_backlog_beyond_the_cap_overflows_at_once() {
    let mut store = InMemoryStore::with_config(small(2));
    for i in 0..4 {
        store.put("a", request(&format!("o{}", i), "{}")).unwrap();
    }
    let h = store.subscribe(filter("a"), Some(0)).unwrap();
    assert_eq!(store.overflow_meta(h), Some((0, 2125)));
    assert_eq!(seq_of(&store.try_next(h).unwrap()), 1);
    assert_eq!(seq_of(&store.try_next(h).unwrap()), 2);
    assert!(store.try_next(h).is_none());
}

#[test]
fn an_unknown_handle_gets_nothing() {
    let mut store = InMemoryStore::new();
    assert!(store.try_next(7).is_none());
    assert_eq!(store.last_commit(7), None);
    assert_eq!(store.overflow_meta(7), None);
    assert!(!store.unsubscribe(7));
}

#[test]
fn unsubscribing_twice_does_no_harm() {
    let mut store = InMemoryStore::new();
    let h = store.subscribe(filter("a"), None).unwrap();
    let other = store.subscribe(filter("a"), None).unwrap();
    assert_ne!(h, other);
    assert!(store.unsubscribe(h));
    assert!(!store.unsubscribe(h));
    store.put("a", request("x", "{}")).unwrap();
    assert!(store.try_next(h).is_none());
    assert!(store.try_next(other).is_some());
    assert_eq!(store.backlog_map(), vec![("a".to_string(), 0)]);
}

#[test]
fn backlog_map_gives_the_greatest_backlog_of_each_namespace() {
    let mut store = InMemoryStore::new();
    assert!(store.backlog_map().is_empty());
    let slow = store.subscribe(filter("a"), None).unwrap();
    let fast = store.subscribe(filter("a"), None).unwrap();
    let other = store.subscribe(filter("b"), None).unwrap();
    for i in 0..3 {
        store.put("a", request(&format!("o{}", i), "{}")).unwrap();
    }
    store.put("b", request("p", "{}")).unwrap();
    store.try_next(fast).unwrap();
    store.try_next(fast).unwrap();
    let mut map = store.backlog_map();
    map.sort();
    assert_eq!(map, vec![("a".to_string(), 3), ("b".to_string(), 1)]);
    store.try_next(slow).unwrap();
    store.try_next(other).unwrap();
    let mut map = store.backlog_map();
    map.sort();
    assert_eq!(map, vec![("a".to_string(), 2), ("b".to_string(), 0)]);
}

#[test]
fn the_standard_limits() {
    let cfg = WatchConfig::standard();
    assert_eq!(cfg.max_events, 10_000);
    assert_eq!(cfg.max_bytes, 64 * 1024 * 1024);
    assert_eq!(cfg.retry_min_ms, 250);
    assert_eq!(cfg.retry_max_ms, 4000);
    let store = InMemoryStore::new();
    assert_eq!(store.config().max_events, 10_000);
}

// The JSON document of a version, as it is written out.
fn document(o: &Object) -> Vec<u8> {
    let mut tags = serde_json::Map::new();
    for (k, v) in o.tags.pairs() {
        tags.insert(k.clone(), serde_json::Value::String(v.clone()));
    }
    let mut doc = serde_json::Map::new();
    doc.insert("id".to_string(), serde_json::Value::from(o.id.clone()));
    doc.insert("ns".to_string(), serde_json::Value::from(o.ns.clone()));
    doc.insert("type".to_string(), serde_json::Value::from(o.kind.clone()));
    doc.insert("body".to_string(), serde_json::from_str(&o.body).unwrap());
    doc.insert("tags".to_string(), serde_json::Value::Object(tags));
    doc.insert("ttl_seconds".to_string(), serde_json::Value::from(o.ttl_seconds));
    doc.insert("parents".to_string(), serde_json::Value::from(o.parents.clone()));
    doc.insert("commit".to_string(), serde_json::Value::from(o.commit.clone()));
    doc.insert(
        "ts".to_string(),
        serde_json::to_value(chrono::DateTime::from_timestamp_nanos(o.ts)).unwrap(),
    );
    doc.insert("commit_seq".to_string(), serde_json::Value::from(o.commit_seq));
    serde_json::to_vec(&serde_json::Value::Object(doc)).unwrap()
}

#[test]
fn a_put_weighs_what_its_version_takes_as_json() {
    let plain = object("a", "x", "{\"x\":1}", 1);
    let text = document(&plain);
    assert_eq!(
        String::from_utf8(text.clone()).unwrap(),
        "{\"body\":{\"x\":1},\"commit\":\"\",\"commit_seq\":1,\"id\":\"x\",\"ns\":\"a\",\"parents\":[],\"tags\":{},\"ts\":\"1970-01-01T00:00:00Z\",\"ttl_seconds\":null,\"type\":\"t\"}"
    );
    assert_eq!(serialized_len(&plain), Some(text.len()));
    assert_eq!(WatchEvent::Put(plain).weight(), text.len());

    let mut rich = object("ns \"q\"", "id\n", "{ \"b\" : [1, 2.50, \"\u{e9}\"], \"a\" : null }", u64::MAX);
    rich.kind = "k\\".to_string();
    rich.tags = Tags::from_pairs(vec![
        ("z".to_string(), "1".to_string()),
        ("a\t".to_string(), "\u{1f600}".to_string()),
    ]);
    rich.ttl_seconds = Some(86_400);
    rich.parents = vec!["p1".to_string(), "p\"2".to_string()];
    rich.commit = "c".repeat(64);
    rich.ts = 1_700_000_000_123_456_789;
    let text = document(&rich);
    assert_eq!(serialized_len(&rich), Some(text.len()));
    assert_eq!(WatchEvent::Put(rich).weight(), text.len());

    let early = { let mut o = object("a", "x", "[]", 7); o.ts = -1; o };
    assert_eq!(WatchEvent::Put(early.clone()).weight(), document(&early).len());
}

#[test]
fn a_put_whose_body_is_no_json_weighs_the_fallback() {
    let broken = object("a", "x", "{oops", 1);
    assert_eq!(serialized_len(&broken), None);
    assert_eq!(WatchEvent::Put(broken).weight(), 256);
    assert_eq!(WatchEvent::Put(object("a", "x", "", 1)).weight(), 256);
}

#[test]
fn a_delete_weighs_a_fixed_amount() {
    let del = WatchEvent::Delete { ns: "a".to_string(), id: "x".to_string(), commit_seq: 2 };
    assert_eq!(del.weight(), 64);
    assert_eq!(del.commit_seq(), 2);
    assert_eq!(del.namespace(), "a");
}

#[test]
fn a_buffer_drops_what_would_pass_the_byte_cap() {
    let w = WatchEvent::Put(object("a", "x", "{}", 5)).weight();
    assert_eq!(w, document(&object("a", "x", "{}", 5)).len());
    let cfg = WatchConfig { max_events: 100, max_bytes: 2 * w + 70, retry_min_ms: 10, retry_max_ms: 20 };
    let mut buf = WatchBuffer::new(Some(4));
    buf.push(WatchEvent::Put(object("a", "x", "{}", 5)), &cfg);
    buf.push(WatchEvent::Put(object("a", "y", "{}", 6)), &cfg);
    assert!(!buf.overflowed());
    assert_eq!(buf.overflow_meta(&cfg), None);
    buf.push(WatchEvent::Put(object("a", "z", "{}", 7)), &cfg);
    assert!(buf.overflowed());
    assert_eq!(buf.backlog(), 2);
    assert_eq!(buf.overflow_meta(&cfg), Some((4, 15)));
    // A delete of 64 bytes still fits the bytes, but the buffer stays poisoned.
    buf.push(WatchEvent::Delete { ns: "a".to_string(), id: "x".to_string(), commit_seq: 8 }, &cfg);
    assert_eq!(buf.backlog(), 3);
    assert!(buf.overflowed());
    // A second delete would pass the cap by a few bytes.
    buf.push(WatchEvent::Delete { ns: "a".to_string(), id: "y".to_string(), commit_seq: 9 }, &cfg);
    assert_eq!(buf.backlog(), 3);
    assert_eq!(buf.try_next().unwrap().commit_seq(), 5);
    assert_eq!(buf.last_commit(), 5);
    assert_eq!(buf.backlog(), 2);
    assert_eq!(buf.overflow_meta(&cfg), Some((5, 15)));
    // What was delivered no longer counts against the bytes.
    buf.push(WatchEvent::Delete { ns: "a".to_string(), id: "y".to_string(), commit_seq: 9 }, &cfg);
    assert_eq!(buf.backlog(), 3);
}

#[test]
fn delivered_events_still_count_against_the_cap_on_events() {
    let cfg = small(2);
    let mut buf = WatchBuffer::new(None);
    buf.push(WatchEvent::Put(object("a", "x", "{}", 1)), &cfg);
    buf.push(WatchEvent::Put(object("a", "y", "{}", 2)), &cfg);
    assert!(buf.try_next().is_some());
    assert!(buf.try_next().is_some());
    assert!(buf.try_next().is_none());
    assert_eq!(buf.backlog(), 0);
    buf.push(WatchEvent::Put(object("a", "z", "{}", 3)), &cfg);
    assert!(buf.overflowed());
    assert!(buf.try_next().is_none());
    assert_eq!(buf.last_commit(), 2);
}

#[test]
fn the_retry_hint_is_the_midpoint_even_at_the_ends_of_the_range() {
    let cfg = WatchConfig { max_events: 0, max_bytes: 0, retry_min_ms: u32::MAX, retry_max_ms: u32::MAX };
    let mut buf = WatchBuffer::new(None);
    buf.push(WatchEvent::Delete { ns: "a".to_string(), id: "x".to_string(), commit_seq: 1 }, &cfg);
    assert_eq!(buf.overflow_meta(&cfg), Some((0, u32::MAX)));
    let odd = WatchConfig { max_events: 0, max_bytes: 0, retry_min_ms: 1, retry_max_ms: 4 };
    assert_eq!(buf.overflow_meta(&odd), Some((0, 2)));
}
