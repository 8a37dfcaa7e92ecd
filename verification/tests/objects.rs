use agentstate::clock::{now_or_end, reading_or_end};
use agentstate::errors::StateError;
use agentstate::mem::InMemoryStore;
use agentstate::model::{commit_id, Object, PutRequest, Tags};
use agentstate::traits::GetOptions;

const SECOND: i64 = 1_000_000_000;

fn plain(body: &str) -> PutRequest {
    PutRequest {
        kind: "t".to_string(),
        body: body.to_string(),
        tags: Tags::new(),
        ttl_seconds: None,
        id: None,
        parents: Vec::new(),
    }
}

fn named(id: &str, body: &str) -> PutRequest {
    let mut req = plain(body);
    req.id = Some(id.to_string());
    req
}

fn now_opts() -> GetOptions {
    GetOptions { at_ts: None }
}

#[test]
fn put_then_get_returns_the_same_object() {
    let mut store = InMemoryStore::new();
    let put = store.put("a", plain("{\"x\":1}")).unwrap();
    assert_eq!(put.commit_seq, 1);
    assert_eq!(put.ns, "a");
    assert_eq!(put.kind, "t");
    let got = store.get("a", &put.id, now_opts()).unwrap();
    assert_eq!(got.id, put.id);
    assert_eq!(got.commit, put.commit);
    assert_eq!(got.body, "{\"x\":1}");
    assert_eq!(got.ts, put.ts);
    assert_eq!(got.commit_seq, 1);
}

#[test]
fn put_draws_a_ulid_and_reads_the_clock() {
    let mut store = InMemoryStore::new();
    let first = store.put("a", plain("{}")).unwrap();
    let second = store.put("a", plain("{}")).unwrap();
    assert_eq!(first.id.len(), 26);
    assert_eq!(second.id.len(), 26);
    assert_ne!(first.id, second.id);
    assert!(first.id.chars().all(|c| "0123456789ABCDEFGHJKMNPQRSTVWXYZ".contains(c)));
    // Some time after the year 2020.
    assert!(first.ts > 1_577_836_800 * SECOND);
    assert!(second.ts >= first.ts);
}

#[test]
fn put_keeps_the_id_a_request_names() {
    let mut store = InMemoryStore::new();
    let put = store.put_at("a", named("mine", "{}"), "unused".to_string(), 5).unwrap();
    assert_eq!(put.id, "mine");
    assert_eq!(put.ts, 5);
    let other = store.put_at("a", plain("{}"), "drawn".to_string(), 6).unwrap();
    assert_eq!(other.id, "drawn");
}

#[test]
fn commit_id_is_the_digest_of_the_seed() {
    let mut store = InMemoryStore::new();
    let put = store.put_at("a", named("x", "{ \"x\" : 1 }"), String::new(), 0).unwrap();
    let seed = "a:x:t:1970-01-01T00:00:00+00:00{\"x\":1}";
    let expected = blake3::hash(seed.as_bytes()).to_hex().to_string();
    assert_eq!(put.commit, expected);
    assert_eq!(put.commit.len(), 64);
    assert!(put.commit.chars().all(|c| "0123456789abcdef".contains(c)));
    // The body is kept as it was given.
    assert_eq!(put.body, "{ \"x\" : 1 }");
    assert_eq!(commit_id("a", "x", "t", 0, "{ \"x\" : 1 }"), expected);
}

#[test]
fn commit_id_of_a_body_that_is_not_json_covers_the_head_only() {
    let seed = "a:x:t:1970-01-01T00:00:01.500+00:00";
    let expected = blake3::hash(seed.as_bytes()).to_hex().to_string();
    assert_eq!(commit_id("a", "x", "t", 1_500_000_000, "not json"), expected);
}

#[test]
fn commit_id_changes_with_every_part() {
    let base = commit_id("a", "x", "t", 0, "{}");
    assert_ne!(base, commit_id("b", "x", "t", 0, "{}"));
    assert_ne!(base, commit_id("a", "y", "t", 0, "{}"));
    assert_ne!(base, commit_id("a", "x", "u", 0, "{}"));
    assert_ne!(base, commit_id("a", "x", "t", 1, "{}"));
    assert_ne!(base, commit_id("a", "x", "t", 0, "[]"));
    assert_eq!(base, commit_id("a", "x", "t", 0, " {} "));
}

#[test]
fn new_with_seq_builds_the_version() {
    let o = Object::new_with_seq("ns".to_string(), named("k", "{\"a\":[1,2]}"), 9);
    assert_eq!(o.id, "k");
    assert_eq!(o.ns, "ns");
    assert_eq!(o.commit_seq, 9);
    assert_eq!(o.commit, commit_id("ns", "k", "t", o.ts, "{\"a\":[1,2]}"));
}

#[test]
fn commit_sequence_counts_per_namespace() {
    let mut store = InMemoryStore::new();
    assert_eq!(store.put("a", plain("{}")).unwrap().commit_seq, 1);
    assert_eq!(store.put("a", plain("{}")).unwrap().commit_seq, 2);
    assert_eq!(store.put("b", plain("{}")).unwrap().commit_seq, 1);
    assert_eq!(store.put("a", plain("{}")).unwrap().commit_seq, 3);
    assert_eq!(store.counter("a"), 3);
    assert_eq!(store.counter("b"), 1);
    assert_eq!(store.counter("c"), 0);
}

#[test]
fn delete_takes_a_sequence_number_and_removes_all_versions() {
    let mut store = InMemoryStore::new();
    store.put_at("a", named("x", "{\"v\":1}"), String::new(), 1).unwrap();
    store.put_at("a", named("x", "{\"v\":2}"), String::new(), 2).unwrap();
    store.delete("a", "x").unwrap();
    assert_eq!(store.counter("a"), 3);
    assert!(matches!(store.get_at("a", "x", now_opts(), 3), Err(StateError::NotFound)));
    assert!(store.all_objects().is_empty());
    // The next put goes on from the delete.
    assert_eq!(store.put("a", plain("{}")).unwrap().commit_seq, 4);
}

#[test]
fn delete_of_a_missing_object_is_not_found_and_uses_no_number() {
    let mut store = InMemoryStore::new();
    assert!(matches!(store.delete("a", "x"), Err(StateError::NotFound)));
    assert_eq!(store.counter("a"), 0);
    store.put_at("a", named("x", "{}"), String::new(), 1).unwrap();
    assert!(matches!(store.delete("b", "x"), Err(StateError::NotFound)));
    assert!(matches!(store.delete("a", "y"), Err(StateError::NotFound)));
    assert_eq!(store.counter("a"), 1);
}

#[test]
fn get_of_a_missing_object_is_not_found() {
    let store = InMemoryStore::new();
    assert!(matches!(store.get("a", "x", now_opts()), Err(StateError::NotFound)));
}

#[test]
fn get_returns_the_newest_version() {
    let mut store = InMemoryStore::new();
    store.put_at("a", named("x", "{\"v\":1}"), String::new(), 10).unwrap();
    store.put_at("a", named("x", "{\"v\":2}"), String::new(), 20).unwrap();
    let got = store.get_at("a", "x", now_opts(), 30).unwrap();
    assert_eq!(got.body, "{\"v\":2}");
    assert_eq!(got.commit_seq, 2);
}

#[test]
fn get_travels_back_in_time() {
    let mut store = InMemoryStore::new();
    store.put_at("a", named("x", "{\"v\":1}"), String::new(), 10).unwrap();
    store.put_at("a", named("x", "{\"v\":2}"), String::new(), 20).unwrap();
    let at = |t: i64| GetOptions { at_ts: Some(t) };
    assert_eq!(store.get_at("a", "x", at(15), 30).unwrap().body, "{\"v\":1}");
    assert_eq!(store.get_at("a", "x", at(10), 30).unwrap().body, "{\"v\":1}");
    assert_eq!(store.get_at("a", "x", at(20), 30).unwrap().body, "{\"v\":2}");
    assert!(matches!(store.get_at("a", "x", at(9), 30), Err(StateError::NotFound)));
}

#[test]
fn get_skips_expired_versions() {
    let mut store = InMemoryStore::new();
    let mut short = named("x", "{\"v\":1}");
    short.ttl_seconds = Some(2);
    store.put_at("a", short, String::new(), 10 * SECOND).unwrap();
    // Expired means that the time to live has passed, not that it is reached.
    assert!(store.get_at("a", "x", now_opts(), 12 * SECOND).is_ok());
    assert!(matches!(
        store.get_at("a", "x", now_opts(), 12 * SECOND + 1),
        Err(StateError::NotFound)
    ));
}

#[test]
fn get_falls_back_to_an_older_version_that_has_not_expired() {
    let mut store = InMemoryStore::new();
    store.put_at("a", named("x", "{\"v\":1}"), String::new(), 10 * SECOND).unwrap();
    let mut short = named("x", "{\"v\":2}");
    short.ttl_seconds = Some(1);
    store.put_at("a", short, String::new(), 20 * SECOND).unwrap();
    assert_eq!(store.get_at("a", "x", now_opts(), 21 * SECOND).unwrap().body, "{\"v\":2}");
    assert_eq!(store.get_at("a", "x", now_opts(), 22 * SECOND).unwrap().body, "{\"v\":1}");
}

#[test]
fn a_huge_time_to_live_never_expires() {
    let mut store = InMemoryStore::new();
    let mut long = named("x", "{}");
    long.ttl_seconds = Some(u64::MAX);
    store.put_at("a", long, String::new(), i64::MAX - 1).unwrap();
    assert!(store.get_at("a", "x", now_opts(), i64::MAX).is_ok());
}

#[test]
fn sweep_removes_what_has_expired_in_silence() {
    let mut store = InMemoryStore::new();
    let handle = store
        .subscribe(agentstate::traits::WatchFilter { ns: "a".to_string() }, None)
        .unwrap();
    let mut short = named("x", "{}");
    short.ttl_seconds = Some(1);
    short.tags = Tags::from_pairs(vec![("k".to_string(), "v".to_string())]);
    store.put_at("a", short, String::new(), 0).unwrap();
    store.put_at("a", named("y", "{}"), String::new(), 0).unwrap();
    assert!(store.try_next(handle).is_some());
    assert!(store.try_next(handle).is_some());
    assert_eq!(store.sweep_expired_at(0, SECOND).unwrap(), 0);
    assert_eq!(store.sweep_expired_at(0, SECOND + 1).unwrap(), 1);
    assert_eq!(store.sweep_expired_at(0, SECOND + 1).unwrap(), 0);
    let left = store.all_objects();
    assert_eq!(left.len(), 1);
    assert_eq!(left[0].id, "y");
    // No sequence number was used and no subscriber was told.
    assert_eq!(store.counter("a"), 2);
    assert!(store.try_next(handle).is_none());
    // The index no longer knows the object.
    let req = agentstate::query::QueryRequest {
        tag_filter: Some(agentstate::query::TagFilter(vec![("k".to_string(), "v".to_string())])),
        jsonpath: None,
        limit: None,
        fields: None,
    };
    assert!(store.query_at("a", req, 0).unwrap().is_empty());
}

#[test]
fn sweep_with_the_clock_leaves_fresh_objects() {
    let mut store = InMemoryStore::new();
    store.put("a", plain("{}")).unwrap();
    assert_eq!(store.sweep_expired(0).unwrap(), 0);
    assert_eq!(store.all_objects().len(), 1);
}

#[test]
fn all_objects_lists_current_versions_in_table_order() {
    let mut store = InMemoryStore::new();
    store.put_at("a", named("x", "{\"v\":1}"), String::new(), 1).unwrap();
    store.put_at("b", named("y", "{\"v\":2}"), String::new(), 2).unwrap();
    store.put_at("a", named("x", "{\"v\":3}"), String::new(), 3).unwrap();
    let all = store.all_objects();
    assert_eq!(all.len(), 2);
    assert_eq!((all[0].ns.as_str(), all[0].id.as_str(), all[0].body.as_str()), ("a", "x", "{\"v\":3}"));
    assert_eq!((all[1].ns.as_str(), all[1].id.as_str(), all[1].body.as_str()), ("b", "y", "{\"v\":2}"));
}

#[test]
fn the_memory_engine_refuses_durable_operations() {
    let store = InMemoryStore::new();
    match store.admin_snapshot() {
        Err(StateError::Invalid(detail)) => assert_eq!(detail, "not persistent"),
        other => panic!("unexpected: {:?}", other),
    }
    match store.admin_trim_wal("snap") {
        Err(StateError::Invalid(detail)) => assert_eq!(detail, "not persistent"),
        other => panic!("unexpected: {:?}", other),
    }
    assert_eq!(store.admin_manifest().unwrap(), "{\"mode\":\"memory\"}");
}

#[test]
fn errors_have_messages() {
    assert_eq!(StateError::NotFound.message(), "object not found");
    assert_eq!(StateError::NamespaceNotFound.message(), "namespace not found");
    assert_eq!(StateError::Conflict("lease held".to_string()).message(), "conflict: lease held");
    assert_eq!(StateError::Invalid("bad".to_string()).message(), "invalid request: bad");
    assert_eq!(StateError::Internal("io".to_string()).message(), "internal error: io");
    assert_eq!(StateError::conflict("x").message(), "conflict: x");
    assert_eq!(StateError::invalid("x").message(), "invalid request: x");
    assert_eq!(StateError::internal("x").message(), "internal error: x");
}

#[test]
fn a_counter_at_the_end_of_its_range_hands_out_nothing() {
    let mut store = InMemoryStore::new();
    let last = Object {
        id: "x".to_string(),
        ns: "a".to_string(),
        kind: "t".to_string(),
        body: "{}".to_string(),
        tags: Tags::new(),
        ttl_seconds: None,
        parents: Vec::new(),
        commit: String::new(),
        ts: 0,
        commit_seq: u64::MAX,
    };
    store.replay_put(last);
    assert_eq!(store.counter("a"), u64::MAX);
    let exhausted = |out: Result<(), StateError>| match out {
        Err(StateError::Internal(detail)) => assert_eq!(detail, "commit sequence exhausted"),
        other => panic!("unexpected: {:?}", other),
    };
    exhausted(store.put("a", plain("{}")).map(|_| ()));
    exhausted(store.delete("a", "x"));
    exhausted(store.lease_acquire("a", "r", "o", 1).map(|_| ()));
    // Nothing changed, and other namespaces go on.
    assert_eq!(store.all_objects().len(), 1);
    assert_eq!(store.counter("a"), u64::MAX);
    assert_eq!(store.put("b", plain("{}")).unwrap().commit_seq, 1);
}

#[test]
fn puts_and_deletes_count_up_from_one_however_they_interleave() {
    let mut store = InMemoryStore::new();
    let h = store
        .subscribe(agentstate::traits::WatchFilter { ns: "a".to_string() }, None)
        .unwrap();
    let mut expected = 0u64;
    for round in 0..20u64 {
        let id = format!("o{}", round % 3);
        if round % 4 == 3 {
            if store.delete("a", &id).is_ok() {
                expected += 1;
            }
        } else {
            store.put("a", named(&id, "{}")).unwrap();
            expected += 1;
        }
        store.put("other", plain("{}")).unwrap();
        let _ = store.delete("a", "missing");
    }
    let mut seen = Vec::new();
    while let Some(ev) = store.try_next(h) {
        seen.push(ev.commit_seq());
    }
    assert_eq!(seen, (1..=expected).collect::<Vec<u64>>());
    assert_eq!(store.counter("a"), expected);
}

#[test]
fn a_clock_without_a_reading_stands_at_the_end_of_its_range() {
    assert_eq!(reading_or_end(Some(0)), 0);
    assert_eq!(reading_or_end(Some(-7)), -7);
    assert_eq!(reading_or_end(Some(i64::MAX - 1)), i64::MAX - 1);
    assert_eq!(reading_or_end(Some(i64::MIN)), i64::MIN);
    assert_eq!(reading_or_end(None), i64::MAX);
    let first = now_or_end();
    let second = now_or_end();
    // Some time after the year 2020, and the clock does not run backwards here.
    assert!(first > 1_577_836_800 * SECOND);
    assert!(second >= first);
}

#[test]
fn tags_hold_each_key_once() {
    let tags = Tags::from_pairs(vec![
        ("k".to_string(), "first".to_string()),
        ("other".to_string(), "x".to_string()),
        ("k".to_string(), "last".to_string()),
    ]);
    assert_eq!(tags.pairs().len(), 2);
    assert_eq!(tags.get("k"), Some("last"));
    assert_eq!(tags.get("other"), Some("x"));
    assert_eq!(tags.get("none"), None);
    let tags = tags.with("other".to_string(), "y".to_string()).with("new".to_string(), "z".to_string());
    assert_eq!(tags.pairs().len(), 3);
    assert_eq!(tags.get("other"), Some("y"));
    assert_eq!(tags.get("new"), Some("z"));
    assert_eq!(tags.get("k"), Some("last"));
    assert!(Tags::new().pairs().is_empty());
    assert!(Tags::default().pairs().is_empty());
    assert_eq!(tags.clone().pairs(), tags.pairs());
    // As a map would have it.
    let pairs = vec![("b", "1"), ("a", "2"), ("b", "3"), ("c", "4"), ("a", "5")];
    let map: std::collections::BTreeMap<String, String> =
        pairs.iter().map(|(k, v)| (k.to_string(), v.to_string())).collect();
    let tags = Tags::from_pairs(pairs.iter().map(|(k, v)| (k.to_string(), v.to_string())).collect());
    let back: std::collections::BTreeMap<String, String> = tags.pairs().iter().cloned().collect();
    assert_eq!(back, map);
    assert_eq!(tags.pairs().len(), map.len());
}

#[test]
fn a_put_bears_its_tags_once_each() {
    let mut store = InMemoryStore::new();
    let mut req = named("x", "{}");
    req.tags = Tags::from_pairs(vec![
        ("k".to_string(), "old".to_string()),
        ("k".to_string(), "new".to_string()),
    ]);
    let put = store.put("a", req).unwrap();
    assert_eq!(put.tags.pairs(), &vec![("k".to_string(), "new".to_string())]);
    let by = |v: &str| agentstate::query::QueryRequest {
        tag_filter: Some(agentstate::query::TagFilter(vec![("k".to_string(), v.to_string())])),
        jsonpath: None,
        limit: None,
        fields: None,
    };
    assert_eq!(store.query_at("a", by("new"), 0).unwrap().len(), 1);
    assert!(store.query_at("a", by("old"), 0).unwrap().is_empty());
}
