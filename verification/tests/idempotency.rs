use agentstate::errors::StateError;
use agentstate::idem::IdempotencyStore;
use agentstate::mem::InMemoryStore;
use agentstate::util::blake3_hex;

#[test]
fn the_same_body_gets_the_cached_response_and_another_body_a_conflict() {
    let mut store = InMemoryStore::new();
    let body_hash = blake3_hex(b"{\"type\":\"t\"}");
    assert!(store.idempotency_lookup("n", "key", &body_hash).unwrap().is_none());
    let response = "{ \"id\": \"x\",  \"commit_seq\": 1 }".to_string();
    store.idempotency_commit("n", "key", &body_hash, response.clone(), 1, 600).unwrap();
    let rec = store.idempotency_lookup("n", "key", &body_hash).unwrap().unwrap();
    assert_eq!(rec.response, response);
    assert_eq!(rec.body_hash, body_hash);
    assert_eq!(rec.commit_seq, 1);
    assert_eq!(rec.expires_at, 600);
    assert_eq!(rec.ns, "n");
    assert_eq!(rec.key, "key");
    assert_eq!(rec.response_hash, blake3_hex(b"{\"commit_seq\":1,\"id\":\"x\"}"));
    let other_hash = blake3_hex(b"{\"type\":\"u\"}");
    match store.idempotency_lookup("n", "key", &other_hash) {
        Err(StateError::Conflict(detail)) => assert_eq!(detail, "idempotency body mismatch"),
        other => panic!("unexpected: {:?}", other),
    }
    // Looking up again gives the same answer.
    let again = store.idempotency_lookup("n", "key", &body_hash).unwrap().unwrap();
    assert_eq!(again.response, response);
}

#[test]
fn keys_are_scoped_to_their_namespace() {
    let mut store = InMemoryStore::new();
    store.idempotency_commit("n", "key", "h", "1".to_string(), 1, 0).unwrap();
    assert!(store.idempotency_lookup("m", "key", "h").unwrap().is_none());
    assert!(store.idempotency_lookup("n", "other", "h").unwrap().is_none());
    assert!(store.idempotency_lookup("n", "key", "h").unwrap().is_some());
}

#[test]
fn a_later_commit_replaces_the_record() {
    let mut store = IdempotencyStore::new();
    store.commit("n", "key", "h1", "1".to_string(), 1, 0).unwrap();
    store.commit("n", "key", "h2", "2".to_string(), 2, 0).unwrap();
    assert!(matches!(store.lookup("n", "key", "h1"), Err(StateError::Conflict(_))));
    let rec = store.lookup("n", "key", "h2").unwrap().unwrap();
    assert_eq!(rec.response, "2");
    assert_eq!(rec.commit_seq, 2);
}

#[test]
fn a_response_that_is_not_json_is_refused() {
    let mut store = InMemoryStore::new();
    match store.idempotency_commit("n", "key", "h", "{oops".to_string(), 1, 0) {
        Err(StateError::Invalid(detail)) => assert_eq!(detail, "response is not JSON"),
        other => panic!("unexpected: {:?}", other),
    }
    assert!(store.idempotency_lookup("n", "key", "h").unwrap().is_none());
}

#[test]
fn digests_are_blake3_in_hexadecimal() {
    assert_eq!(blake3_hex(b""), "af1349b9f5f9a1a6a0404dea36dcc9499bcb25c9adc112b7cc9a93cae41f3262");
    assert_eq!(blake3_hex(b"abc"), "6437b3ac38465133ffb63b75273a8db548c558465d79db03fd359c6cd5bd9d85");
    assert_eq!(blake3_hex(b"abc"), blake3::hash(b"abc").to_hex().to_string());
}
