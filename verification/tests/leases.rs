use agentstate::errors::StateError;
use agentstate::lease::{deadline, LeaseTable};
use agentstate::mem::InMemoryStore;
use agentstate::model::{PutRequest, Tags};

const SECOND: i64 = 1_000_000_000;

fn request() -> PutRequest {
    PutRequest {
        kind: "t".to_string(),
        body: "{}".to_string(),
        tags: Tags::new(),
        ttl_seconds: None,
        id: None,
        parents: Vec::new(),
    }
}

fn conflict(detail: &str, out: Result<impl std::fmt::Debug, StateError>) {
    match out {
        Err(StateError::Conflict(d)) => assert_eq!(d, detail),
        other => panic!("unexpected: {:?}", other),
    }
}

#[test]
fn a_write_is_fenced_by_the_lease_token() {
    let mut store = InMemoryStore::new();
    let lease = store.lease_acquire("n", "r", "o1", 60).unwrap();
    let token = lease.token;
    assert_eq!(token, 1);
    assert!(store.validate_fence("n", "r", token).is_ok());
    let put = store.put("n", request()).unwrap();
    assert_eq!(put.commit_seq, 2);
    conflict("fence mismatch", store.validate_fence("n", "r", token + 1));
}

#[test]
fn a_fenced_write_needs_the_fence_to_hold() {
    let mut store = InMemoryStore::new();
    let token = store.lease_acquire_at("n", "r", "o1", 60, 0).unwrap().token;
    let ok = store.put_fenced_at("n", request(), "r", token, "a".to_string(), SECOND).unwrap();
    assert_eq!(ok.commit_seq, 2);
    assert_eq!(ok.id, "a");
    conflict(
        "fence mismatch",
        store.put_fenced_at("n", request(), "r", token + 1, "b".to_string(), SECOND),
    );
    conflict(
        "fence mismatch",
        store.put_fenced_at("n", request(), "other", token, "b".to_string(), SECOND),
    );
    conflict(
        "fence mismatch",
        store.put_fenced_at("n", request(), "r", token, "b".to_string(), 60 * SECOND),
    );
    // A refused write changes nothing.
    assert_eq!(store.counter("n"), 2);
    assert_eq!(store.all_objects().len(), 1);
}

#[test]
fn a_fence_holds_exactly_while_its_lease_does() {
    let mut store = InMemoryStore::new();
    let lease = store.lease_acquire_at("n", "r", "o1", 10, 5 * SECOND).unwrap();
    assert_eq!(lease.expires_at, 15 * SECOND);
    assert_eq!(lease.owner, "o1");
    assert_eq!(lease.ns, "n");
    assert_eq!(lease.key, "r");
    assert!(store.validate_fence_at("n", "r", 1, 5 * SECOND).is_ok());
    assert!(store.validate_fence_at("n", "r", 1, 15 * SECOND - 1).is_ok());
    conflict("fence mismatch", store.validate_fence_at("n", "r", 1, 15 * SECOND));
    conflict("fence mismatch", store.validate_fence_at("n", "r", 0, 5 * SECOND));
    conflict("fence mismatch", store.validate_fence_at("n", "r", 2, 5 * SECOND));
    conflict("fence mismatch", store.validate_fence_at("n", "other", 1, 5 * SECOND));
    conflict("fence mismatch", store.validate_fence_at("m", "r", 1, 5 * SECOND));
}

#[test]
fn of_two_owners_at_most_one_holds_the_lease() {
    let mut store = InMemoryStore::new();
    let first = store.lease_acquire_at("n", "r", "o1", 10, 0).unwrap();
    conflict("lease held", store.lease_acquire_at("n", "r", "o2", 10, 0));
    conflict("lease held", store.lease_acquire_at("n", "r", "o2", 10, 10 * SECOND - 1));
    // A conflict mints no token.
    assert_eq!(store.counter("n"), 1);
    // Once the lease has expired the other owner gets it, with a greater token.
    let second = store.lease_acquire_at("n", "r", "o2", 10, 10 * SECOND).unwrap();
    assert!(second.token > first.token);
    assert_eq!(second.token, 2);
    conflict("lease held", store.lease_acquire_at("n", "r", "o1", 10, 10 * SECOND));
    conflict("fence mismatch", store.validate_fence_at("n", "r", first.token, 10 * SECOND));
    assert!(store.validate_fence_at("n", "r", second.token, 10 * SECOND).is_ok());
}

#[test]
fn a_released_lease_can_be_taken_by_another_owner() {
    let mut store = InMemoryStore::new();
    let lease = store.lease_acquire_at("n", "r", "o1", 10, 0).unwrap();
    store.lease_release("n", "r", "o1", lease.token).unwrap();
    conflict("fence mismatch", store.validate_fence_at("n", "r", lease.token, 0));
    let next = store.lease_acquire_at("n", "r", "o2", 10, 0).unwrap();
    assert_eq!(next.owner, "o2");
    assert_eq!(next.token, 2);
}

#[test]
fn the_same_owner_may_acquire_again_and_gets_a_new_token() {
    let mut store = InMemoryStore::new();
    let first = store.lease_acquire_at("n", "r", "o1", 10, 0).unwrap();
    let second = store.lease_acquire_at("n", "r", "o1", 20, SECOND).unwrap();
    assert_eq!(first.token, 1);
    assert_eq!(second.token, 2);
    assert_eq!(second.expires_at, 21 * SECOND);
    conflict("fence mismatch", store.validate_fence_at("n", "r", 1, SECOND));
    assert!(store.validate_fence_at("n", "r", 2, SECOND).is_ok());
}

#[test]
fn leases_on_other_resources_do_not_interfere() {
    let mut store = InMemoryStore::new();
    assert_eq!(store.lease_acquire_at("n", "r", "o1", 10, 0).unwrap().token, 1);
    assert_eq!(store.lease_acquire_at("n", "s", "o2", 10, 0).unwrap().token, 2);
    assert_eq!(store.lease_acquire_at("m", "r", "o2", 10, 0).unwrap().token, 1);
}

#[test]
fn renewing_needs_the_owner_and_the_token() {
    let mut store = InMemoryStore::new();
    assert!(matches!(store.lease_renew_at("n", "r", "o1", 1, 10, 0), Err(StateError::NotFound)));
    let lease = store.lease_acquire_at("n", "r", "o1", 10, 0).unwrap();
    conflict("fencing", store.lease_renew_at("n", "r", "o2", lease.token, 10, 0));
    conflict("fencing", store.lease_renew_at("n", "r", "o1", lease.token + 1, 10, 0));
    let renewed = store.lease_renew_at("n", "r", "o1", lease.token, 30, 5 * SECOND).unwrap();
    assert_eq!(renewed.token, lease.token);
    assert_eq!(renewed.expires_at, 35 * SECOND);
    assert!(store.validate_fence_at("n", "r", lease.token, 34 * SECOND).is_ok());
    // Renewing mints no token.
    assert_eq!(store.counter("n"), 1);
    let by_clock = store.lease_renew("n", "r", "o1", lease.token, 30).unwrap();
    assert!(by_clock.expires_at > 35 * SECOND);
}

#[test]
fn releasing_needs_the_owner_and_the_token() {
    let mut store = InMemoryStore::new();
    assert!(matches!(store.lease_release("n", "r", "o1", 1), Err(StateError::NotFound)));
    let lease = store.lease_acquire_at("n", "r", "o1", 10, 0).unwrap();
    conflict("fencing", store.lease_release("n", "r", "o2", lease.token));
    conflict("fencing", store.lease_release("n", "r", "o1", lease.token + 1));
    // The lease stayed.
    assert!(store.validate_fence_at("n", "r", lease.token, 0).is_ok());
    store.lease_release("n", "r", "o1", lease.token).unwrap();
    assert!(matches!(store.lease_release("n", "r", "o1", lease.token), Err(StateError::NotFound)));
}

#[test]
fn deadlines_stop_at_the_end_of_the_clock() {
    assert_eq!(deadline(0, 0), 0);
    assert_eq!(deadline(7, 1), SECOND + 7);
    assert_eq!(deadline(-SECOND, 1), 0);
    assert_eq!(deadline(i64::MAX, 0), i64::MAX);
    assert_eq!(deadline(i64::MAX, 1), i64::MAX);
    assert_eq!(deadline(0, u64::MAX), i64::MAX);
    assert_eq!(deadline(i64::MIN, u64::MAX), i64::MAX);
    assert_eq!(deadline(i64::MIN, 9_223_372_036), i64::MIN + 9_223_372_036 * SECOND);
}

#[test]
fn a_lease_table_on_its_own() {
    let mut table = LeaseTable::new();
    assert!(table.get("n", "r").is_none());
    assert!(!table.is_held_by_other("n", "r", "o1", 0));
    let lease = table.grant("n", "r", "o1", 7, 100);
    assert_eq!(lease.token, 7);
    assert!(table.is_held_by_other("n", "r", "o2", 99));
    assert!(!table.is_held_by_other("n", "r", "o2", 100));
    assert!(!table.is_held_by_other("n", "r", "o1", 0));
    let held = table.get("n", "r").unwrap();
    assert_eq!((held.owner.as_str(), held.token, held.expires_at), ("o1", 7, 100));
    table.grant("n", "r", "o2", 8, 200);
    let held = table.get("n", "r").unwrap();
    assert_eq!((held.owner.as_str(), held.token, held.expires_at), ("o2", 8, 200));
}

#[test]
fn after_a_release_another_owner_acquires_by_the_clock() {
    let mut store = InMemoryStore::new();
    let first = store.lease_acquire("n", "r", "o1", 60).unwrap();
    store.lease_release("n", "r", "o1", first.token).unwrap();
    let second = store.lease_acquire("n", "r", "o2", 60).unwrap();
    assert_eq!(second.owner, "o2");
    assert!(second.token > first.token);
    assert!(second.expires_at >= first.expires_at);
    conflict("fence mismatch", store.validate_fence("n", "r", first.token));
    assert!(store.validate_fence("n", "r", second.token).is_ok());
}

#[test]
fn the_holder_asking_again_gets_a_greater_token_by_the_clock() {
    let mut store = InMemoryStore::new();
    let first = store.lease_acquire("n", "r", "o1", 60).unwrap();
    let second = store.lease_acquire("n", "r", "o1", 120).unwrap();
    assert!(second.token > first.token);
    assert!(second.expires_at > first.expires_at);
    conflict("fence mismatch", store.validate_fence("n", "r", first.token));
    assert!(store.validate_fence("n", "r", second.token).is_ok());
    conflict("lease held", store.lease_acquire("n", "r", "o2", 1));
    // A lease that has run out holds no one off.
    let short = store.lease_acquire("n", "s", "o1", 0).unwrap();
    let taken = store.lease_acquire("n", "s", "o2", 60).unwrap();
    assert!(taken.token > short.token);
}
