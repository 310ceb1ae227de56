//! Behavioural tests for the lock registry, the state store and their
//! interaction, exercised through the public interface.

use state_backend::backend::StateBackend;
use state_backend::error::StoreError;
use state_backend::lock::{LockRecord, LockRegistry};
use state_backend::state::{StateBlob, StateStore};

fn record(id: &str) -> LockRecord {
    LockRecord {
        id: id.to_string(),
        who: "terraform".to_string(),
        created: "2020-04-01T00:00:00Z".to_string(),
        operation: "plan".to_string(),
        info: "".to_string(),
        path: "./".to_string(),
        version: "0.12.0".to_string(),
    }
}

fn blob(serial: u64) -> StateBlob {
    StateBlob {
        lineage: "".to_string(),
        outputs: "{}".to_string(),
        resources: "{}".to_string(),
        serial,
        tool_version: "0.12.0".to_string(),
        version: 0,
    }
}

#[test]
fn get_before_any_put_reports_absence() {
    let backend = StateBackend::new();
    assert!(backend.states.get(&"test".to_string()).is_none());
    assert!(backend.states.get(&"".to_string()).is_none());
    assert!(backend.states.get(&"another/resource".to_string()).is_none());
}

#[test]
fn lock_once() {
    let mut locks = LockRegistry::new();
    let outcome = locks.acquire(record("d5b9f8f8-c9f8-4f8f-b8f8-f8f8f8f8f8f8"));
    assert!(outcome.is_ok());
}

#[test]
fn lock_twice_with_same_id() {
    let mut locks = LockRegistry::new();
    let first = record("d5b9f8f8-c9f8-4f8f-b8f8-f8f8f8f8f8f8");
    assert!(locks.acquire(first.clone()).is_ok());

    let outcome = locks.acquire(record("d5b9f8f8-c9f8-4f8f-b8f8-f8f8f8f8f8f8"));
    match outcome {
        Err(held) => assert_eq!(held, first),
        Ok(()) => panic!("second acquire of a held id must conflict"),
    }
}

#[test]
fn lock_twice_with_different_id() {
    let mut locks = LockRegistry::new();
    assert!(locks.acquire(record("d5b9f8f8-c9f8-4f8f-b8f8-f8f8f8f8f8f8")).is_ok());
    assert!(locks.acquire(record("d5b9f8f8-c9f8-4f8f-b8f8-fd43242552f2")).is_ok());
}

#[test]
fn identical_payload_still_conflicts() {
    let mut locks = LockRegistry::new();
    let rec = record("d5b9f8f8-c9f8-4f8f-b8f8-f8f8f8f8f8f8");
    assert!(locks.acquire(rec.clone()).is_ok());
    assert_eq!(locks.acquire(rec.clone()), Err(rec));
}

#[test]
fn unlock_not_existing() {
    let mut locks = LockRegistry::new();
    let outcome = locks.release(&"d5b9f8f8-c9f8-4f8f-b8f8-f8f8f8f8f8f8".to_string());
    assert_eq!(outcome, Err(StoreError::NotFound));
}

#[test]
fn unlock_existing() {
    let mut locks = LockRegistry::new();
    let id = "d5b9f8f8-c9f8-4f8f-b8f8-f8f8f8f8f8f8".to_string();
    assert!(locks.acquire(record(&id)).is_ok());
    assert!(locks.release(&id).is_ok());
    assert_eq!(locks.release(&id), Err(StoreError::NotFound));
}

#[test]
fn lookup_reports_the_holder() {
    let mut locks = LockRegistry::new();
    let rec = record("1234");
    assert!(locks.lookup(&"1234".to_string()).is_none());
    assert!(locks.acquire(rec.clone()).is_ok());
    assert_eq!(locks.lookup(&"1234".to_string()), Some(rec));
}

#[test]
fn missing_lock() {
    let mut backend = StateBackend::new();
    let outcome = backend.states.put(
        &backend.locks,
        &"test".to_string(),
        blob(0),
        &"1234".to_string(),
    );
    assert_eq!(outcome, Err(StoreError::Unauthorized));
    assert!(backend.states.get(&"test".to_string()).is_none());
}

#[test]
fn put_without_lock_fails_for_any_resource() {
    let mut store = StateStore::new();
    let locks = LockRegistry::new();
    let id = "never-acquired".to_string();
    assert_eq!(
        store.put(&locks, &"alpha".to_string(), blob(0), &id),
        Err(StoreError::Unauthorized)
    );
    assert_eq!(
        store.put(&locks, &"beta/gamma".to_string(), blob(1), &id),
        Err(StoreError::Unauthorized)
    );
}

#[test]
fn create() {
    let mut backend = StateBackend::new();
    assert!(backend.locks.acquire(record("1234")).is_ok());
    let outcome = backend.states.put(
        &backend.locks,
        &"test".to_string(),
        blob(0),
        &"1234".to_string(),
    );
    assert!(outcome.is_ok());
}

#[test]
fn state_not_found() {
    let backend = StateBackend::new();
    assert!(backend.states.get(&"test".to_string()).is_none());
}

#[test]
fn state_found() {
    let mut backend = StateBackend::new();
    assert!(backend.locks.acquire(record("1234")).is_ok());
    let written = blob(0);
    assert!(backend
        .states
        .put(&backend.locks, &"test".to_string(), written.clone(), &"1234".to_string())
        .is_ok());
    assert_eq!(backend.states.get(&"test".to_string()), Some(written));
}

#[test]
fn put_then_get_round_trips_the_blob() {
    let mut backend = StateBackend::new();
    assert!(backend.locks.acquire(record("L1")).is_ok());
    let written = StateBlob {
        lineage: "3f2b7a".to_string(),
        outputs: r#"{"address":{"value":"10.0.0.1"}}"#.to_string(),
        resources: r#"[{"name":"vm","instances":[]}]"#.to_string(),
        serial: 12,
        tool_version: "0.12.0".to_string(),
        version: 4,
    };
    assert!(backend
        .states
        .put(&backend.locks, &"prod".to_string(), written.clone(), &"L1".to_string())
        .is_ok());
    let read = backend.states.get(&"prod".to_string()).expect("blob was written");
    assert_eq!(read, written);
    assert_eq!(read.outputs, r#"{"address":{"value":"10.0.0.1"}}"#);
    assert_eq!(read.resources, r#"[{"name":"vm","instances":[]}]"#);
}

#[test]
fn contended_acquires_admit_exactly_one_winner() {
    let mut locks = LockRegistry::new();
    let callers = ["alice", "bob", "carol", "dave", "erin"];
    let mut successes: usize = 0;
    let mut observed: Vec<LockRecord> = Vec::new();
    for caller in callers {
        let mut rec = record("shared-id");
        rec.who = caller.to_string();
        match locks.acquire(rec) {
            Ok(()) => successes += 1,
            Err(held) => observed.push(held),
        }
    }
    assert_eq!(successes, 1);
    assert_eq!(observed.len(), callers.len() - 1);
    for held in &observed {
        assert_eq!(held.who, "alice");
        assert_eq!(held.id, "shared-id");
    }
}

#[test]
fn write_cycle_under_one_lock() {
    let mut backend = StateBackend::new();
    let l1 = "L1".to_string();
    assert!(backend.locks.acquire(record(&l1)).is_ok());

    assert!(backend
        .states
        .put(&backend.locks, &"r".to_string(), blob(0), &l1)
        .is_ok());
    assert!(backend
        .states
        .put(&backend.locks, &"r".to_string(), blob(1), &l1)
        .is_ok());
    assert_eq!(backend.states.get(&"r".to_string()).expect("written").serial, 1);

    let wrong = backend.states.put(&backend.locks, &"r".to_string(), blob(2), &"wrong".to_string());
    assert_eq!(wrong, Err(StoreError::Unauthorized));
    assert_eq!(backend.states.get(&"r".to_string()).expect("still there").serial, 1);
}

#[test]
fn released_lock_no_longer_authorizes_writes() {
    let mut backend = StateBackend::new();
    let l1 = "L1".to_string();
    assert!(backend.locks.acquire(record(&l1)).is_ok());
    assert!(backend
        .states
        .put(&backend.locks, &"r".to_string(), blob(0), &l1)
        .is_ok());
    assert!(backend.locks.release(&l1).is_ok());

    let outcome = backend.states.put(&backend.locks, &"r".to_string(), blob(1), &l1);
    assert_eq!(outcome, Err(StoreError::Unauthorized));
    assert_eq!(backend.states.get(&"r".to_string()).expect("kept").serial, 0);
}

#[test]
fn lock_for_one_resource_authorizes_writes_to_another() {
    // The write check is by lock id alone: the lock's declared path is not
    // compared with the resource being written.
    let mut backend = StateBackend::new();
    let mut rec = record("L1");
    rec.path = "only/this/one".to_string();
    assert!(backend.locks.acquire(rec).is_ok());
    assert!(backend
        .states
        .put(&backend.locks, &"a-different-resource".to_string(), blob(0), &"L1".to_string())
        .is_ok());
}
