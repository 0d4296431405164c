use simple_state::state::StateEntry;
use simple_state::submit::{BatchStatus, InvalidTransaction, StatusResponse};

#[test]
// An empty status list counts as finished: there is nothing left to wait
// for.
fn test_is_finished_empty() {
    let response = StatusResponse::new(Vec::new(), "test.com/success".to_string());
    assert!(response.is_finished());
}

#[test]
// All batches committed counts as finished; one still pending does not.
fn test_is_finished_committed() {
    let committed = BatchStatus::new("1".to_string(), "COMMITTED".to_string(), Vec::new());
    let response = StatusResponse::new(vec![committed], "link".to_string());
    assert!(response.is_finished());

    let committed = BatchStatus::new("1".to_string(), "COMMITTED".to_string(), Vec::new());
    let pending = BatchStatus::new("2".to_string(), "PENDING".to_string(), Vec::new());
    let response = StatusResponse::new(vec![committed, pending], "link".to_string());
    assert!(!response.is_finished());
}

#[test]
// One invalid batch finishes the wait even when others are pending.
fn test_is_finished_invalid() {
    let pending = BatchStatus::new("1".to_string(), "PENDING".to_string(), Vec::new());
    let invalid = BatchStatus::new(
        "2".to_string(),
        "INVALID".to_string(),
        vec![InvalidTransaction::new(
            "t".to_string(),
            "bad".to_string(),
        )],
    );
    let response = StatusResponse::new(vec![pending, invalid], "link".to_string());
    assert!(response.is_finished());
}

#[test]
// A state entry keeps its address and payload, and clones faithfully.
fn test_state_entry() {
    let entry = StateEntry {
        address: "abc".to_string(),
        data: "def".to_string(),
    };
    let copy = entry.clone();
    assert_eq!(copy, entry);
    assert_eq!(copy.address, "abc");
    assert_eq!(copy.data, "def");
}
