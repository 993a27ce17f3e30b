use raft_kv::check_linearizable;
use raft_kv::ClientReply;
use raft_kv::ClientRequest;
use raft_kv::HistoryOperation;
use raft_kv::OperationHistory;

fn reply(response: Option<&str>) -> ClientReply {
    ClientReply {
        success: true,
        leader_id: Some(0),
        response: response.map(str::to_string),
    }
}

fn put(id: u64, value: &str, start: u64, end: u64) -> HistoryOperation {
    HistoryOperation {
        id,
        client_id: id,
        invoked_at: start,
        completed_at: end,
        request: ClientRequest::Put {
            key: "key".to_string(),
            value: value.to_string(),
        },
        response: reply(Some("committed")),
    }
}

#[test]
fn accepts_overlapping_operations_in_a_legal_order() {
    let mut history = OperationHistory::new();
    history.push(put(1, "one", 0, 10));
    history.push(put(2, "two", 1, 5));
    history.push(HistoryOperation {
        id: 3,
        client_id: 3,
        invoked_at: 6,
        completed_at: 8,
        request: ClientRequest::Get {
            key: "key".to_string(),
        },
        response: reply(Some("one")),
    });
    assert!(check_linearizable(&history).is_ok());
}

#[test]
fn returns_a_minimized_counterexample_for_a_stale_read() {
    let mut history = OperationHistory::new();
    history.push(put(1, "one", 0, 2));
    history.push(HistoryOperation {
        id: 2,
        client_id: 2,
        invoked_at: 3,
        completed_at: 4,
        request: ClientRequest::Get {
            key: "key".to_string(),
        },
        response: reply(None),
    });
    history.push(put(3, "noise", 0, 100));

    let violation = check_linearizable(&history).expect_err("history should fail");
    assert_eq!(violation.counterexample.len(), 2);
    assert_eq!(violation.counterexample[0].id, 1);
    assert_eq!(violation.counterexample[1].id, 2);
}

#[test]
fn accepts_instantaneous_operations_at_the_same_timestamp() {
    let mut history = OperationHistory::new();
    history.push(put(1, "one", 10, 10));
    history.push(put(2, "two", 10, 10));
    history.push(HistoryOperation {
        id: 3,
        client_id: 3,
        invoked_at: 10,
        completed_at: 10,
        request: ClientRequest::Get {
            key: "key".to_string(),
        },
        response: reply(Some("two")),
    });

    assert!(check_linearizable(&history).is_ok());
}

#[test]
fn rejects_stale_read_after_equal_timestamp_write_by_recording_order() {
    let mut history = OperationHistory::new();
    history.push(put(1, "one", 10, 10));
    history.push(HistoryOperation {
        id: 2,
        client_id: 2,
        invoked_at: 10,
        completed_at: 10,
        request: ClientRequest::Get {
            key: "key".to_string(),
        },
        response: reply(None),
    });

    assert!(check_linearizable(&history).is_err());
}

#[test]
fn ignores_stale_local_gets_in_the_strong_checker() {
    let mut history = OperationHistory::new();
    history.push(put(1, "one", 0, 1));
    history.push(HistoryOperation {
        id: 2,
        client_id: 2,
        invoked_at: 2,
        completed_at: 3,
        request: ClientRequest::LocalGet {
            key: "key".to_string(),
        },
        response: reply(None),
    });

    assert!(check_linearizable(&history).is_ok());
}

fn get(id: u64, value: Option<&str>, start: u64, end: u64) -> HistoryOperation {
    HistoryOperation {
        id,
        client_id: id,
        invoked_at: start,
        completed_at: end,
        request: ClientRequest::Get {
            key: "key".to_string(),
        },
        response: reply(value),
    }
}

#[test]
fn empty_history_is_linearizable() {
    let history = OperationHistory::new();
    assert!(history.is_empty());
    assert_eq!(history.len(), 0);
    assert!(check_linearizable(&history).is_ok());
    assert_eq!(OperationHistory::default(), history);
}

#[test]
fn history_holds_what_was_recorded_until_it_is_cleared() {
    let mut history = OperationHistory::new();
    history.record(
        7,
        8,
        1,
        2,
        ClientRequest::Delete {
            key: "key".to_string(),
        },
        reply(None),
    );
    assert_eq!(history.len(), 1);
    let operation = &history.operations()[0];
    assert_eq!((operation.id, operation.client_id), (7, 8));
    assert_eq!((operation.invoked_at, operation.completed_at), (1, 2));
    let copy = history.clone();
    history.clear();
    assert!(history.is_empty());
    assert_eq!(copy.len(), 1);
}

#[test]
fn reads_that_see_a_write_come_and_go_are_refused() {
    let mut history = OperationHistory::new();
    history.push(put(1, "one", 0, 100));
    history.push(get(2, Some("one"), 1, 2));
    history.push(get(3, None, 3, 4));
    let violation = check_linearizable(&history).unwrap_err();
    assert_eq!(
        violation.reason,
        "no legal sequential order matches the successful operations"
    );
    let ids: Vec<u64> = violation
        .counterexample
        .iter()
        .map(|operation| operation.id)
        .collect();
    assert_eq!(ids, vec![2]);
    assert_eq!(
        violation.describe(),
        "no legal sequential order matches the successful operations (1 operations)"
    );
}

#[test]
fn failed_operations_and_local_reads_do_not_count() {
    let mut history = OperationHistory::new();
    history.push(put(1, "one", 0, 1));
    let mut failed = get(2, None, 2, 3);
    failed.response.success = false;
    history.push(failed);
    let mut local = get(3, Some("nonsense"), 2, 3);
    local.request = ClientRequest::LocalGet {
        key: "key".to_string(),
    };
    history.push(local);
    assert!(check_linearizable(&history).is_ok());
}

#[test]
fn counterexample_is_in_the_order_of_calls() {
    let mut history = OperationHistory::new();
    history.push(get(1, None, 20, 30));
    history.push(put(2, "one", 5, 6));
    let violation = check_linearizable(&history).unwrap_err();
    let ids: Vec<u64> = violation
        .counterexample
        .iter()
        .map(|operation| operation.id)
        .collect();
    assert_eq!(ids, vec![2, 1]);
    assert_eq!(violation.clone(), violation);
}

#[test]
fn deletes_are_ordered_with_the_other_operations() {
    let mut history = OperationHistory::new();
    history.push(put(1, "one", 0, 1));
    history.record(
        2,
        2,
        2,
        3,
        ClientRequest::Delete {
            key: "key".to_string(),
        },
        reply(Some("committed")),
    );
    history.push(get(3, None, 4, 5));
    assert!(check_linearizable(&history).is_ok());
    history.push(get(4, Some("one"), 6, 7));
    assert!(check_linearizable(&history).is_err());
}

#[test]
fn history_of_more_than_64_operations_is_not_checked() {
    let mut history = OperationHistory::new();
    for id in 0..64 {
        history.push(put(id, "one", 2 * id, 2 * id + 1));
    }
    assert!(check_linearizable(&history).is_ok());
    history.push(put(64, "one", 200, 201));
    let violation = check_linearizable(&history).unwrap_err();
    assert!(violation.counterexample.is_empty());
    assert_eq!(
        violation.reason,
        "history exceeds the deterministic checker limit of 64 successful operations"
    );
    assert_eq!(
        violation.describe(),
        "history exceeds the deterministic checker limit of 64 successful operations (0 operations)"
    );
}

#[test]
fn search_gives_up_at_its_limit() {
    let mut history = OperationHistory::new();
    for id in 0..18 {
        let mut operation = put(id, &format!("{id}"), 0, 100);
        operation.request = ClientRequest::Put {
            key: format!("key{}", id % 9),
            value: format!("{id}"),
        };
        history.push(operation);
    }
    history.push(get(99, Some("never"), 200, 201));
    let violation = check_linearizable(&history).unwrap_err();
    assert_eq!(
        violation.reason,
        "linearizability search exceeded the deterministic limit of 100000 states"
    );
    assert_eq!(violation.counterexample.len(), 19);
    assert_eq!(
        violation.describe(),
        "linearizability search exceeded the deterministic limit of 100000 states (19 operations)"
    );
}
