//! The query engine: filtering, searching, sorting, and the store.

use radius_logs::query::apply_filter_logic;
use radius_logs::store::RequestStore;
use radius_logs::transaction::{Highlight, LogColumn, RadiusRequest};

fn tx(timestamp: &str, user: &str, resp_type: &str, reason: &str, session: &str) -> RadiusRequest {
    RadiusRequest {
        timestamp: timestamp.to_string(),
        req_type: "Access-Request".to_string(),
        server: "srv".to_string(),
        ap_ip: "10.0.0.1".to_string(),
        ap_name: "ap".to_string(),
        mac: "aa-bb".to_string(),
        user: user.to_string(),
        resp_type: resp_type.to_string(),
        reason: reason.to_string(),
        class_id: "c".to_string(),
        session_id: session.to_string(),
        highlight: Highlight::Normal,
    }
}

#[test]
fn failed_sessions_filter_keeps_only_the_reject() {
    let items = vec![
        tx("t1", "u", "Access-Reject", "bad", "s1"),
        tx("t2", "u", "Access-Accept", "", "s1"),
        tx("t3", "u", "Accounting-Response", "", "s1"),
    ];
    let ids = apply_filter_logic(&items, "", true, LogColumn::Timestamp, false);
    assert_eq!(ids, vec![0]);
}

#[test]
fn failed_sessions_filter_needs_a_session_id() {
    let items = vec![
        tx("t1", "u", "Access-Reject", "bad", ""),
        tx("t2", "u", "Access-Challenge", "", "s2"),
    ];
    // The reject has no session id, the other session has no reject.
    let ids = apply_filter_logic(&items, "", true, LogColumn::Timestamp, false);
    assert!(ids.is_empty());
}

#[test]
fn failed_session_keeps_other_members() {
    let items = vec![
        tx("t1", "u", "Access-Reject", "bad", "s1"),
        tx("t2", "u", "Access-Challenge", "", "s1"),
    ];
    let ids = apply_filter_logic(&items, "", true, LogColumn::Timestamp, false);
    assert_eq!(ids, vec![0, 1]);
}

#[test]
fn search_is_case_insensitive() {
    let items = vec![tx("t1", "alice", "A", "", ""), tx("t2", "BOB", "A", "", "")];
    let ids = apply_filter_logic(&items, "bob", false, LogColumn::Timestamp, false);
    assert_eq!(ids, vec![1]);
    let none = apply_filter_logic(&items, "carol", false, LogColumn::Timestamp, false);
    assert!(none.is_empty());
}

#[test]
fn search_query_is_trimmed_and_lowercased() {
    let items = vec![tx("t1", "alice", "A", "", ""), tx("t2", "BOB", "A", "", "")];
    let ids = apply_filter_logic(&items, "  BoB \t", false, LogColumn::Timestamp, false);
    assert_eq!(ids, vec![1]);
}

#[test]
fn search_covers_all_eight_fields() {
    let mut t = tx("t1", "", "", "", "sess");
    t.reason = "Strange Reason".to_string();
    let items = vec![t, tx("t2", "", "", "", "")];
    let ids = apply_filter_logic(&items, "strange", false, LogColumn::Timestamp, false);
    assert_eq!(ids, vec![0]);
    // The session id is not searched.
    let none = apply_filter_logic(&items, "sess", false, LogColumn::Timestamp, false);
    assert!(none.is_empty());
}

#[test]
fn empty_query_keeps_everything() {
    let items = vec![tx("t2", "a", "A", "", ""), tx("t1", "b", "B", "", "")];
    let ids = apply_filter_logic(&items, "", false, LogColumn::Timestamp, false);
    assert_eq!(ids.len(), 2);
}

#[test]
fn default_sort_is_timestamp_descending() {
    let items = vec![
        tx("2024-01-01", "a", "A", "", ""),
        tx("2024-03-01", "b", "B", "", ""),
        tx("2024-02-01", "c", "C", "", ""),
    ];
    let ids = apply_filter_logic(&items, "", false, LogColumn::Timestamp, true);
    assert_eq!(ids, vec![1, 2, 0]);
    let asc = apply_filter_logic(&items, "", false, LogColumn::Timestamp, false);
    assert_eq!(asc, vec![0, 2, 1]);
}

#[test]
fn sort_by_user_ascending() {
    let items = vec![
        tx("t", "charlie", "A", "", ""),
        tx("t", "alice", "A", "", ""),
        tx("t", "bob", "A", "", ""),
    ];
    let ids = apply_filter_logic(&items, "", false, LogColumn::User, false);
    assert_eq!(ids, vec![1, 2, 0]);
}

#[test]
fn empty_reason_sorts_by_response_type() {
    let items = vec![
        tx("t", "a", "Zebra-Response", "", ""),
        tx("t", "b", "Alpha-Response", "", ""),
    ];
    let ids = apply_filter_logic(&items, "", false, LogColumn::Reason, false);
    // Both reasons are empty: the response type is the sort key.
    assert_eq!(ids, vec![1, 0]);
}

#[test]
fn non_empty_reason_wins_over_response_type() {
    let items = vec![
        tx("t", "a", "Alpha-Response", "zzz", ""),
        tx("t", "b", "Zebra-Response", "aaa", ""),
    ];
    let ids = apply_filter_logic(&items, "", false, LogColumn::Reason, false);
    assert_eq!(ids, vec![1, 0]);
}

#[test]
fn query_is_idempotent() {
    let items = vec![
        tx("t3", "a", "Access-Reject", "r", "s"),
        tx("t1", "b", "Access-Accept", "", "s"),
        tx("t2", "c", "C", "x", ""),
    ];
    let first = apply_filter_logic(&items, "s", false, LogColumn::Reason, true);
    let second = apply_filter_logic(&items, "s", false, LogColumn::Reason, true);
    assert_eq!(first, second);
}

#[test]
fn query_indices_are_valid_positions() {
    let items = vec![
        tx("t3", "a", "A", "", ""),
        tx("t1", "b", "B", "", ""),
        tx("t2", "c", "C", "", ""),
    ];
    let ids = apply_filter_logic(&items, "", false, LogColumn::Server, true);
    assert_eq!(ids.len(), 3);
    for &i in &ids {
        assert!(i < items.len());
    }
}

#[test]
fn store_replace_and_append() {
    let mut store = RequestStore::new();
    store.apply_batch(vec![tx("t1", "a", "A", "", "")], 5, false);
    assert_eq!(store.len(), 1);
    assert_eq!(store.raw_count(), 5);
    store.apply_batch(vec![tx("t2", "b", "B", "", "")], 3, true);
    assert_eq!(store.len(), 2);
    assert_eq!(store.raw_count(), 8);
    assert_eq!(store.get(1).timestamp, "t2");
    store.apply_batch(vec![tx("t9", "z", "Z", "", "")], 1, false);
    assert_eq!(store.len(), 1);
    assert_eq!(store.raw_count(), 1);
    assert_eq!(store.get(0).timestamp, "t9");
}

#[test]
fn display_text_by_position() {
    let mut store = RequestStore::new();
    store.apply_batch(
        vec![tx("t1", "alice", "A", "", ""), tx("t2", "bob", "B", "", "")],
        2,
        false,
    );
    let ids: Vec<usize> = vec![1, 0];
    assert_eq!(store.display_text(&ids, 0, LogColumn::User).as_deref(), Some("bob"));
    assert_eq!(store.display_text(&ids, 1, LogColumn::Timestamp).as_deref(), Some("t1"));
    assert_eq!(store.display_text(&ids, 2, LogColumn::User), None);
    let bad: Vec<usize> = vec![7];
    assert_eq!(store.display_text(&bad, 0, LogColumn::User), None);
}

#[test]
fn find_next_highlight_wraps() {
    let mut store = RequestStore::new();
    let mut red = tx("t2", "b", "Access-Reject", "r", "s");
    red.highlight = Highlight::Failure;
    store.apply_batch(vec![tx("t1", "a", "A", "", ""), red, tx("t3", "c", "C", "", "")], 3, false);
    let ids: Vec<usize> = vec![0, 1, 2];
    // Forward from the start: position 1 holds the highlighted row.
    assert_eq!(store.find_next_highlight(&ids, 0, true), Some(1));
    // Forward from the highlighted row itself wraps all the way round.
    assert_eq!(store.find_next_highlight(&ids, 1, true), Some(1));
    // Backward from the start wraps through the end.
    assert_eq!(store.find_next_highlight(&ids, 0, false), Some(1));
    // No highlight at all yields nothing.
    let plain = vec![tx("t1", "a", "A", "", "")];
    let mut store2 = RequestStore::new();
    store2.apply_batch(plain, 1, false);
    let one: Vec<usize> = vec![0];
    assert_eq!(store2.find_next_highlight(&one, 0, true), None);
}

#[test]
fn to_tsv_row() {
    let t = tx("2024-01-01", "alice", "Access-Accept", "OK", "s1");
    assert_eq!(
        t.to_tsv(),
        "2024-01-01\tAccess-Request\tsrv\t10.0.0.1\tap\taa-bb\talice\tOK"
    );
}

#[test]
fn matches_is_case_insensitive_on_fields() {
    let t = tx("t", "Alice", "A", "", "");
    assert!(t.matches("alice"));
    assert!(t.matches("lic"));
    assert!(!t.matches("bob"));
    assert!(t.matches(""));
}
