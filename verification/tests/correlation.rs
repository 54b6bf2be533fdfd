//! Grouping and folding: correlation keys, field preferences, the
//! reason-overwrite rule, and highlights.

use radius_logs::codes::CodeTable;
use radius_logs::correlate::{correlate, process_group};
use radius_logs::transaction::{Event, Highlight};

fn event() -> Event {
    Event {
        timestamp: None,
        packet_type: None,
        class: None,
        acct_session_id: None,
        server: None,
        ap_ip: None,
        ap_name: None,
        client_friendly_name: None,
        mac: None,
        user_name: None,
        sam_account: None,
        reason_code: None,
    }
}

fn request(class: &str) -> Event {
    let mut e = event();
    e.packet_type = Some("1".to_string());
    e.class = Some(class.to_string());
    e
}

fn response(class: &str, ptype: &str, reason: Option<&str>) -> Event {
    let mut e = event();
    e.packet_type = Some(ptype.to_string());
    e.class = Some(class.to_string());
    e.reason_code = reason.map(|r| r.to_string());
    e
}

#[test]
fn group_count_is_distinct_keys_plus_keyless() {
    let table = CodeTable::new();
    // Keys: c1 (twice), c2 (once), session s1 (once), and two keyless
    // events: 3 distinct keys + 2 keyless = 5 groups.
    let mut by_session = event();
    by_session.packet_type = Some("1".to_string());
    by_session.acct_session_id = Some("s1".to_string());
    let events = vec![
        request("c1"),
        response("c1", "2", None),
        request("c2"),
        by_session,
        event(),
        event(),
    ];
    let reqs = correlate(&table, events);
    assert_eq!(reqs.len(), 5);
}

#[test]
fn empty_class_falls_back_to_session() {
    let table = CodeTable::new();
    let mut e = event();
    e.packet_type = Some("1".to_string());
    e.class = Some(String::new());
    e.acct_session_id = Some("sess".to_string());
    let mut e2 = event();
    e2.packet_type = Some("2".to_string());
    e2.acct_session_id = Some("sess".to_string());
    let reqs = correlate(&table, vec![e, e2]);
    assert_eq!(reqs.len(), 1);
    assert_eq!(reqs[0].session_id, "sess");
    assert_eq!(reqs[0].resp_type, "Access-Accept");
}

#[test]
fn request_field_preferences() {
    let table = CodeTable::new();
    let mut e = event();
    e.packet_type = Some("1".to_string());
    e.timestamp = Some("t".to_string());
    e.ap_name = Some("nas-01".to_string());
    e.client_friendly_name = Some("Friendly".to_string());
    e.user_name = Some("plain".to_string());
    e.sam_account = Some("DOM\\sam".to_string());
    let group = vec![e];
    let r = process_group(&table, &group);
    assert_eq!(r.ap_name, "Friendly");
    assert_eq!(r.user, "DOM\\sam");
    assert_eq!(r.req_type, "Access-Request");
}

#[test]
fn missing_user_becomes_unknown() {
    let table = CodeTable::new();
    let group = vec![request("c")];
    let r = process_group(&table, &group);
    assert_eq!(r.user, "Unknown User");
}

#[test]
fn nas_identifier_used_without_friendly_name() {
    let table = CodeTable::new();
    let mut e = request("c");
    e.ap_name = Some("nas-01".to_string());
    let r = process_group(&table, &vec![e]);
    assert_eq!(r.ap_name, "nas-01");
}

#[test]
fn reason_overwrite_default_then_real() {
    let table = CodeTable::new();
    let group = vec![
        request("c"),
        response("c", "2", Some("0")),
        response("c", "3", Some("16")),
    ];
    let r = process_group(&table, &group);
    assert_eq!(r.reason, "Code 16");
    assert_eq!(r.resp_type, "Access-Reject");
}

#[test]
fn reason_overwrite_real_then_default() {
    let table = CodeTable::new();
    let group = vec![
        request("c"),
        response("c", "3", Some("16")),
        response("c", "2", Some("0")),
    ];
    let r = process_group(&table, &group);
    // The later success notice must not erase the earlier failure reason.
    assert_eq!(r.reason, "Code 16");
    assert_eq!(r.resp_type, "Access-Reject");
}

#[test]
fn reason_overwrite_with_mapped_table() {
    let mut table = CodeTable::new();
    table.add("0".to_string(), "Success".to_string());
    table.add("16".to_string(), "Authentication failed".to_string());
    let forward = vec![response("c", "2", Some("0")), response("c", "3", Some("16"))];
    let reverse = vec![response("c", "3", Some("16")), response("c", "2", Some("0"))];
    assert_eq!(process_group(&table, &forward).reason, "Authentication failed");
    assert_eq!(process_group(&table, &reverse).reason, "Authentication failed");
}

#[test]
fn real_reason_always_overwrites_real_reason() {
    let table = CodeTable::new();
    let group = vec![response("c", "3", Some("16")), response("c", "3", Some("23"))];
    let r = process_group(&table, &group);
    assert_eq!(r.reason, "Code 23");
}

#[test]
fn missing_reason_code_defaults_to_zero() {
    let mut table = CodeTable::new();
    table.add("0".to_string(), "Success".to_string());
    let group = vec![response("c", "2", None)];
    let r = process_group(&table, &group);
    assert_eq!(r.reason, "Success");
}

#[test]
fn highlight_from_response_type() {
    let table = CodeTable::new();
    let accept = process_group(&table, &vec![response("c", "2", None)]);
    assert_eq!(accept.highlight, Highlight::Success);
    let reject = process_group(&table, &vec![response("c", "3", Some("16"))]);
    assert_eq!(reject.highlight, Highlight::Failure);
    let acct = process_group(&table, &vec![response("c", "5", None)]);
    assert_eq!(acct.highlight, Highlight::Normal);
    // A later neutral response keeps the recorded highlight.
    let kept = process_group(
        &table,
        &vec![response("c", "3", Some("16")), response("c", "5", Some("0"))],
    );
    assert_eq!(kept.highlight, Highlight::Failure);
}

#[test]
fn class_falls_back_to_first_event_without_request() {
    let table = CodeTable::new();
    let group = vec![response("cls-7", "2", None), response("cls-7", "5", None)];
    let r = process_group(&table, &group);
    assert_eq!(r.class_id, "cls-7");
    // With a request present, the request's class wins as it is copied.
    let with_req = vec![request("cls-9"), response("cls-9", "2", None)];
    assert_eq!(process_group(&table, &with_req).class_id, "cls-9");
}

#[test]
fn display_types_are_never_empty() {
    let table = CodeTable::new();
    // A request-only group: the response type defaults to the display
    // string of the first event's packet-type code.
    let req_only = process_group(&table, &vec![request("c")]);
    assert_eq!(req_only.req_type, "Access-Request");
    assert_eq!(req_only.resp_type, "Access-Request");
    // A response-only group: the request type defaults the same way.
    let resp_only = process_group(&table, &vec![response("c", "2", None)]);
    assert_eq!(resp_only.req_type, "Access-Accept");
    assert_eq!(resp_only.resp_type, "Access-Accept");
    // An event with no packet type at all still yields non-empty display
    // types, from the raw-code fallback of the empty code.
    let bare = process_group(&table, &vec![event()]);
    assert_eq!(bare.req_type, "Type ");
    assert_eq!(bare.resp_type, "Type ");
}

#[test]
fn unmapped_packet_type_shows_raw_code() {
    let table = CodeTable::new();
    let group = vec![response("c", "9", Some("1"))];
    let r = process_group(&table, &group);
    assert_eq!(r.resp_type, "Type 9");
    assert_eq!(r.reason, "Code 1");
}
