//! Extraction, decoding, and the full ingestion pass.

use radius_logs::codes::CodeTable;
use radius_logs::decode::decode_record;
use radius_logs::extract::extract_records;
use radius_logs::ingest::parse_full_logic;

#[test]
fn extract_two_records() {
    let text = "<header/><Event><A>1</A></Event> junk <Event attr=\"x\"><B>2</B></Event> tail";
    let frags = extract_records(text);
    assert_eq!(frags.len(), 2);
    assert_eq!(frags[0], "<Event><A>1</A></Event>");
    assert_eq!(frags[1], "<Event attr=\"x\"><B>2</B></Event>");
}

#[test]
fn extract_unterminated_record_is_dropped() {
    let text = "<Event><A>1</A></Event><Event><B>2</B>";
    let frags = extract_records(text);
    assert_eq!(frags.len(), 1);
    assert_eq!(frags[0], "<Event><A>1</A></Event>");
}

#[test]
fn extract_empty_input() {
    let frags = extract_records("");
    assert_eq!(frags.len(), 0);
    let frags = extract_records("no records here at all");
    assert_eq!(frags.len(), 0);
}

#[test]
fn extract_ignores_similar_names() {
    // `<EventX>` is another element, not a record start.
    let text = "<EventX>nope</EventX><Event><A>1</A></Event>";
    let frags = extract_records(text);
    assert_eq!(frags.len(), 1);
    assert_eq!(frags[0], "<Event><A>1</A></Event>");
}

#[test]
fn decode_basic_fields() {
    let frag = "<Event><Timestamp>2024-01-02 03:04:05</Timestamp>\
        <Packet-Type>1</Packet-Type><Class>abc</Class>\
        <User-Name>alice</User-Name></Event>";
    let e = decode_record(frag).expect("decodes");
    assert_eq!(e.timestamp.as_deref(), Some("2024-01-02 03:04:05"));
    assert_eq!(e.packet_type.as_deref(), Some("1"));
    assert_eq!(e.class.as_deref(), Some("abc"));
    assert_eq!(e.user_name.as_deref(), Some("alice"));
    assert_eq!(e.sam_account, None);
    assert_eq!(e.reason_code, None);
}

#[test]
fn decode_field_with_attributes() {
    let frag = "<Event><Timestamp data_type=\"4\">09:00</Timestamp></Event>";
    let e = decode_record(frag).expect("decodes");
    assert_eq!(e.timestamp.as_deref(), Some("09:00"));
}

#[test]
fn decode_self_closing_field_is_empty() {
    let frag = "<Event><Class/><User-Name>u</User-Name></Event>";
    let e = decode_record(frag).expect("decodes");
    assert_eq!(e.class.as_deref(), Some(""));
    assert_eq!(e.user_name.as_deref(), Some("u"));
}

#[test]
fn decode_unescapes_entities() {
    let frag = "<Event><User-Name>a&amp;b &lt;x&gt; &quot;q&quot; &apos;s&apos;</User-Name></Event>";
    let e = decode_record(frag).expect("decodes");
    assert_eq!(e.user_name.as_deref(), Some("a&b <x> \"q\" 's'"));
}

#[test]
fn decode_unescapes_numeric_references() {
    let frag = "<Event><User-Name>&#65;&#x42;c &#x1F600;</User-Name></Event>";
    let e = decode_record(frag).expect("decodes");
    assert_eq!(e.user_name.as_deref(), Some("ABc \u{1F600}"));
    // &#38; is the ampersand itself.
    let amp = decode_record("<Event><Class>a&#38;b</Class></Event>").expect("decodes");
    assert_eq!(amp.class.as_deref(), Some("a&b"));
}

#[test]
fn malformed_numeric_references_pass_through() {
    // Surrogate code, missing digits, missing semicolon, out-of-range
    // value: all are copied through verbatim.
    let frag = "<Event><Class>&#xD800; &#; &#65 &#x110000;</Class></Event>";
    let e = decode_record(frag).expect("decodes");
    assert_eq!(e.class.as_deref(), Some("&#xD800; &#; &#65 &#x110000;"));
}

#[test]
fn decode_rejects_non_record() {
    assert!(decode_record("<Other>x</Other>").is_none());
    assert!(decode_record("").is_none());
}

#[test]
fn parse_full_pipeline() {
    let table = CodeTable::new();
    let text = "\
        <Event><Packet-Type>1</Packet-Type><Class>c1</Class>\
        <Timestamp>t1</Timestamp><SAM-Account-Name>dom\\u1</SAM-Account-Name></Event>\
        <Event><Packet-Type>2</Packet-Type><Class>c1</Class></Event>\
        <Event><Packet-Type>1</Packet-Type><Class>c2</Class>\
        <User-Name>u2</User-Name></Event>";
    let (reqs, raw) = parse_full_logic(text, &table);
    assert_eq!(raw, 3);
    assert_eq!(reqs.len(), 2);
    assert_eq!(reqs[0].timestamp, "t1");
    assert_eq!(reqs[0].user, "dom\\u1");
    assert_eq!(reqs[0].req_type, "Access-Request");
    assert_eq!(reqs[0].resp_type, "Access-Accept");
    assert_eq!(reqs[1].user, "u2");
    assert_eq!(reqs[1].class_id, "c2");
    // No response arrived for the second group: its response type defaults
    // to the first event's mapped packet type, never staying empty.
    assert_eq!(reqs[1].resp_type, "Access-Request");
}

#[test]
fn parse_empty_source_is_zero_transactions() {
    let table = CodeTable::new();
    let (reqs, raw) = parse_full_logic("wrapper only", &table);
    assert_eq!(raw, 0);
    assert_eq!(reqs.len(), 0);
}

#[test]
fn parse_malformed_record_is_dropped_not_fatal() {
    let table = CodeTable::new();
    // The second record never terminates; the first still parses.
    let text = "<Event><Packet-Type>1</Packet-Type></Event><Event><Packet-Type>";
    let (reqs, raw) = parse_full_logic(text, &table);
    assert_eq!(raw, 1);
    assert_eq!(reqs.len(), 1);
}
