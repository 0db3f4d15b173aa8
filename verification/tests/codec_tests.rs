use chatatui::chat::ChatWidget;
use chatatui::codec::decode;
use chatatui::codec::encode;
use chatatui::codec::history_json;
use chatatui::envelope::Message;

fn msg(ts: i64, text: &str, sender: &str) -> Message {
    Message { ts, text: text.to_string(), sender: sender.to_string() }
}

fn assert_round_trip(e: &Message) {
    let encoded = encode(e);
    let decoded = decode(&encoded).expect("a canonical encoding must decode");
    assert_eq!(decoded.ts, e.ts);
    assert_eq!(decoded.text, e.text);
    assert_eq!(decoded.sender, e.sender);
}

#[test]
fn encode_canonical_form() {
    let e = msg(1, "hi", "alice");
    assert_eq!(encode(&e), "{\"ts\":1,\"text\":\"hi\",\"sender\":\"alice\"}");
}

#[test]
fn encode_negative_timestamp() {
    let e = msg(-42, "x", "y");
    assert_eq!(encode(&e), "{\"ts\":-42,\"text\":\"x\",\"sender\":\"y\"}");
}

#[test]
fn encode_escapes_quotes_and_backslashes() {
    let e = msg(0, "a\"b\\c", "d");
    assert_eq!(encode(&e), "{\"ts\":0,\"text\":\"a\\\"b\\\\c\",\"sender\":\"d\"}");
}

#[test]
fn round_trip_simple() {
    assert_round_trip(&msg(1, "hi", "alice"));
}

#[test]
fn round_trip_empty_fields() {
    assert_round_trip(&msg(0, "", ""));
}

#[test]
fn round_trip_negative_and_extreme_timestamps() {
    assert_round_trip(&msg(-1, "a", "b"));
    assert_round_trip(&msg(i64::MAX, "a", "b"));
    assert_round_trip(&msg(i64::MIN, "a", "b"));
}

#[test]
fn round_trip_escaped_characters() {
    assert_round_trip(&msg(7, "quote \" backslash \\ done", "na\\me\""));
    assert_round_trip(&msg(7, "\\", "\""));
}

#[test]
fn round_trip_unicode_text() {
    assert_round_trip(&msg(1700000000000, "héllo wörld ✓", "üser"));
}

#[test]
fn decode_exact_frame() {
    let d = decode("{\"ts\":1,\"text\":\"hi\",\"sender\":\"alice\"}").unwrap();
    assert_eq!(d.ts, 1);
    assert_eq!(d.text, "hi");
    assert_eq!(d.sender, "alice");
}

#[test]
fn decode_rejects_malformed() {
    assert!(decode("").is_none());
    assert!(decode("hello there").is_none());
    assert!(decode("{}").is_none());
    assert!(decode("{\"ts\":1}").is_none());
    assert!(decode("{\"ts\":,\"text\":\"\",\"sender\":\"\"}").is_none());
    assert!(decode("{\"ts\":1,\"text\":\"hi\",\"sender\":\"alice\"").is_none());
    assert!(decode("{\"ts\":1,\"text\":\"hi\",\"sender\":\"alice\"}x").is_none());
    assert!(decode("{\"ts\": 1,\"text\":\"hi\",\"sender\":\"alice\"}").is_none());
    assert!(decode("{\"ts\":01,\"text\":\"hi\",\"sender\":\"alice\"}").is_none());
    assert!(decode("{\"ts\":-0,\"text\":\"hi\",\"sender\":\"alice\"}").is_none());
    assert!(decode("{\"ts\":99999999999999999999,\"text\":\"a\",\"sender\":\"b\"}").is_none());
    assert!(decode("{\"ts\":1,\"text\":\"bad\\nescape\",\"sender\":\"x\"}").is_none());
}

#[test]
fn decode_rejects_reordered_fields_and_other_escapes() {
    // the canonical form fixes the field order; a reordered object is
    // not an encoding this codec produced
    assert!(decode("{\"ts\":1,\"sender\":\"alice\",\"text\":\"hi\"}").is_none());
    // only quotes and backslashes are escaped in canonical encodings
    assert!(decode("{\"ts\":1,\"text\":\"\\u0041\",\"sender\":\"x\"}").is_none());
    // an unescaped quote cannot occur inside a field value
    assert!(decode("{\"ts\":1,\"text\":\"a\"b\",\"sender\":\"x\"}").is_none());
}

#[test]
fn decode_accepts_braces_and_colons_inside_fields() {
    let d = decode("{\"ts\":1,\"text\":\"{\\\"ts\\\":2}\",\"sender\":\"x:y\"}").unwrap();
    assert_eq!(d.text, "{\"ts\":2}");
    assert_eq!(d.sender, "x:y");
}

#[test]
fn decode_rejects_timestamps_outside_range() {
    // one past each end of the i64 range
    assert!(decode("{\"ts\":9223372036854775808,\"text\":\"a\",\"sender\":\"b\"}").is_none());
    assert!(decode("{\"ts\":-9223372036854775809,\"text\":\"a\",\"sender\":\"b\"}").is_none());
    // the ends themselves are fine
    assert!(decode("{\"ts\":9223372036854775807,\"text\":\"a\",\"sender\":\"b\"}").is_some());
    assert!(decode("{\"ts\":-9223372036854775808,\"text\":\"a\",\"sender\":\"b\"}").is_some());
}

#[test]
fn malformed_payload_leaves_history_untouched() {
    let mut chat = ChatWidget::new();
    assert!(chat.ingest("{\"ts\":5,\"text\":\"ok\",\"sender\":\"a\"}"));
    assert_eq!(chat.messages.len(), 1);
    // a non-envelope text string is discarded without effect
    assert!(!chat.ingest("not an envelope at all"));
    assert!(!chat.ingest("{\"ts\":broken"));
    assert_eq!(chat.messages.len(), 1);
    assert_eq!(chat.messages[0].text, "ok");
}

#[test]
fn history_json_empty_reads_empty_array() {
    let messages: Vec<Message> = Vec::new();
    assert_eq!(history_json(&messages), "[]");
}

#[test]
fn history_json_lists_messages_in_order() {
    let messages = vec![msg(1, "a", "x"), msg(2, "b", "y")];
    assert_eq!(
        history_json(&messages),
        "[{\"ts\":1,\"text\":\"a\",\"sender\":\"x\"},{\"ts\":2,\"text\":\"b\",\"sender\":\"y\"}]"
    );
}
