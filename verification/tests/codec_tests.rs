use relay::json::client_message_json;
use relay::json::error_message_json;
use relay::json::parse_client_message;
use relay::json::parse_error_message;
use relay::messages::ClientMessage;
use relay::messages::ServerErrorMessage;

#[test]
fn parse_valid_envelope() {
    let m = parse_client_message("{\"user\":\"alice\",\"msg\":\"hi\"}").unwrap();
    assert_eq!(m.user, "alice");
    assert_eq!(m.msg, "hi");
}

#[test]
fn parse_reversed_members() {
    let m = parse_client_message("{\"msg\":\"hi\",\"user\":\"alice\"}").unwrap();
    assert_eq!(m.user, "alice");
    assert_eq!(m.msg, "hi");
}

#[test]
fn parse_with_whitespace() {
    let m = parse_client_message(" {\t\"user\" : \"alice\" ,\n\"msg\" : \"hi\" } \r\n").unwrap();
    assert_eq!(m.user, "alice");
    assert_eq!(m.msg, "hi");
}

#[test]
fn parse_decodes_escapes() {
    let m = parse_client_message("{\"user\":\"a\\\"b\",\"msg\":\"x\\n\\t\\\\y\"}").unwrap();
    assert_eq!(m.user, "a\"b");
    assert_eq!(m.msg, "x\n\t\\y");
}

#[test]
fn parse_decodes_unicode_escapes() {
    let m = parse_client_message("{\"user\":\"a\",\"msg\":\"\\u0041\\u00e9\\u20AC\"}").unwrap();
    assert_eq!(m.msg, "A\u{e9}\u{20ac}");
}

#[test]
fn parse_decodes_surrogate_pairs() {
    let m = parse_client_message("{\"user\":\"a\",\"msg\":\"\\ud83d\\ude00!\"}").unwrap();
    assert_eq!(m.msg, "\u{1f600}!");
}

#[test]
fn parse_rejects_bad_unicode_escapes() {
    assert!(parse_client_message("{\"user\":\"a\",\"msg\":\"\\u00\"}").is_none());
    assert!(parse_client_message("{\"user\":\"a\",\"msg\":\"\\u00zz\"}").is_none());
    assert!(parse_client_message("{\"user\":\"a\",\"msg\":\"\\ud800\"}").is_none());
    assert!(parse_client_message("{\"user\":\"a\",\"msg\":\"\\ude00\"}").is_none());
    assert!(parse_client_message("{\"user\":\"a\",\"msg\":\"\\ud83dx\"}").is_none());
}

#[test]
fn parse_rejects_malformed() {
    assert!(parse_client_message("{\"foo\": \"bar\"}").is_none());
}

#[test]
fn parse_rejects_wrong_shapes() {
    assert!(parse_client_message("").is_none());
    assert!(parse_client_message("hi").is_none());
    assert!(parse_client_message("{\"user\":\"alice\"}").is_none());
    assert!(parse_client_message("{\"user\":\"a\",\"msg\":\"b\",\"extra\":\"c\"}").is_none());
    assert!(parse_client_message("{\"user\":\"a\",\"msg\":\"b\"} trailing").is_none());
    assert!(parse_client_message("{\"user\":\"a\",\"msg\":3}").is_none());
    assert!(parse_client_message("{\"user\":\"a\",\"msg\":\"unterminated}").is_none());
    assert!(parse_client_message("{\"user\":\"a\",\"msg\":\"ctrl\u{1}\"}").is_none());
}

#[test]
fn encode_client_message() {
    let m = ClientMessage::new("alice".to_string(), "hi".to_string());
    assert_eq!(client_message_json(&m), "{\"user\":\"alice\",\"msg\":\"hi\"}");
}

#[test]
fn encode_escapes_specials() {
    let m = ClientMessage::new("a\"b".to_string(), "x\n\\y".to_string());
    assert_eq!(client_message_json(&m), "{\"user\":\"a\\\"b\",\"msg\":\"x\\n\\\\y\"}");
}

#[test]
fn encode_escapes_bare_controls() {
    let m = ClientMessage::new("a".to_string(), "bad\u{1}\u{1f}".to_string());
    assert_eq!(client_message_json(&m), "{\"user\":\"a\",\"msg\":\"bad\\u0001\\u001f\"}");
}

#[test]
fn encode_error_message() {
    let m = ServerErrorMessage::new(400, "Invalid message format".to_string());
    assert_eq!(error_message_json(&m), "{\"code\":400,\"error\":\"Invalid message format\"}");
}

#[test]
fn encode_error_digits() {
    let m = ServerErrorMessage::new(0, "x".to_string());
    assert_eq!(error_message_json(&m), "{\"code\":0,\"error\":\"x\"}");
    let m = ServerErrorMessage::new(65535, "x".to_string());
    assert_eq!(error_message_json(&m), "{\"code\":65535,\"error\":\"x\"}");
}

#[test]
fn parse_error_envelope() {
    let m = parse_error_message("{\"code\":400,\"error\":\"Invalid message format\"}").unwrap();
    assert_eq!(m.code, 400);
    assert_eq!(m.error, "Invalid message format");
}

#[test]
fn parse_error_reversed_members() {
    let m = parse_error_message(" { \"error\" : \"boom\" , \"code\" : 500 } ").unwrap();
    assert_eq!(m.code, 500);
    assert_eq!(m.error, "boom");
}

#[test]
fn parse_error_rejects_bad_codes() {
    assert!(parse_error_message("{\"code\":70000,\"error\":\"big\"}").is_none());
    assert!(parse_error_message("{\"code\":0400,\"error\":\"zeros\"}").is_none());
    assert!(parse_error_message("{\"code\":-1,\"error\":\"neg\"}").is_none());
    assert!(parse_error_message("{\"code\":\"400\",\"error\":\"str\"}").is_none());
    let m = parse_error_message("{\"code\":0,\"error\":\"zero\"}").unwrap();
    assert_eq!(m.code, 0);
}

#[test]
fn round_trip_client_message() {
    let m = ClientMessage::new("al\"ice\\".to_string(), "line\none\ttab \u{0}\u{1f600}".to_string());
    let s = client_message_json(&m);
    let back = parse_client_message(&s).unwrap();
    assert_eq!(back.user, m.user);
    assert_eq!(back.msg, m.msg);
}

#[test]
fn round_trip_error_message() {
    let m = ServerErrorMessage::new(404, "not\tfound\u{2}".to_string());
    let s = error_message_json(&m);
    let back = parse_error_message(&s).unwrap();
    assert_eq!(back.code, m.code);
    assert_eq!(back.error, m.error);
}
