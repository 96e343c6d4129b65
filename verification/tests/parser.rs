use logpulse::{json_text, latency_token, parse_common_log_line, parse_log_line, record_from_json};
use logpulse::{JsonLogLine, LogFormat, ParsedLogRecord};

fn empty_json() -> JsonLogLine {
    JsonLogLine {
        status: None,
        status_code: None,
        latency_ms: None,
        response_time: None,
        duration_ms: None,
        path: None,
        uri: None,
        url: None,
        ip: None,
        client_ip: None,
        bytes: None,
        bytes_sent: None,
    }
}

/// What the caller does around `parse_log_line` for a common-format line: the
/// latency token is parsed as a float.
fn latency_of(line: &str) -> Option<u64> {
    latency_token(line).and_then(|t| t.parse::<f64>().ok()).map(f64::to_bits)
}

#[test]
fn test_parse_json() {
    let line = r#"{"status": 500, "latency_ms": 124.5, "path": "/api/checkout", "ip": "10.0.0.1", "bytes": 512}"#;
    assert_eq!(json_text(line).as_deref(), Some(line));
    let json = JsonLogLine {
        status: Some(500),
        latency_ms: Some(124.5f64.to_bits()),
        path: Some("/api/checkout".to_string()),
        ip: Some("10.0.0.1".to_string()),
        bytes: Some(512),
        ..empty_json()
    };
    let record = parse_log_line(line, Some(json), None).expect("must parse JSON line");
    assert_eq!(record.status, 500);
    assert_eq!(f64::from_bits(record.latency_ms), 124.5);
    assert_eq!(record.path, "/api/checkout");
    assert_eq!(record.ip, "10.0.0.1");
    assert_eq!(record.bytes, 512);
}

#[test]
fn test_parse_common() {
    let line = r#"192.168.1.100 - - [30/Aug/2026:02:50:00 +0000] "GET /healthz HTTP/1.1" 200 45 3.2"#;
    assert_eq!(json_text(line), None);
    assert_eq!(latency_token(line).as_deref(), Some("3.2"));
    let record = parse_log_line(line, None, latency_of(line)).expect("must parse combined line");
    assert_eq!(record.status, 200);
    assert_eq!(record.path, "/healthz");
    assert_eq!(record.ip, "192.168.1.100");
    assert_eq!(record.bytes, 45);
    assert_eq!(f64::from_bits(record.latency_ms), 3.2);
}

#[test]
fn blank_lines_give_nothing() {
    assert!(parse_log_line("", None, None).is_none());
    assert!(parse_log_line("   \t  ", None, None).is_none());
    assert!(parse_log_line("\u{3000}\u{a0}", Some(empty_json()), Some(7)).is_none());
}

#[test]
fn json_text_is_trimmed_and_braced() {
    assert_eq!(json_text("  {\"a\":1}\t").as_deref(), Some("{\"a\":1}"));
    assert_eq!(json_text("{"), None);
    assert_eq!(json_text("}"), None);
    assert_eq!(json_text("x{}"), None);
    assert_eq!(json_text("{}").as_deref(), Some("{}"));
}

#[test]
fn json_defaults_and_alternative_names() {
    let r = record_from_json(empty_json());
    assert_eq!(r.status, 200);
    assert_eq!(r.latency_ms, 0);
    assert_eq!(r.path, "/");
    assert_eq!(r.ip, "127.0.0.1");
    assert_eq!(r.bytes, 0);

    let j = JsonLogLine {
        status_code: Some(404),
        duration_ms: Some(2.5f64.to_bits()),
        url: Some("/u".to_string()),
        client_ip: Some("10.1.1.1".to_string()),
        bytes_sent: Some(99),
        ..empty_json()
    };
    let r = record_from_json(j);
    assert_eq!(r.status, 404);
    assert_eq!(f64::from_bits(r.latency_ms), 2.5);
    assert_eq!(r.path, "/u");
    assert_eq!(r.ip, "10.1.1.1");
    assert_eq!(r.bytes, 99);

    // the first name present wins
    let j = JsonLogLine {
        status: Some(201),
        status_code: Some(500),
        response_time: Some(1.0f64.to_bits()),
        duration_ms: Some(9.0f64.to_bits()),
        uri: Some("/first".to_string()),
        url: Some("/second".to_string()),
        ..empty_json()
    };
    let r = record_from_json(j);
    assert_eq!(r.status, 201);
    assert_eq!(f64::from_bits(r.latency_ms), 1.0);
    assert_eq!(r.path, "/first");
}

#[test]
fn json_shaped_line_that_did_not_decode_is_read_as_common() {
    let line = "{ not json }";
    assert!(json_text(line).is_some());
    assert!(parse_log_line(line, None, None).is_none());
    // a decoded JSON line ignores the latency argument
    let r = parse_log_line("{}", Some(empty_json()), Some(5)).unwrap();
    assert_eq!(r.latency_ms, 0);
}

#[test]
fn common_line_defaults() {
    // no latency token, bytes not a number, status not a u16
    let line = r#"1.2.3.4 - - [t] "POST /x HTTP/1.0" 70000 - "#;
    let r = parse_common_log_line(line, None).unwrap();
    assert_eq!(r.status, 200);
    assert_eq!(r.bytes, 0);
    assert_eq!(r.latency_ms, 0);
    assert_eq!(r.path, "/x");
    assert_eq!(r.ip, "1.2.3.4");

    // a '+' sign is accepted, a '-' sign is not
    let line = r#"1.2.3.4 - - [t] "GET /a HTTP/1.0" +404 -5 x"#;
    let r = parse_common_log_line(line, None).unwrap();
    assert_eq!(r.status, 404);
    assert_eq!(r.bytes, 0);
    assert_eq!(r.latency_ms, 0);

    // the latency token is there but did not parse
    let line = r#"1.2.3.4 - - [t] "GET /a HTTP/1.0" 301 10 abc"#;
    assert_eq!(latency_token(line).as_deref(), Some("abc"));
    assert_eq!(parse_common_log_line(line, None).unwrap().latency_ms, 0);
    assert_eq!(parse_common_log_line(line, Some(42)).unwrap().latency_ms, 42);
}

#[test]
fn common_line_request_with_one_word_has_root_path() {
    let line = r#"9.9.9.9 a b c "GET" 500 1 2"#;
    let r = parse_common_log_line(line, None).unwrap();
    assert_eq!(r.path, "/");
    assert_eq!(r.status, 500);
    assert_eq!(r.bytes, 1);
}

#[test]
fn common_line_refusals() {
    // fewer than seven words
    assert!(parse_common_log_line(r#"1.2.3.4 "GET / HTTP/1.1" 200 5"#, None).is_none());
    // no quotes at all
    assert!(parse_common_log_line("a b c d e f g h", None).is_none());
    // no closing quote
    assert!(parse_common_log_line(r#"a b c d "e f g h"#, None).is_none());
    // nothing after the request
    assert!(parse_common_log_line(r#"a b c d e "GET /p HTTP/1.1"  "#, None).is_none());
}

#[test]
fn status_edge_values() {
    let r = parse_common_log_line(r#"a b c d "GET /p H" 65535 18446744073709551615"#, None).unwrap();
    assert_eq!(r.status, 65535);
    assert_eq!(r.bytes, u64::MAX);
    let r = parse_common_log_line(r#"a b c d "GET /p H" 65536 18446744073709551616"#, None).unwrap();
    assert_eq!(r.status, 200);
    assert_eq!(r.bytes, 0);
}

#[test]
fn record_can_be_built_and_cloned() {
    let r = ParsedLogRecord {
        status: 1,
        latency_ms: 2,
        path: "p".to_string(),
        ip: "i".to_string(),
        bytes: 3,
    };
    let c = r.clone();
    assert_eq!(c.path, "p");
    let _ = (LogFormat::Auto, LogFormat::Json, LogFormat::Common);
}

#[test]
fn default_record_is_empty() {
    let r = ParsedLogRecord::default();
    assert_eq!(r.status, 0);
    assert_eq!(r.latency_ms, 0);
    assert_eq!(r.path, "");
    assert_eq!(r.ip, "");
    assert_eq!(r.bytes, 0);
}

#[test]
fn words_are_split_on_unicode_white_space() {
    let line = "1.2.3.4\u{2003}-\u{a0}- [t]\u{3000}\"GET\u{2009}/w H\" 204\u{85}7";
    let r = parse_common_log_line(line, None).unwrap();
    assert_eq!(r.ip, "1.2.3.4");
    assert_eq!(r.path, "/w");
    assert_eq!(r.status, 204);
    assert_eq!(r.bytes, 7);
}

/// The JSON line of `test_parse_json`, decoded with serde_json, gives the
/// field values that test hands to `parse_log_line`.
#[test]
fn json_line_decoded_with_serde_json() {
    let line = r#"{"status": 500, "latency_ms": 124.5, "path": "/api/checkout", "ip": "10.0.0.1", "bytes": 512}"#;
    let text = json_text(line).expect("JSON-shaped");
    let v: serde_json::Value = serde_json::from_str(&text).expect("valid JSON");
    let s = |k: &str| v.get(k).and_then(|x| x.as_str()).map(|x| x.to_string());
    let json = JsonLogLine {
        status: v.get("status").and_then(|x| x.as_u64()).map(|x| x as u16),
        latency_ms: v.get("latency_ms").and_then(|x| x.as_f64()).map(f64::to_bits),
        path: s("path"),
        ip: s("ip"),
        bytes: v.get("bytes").and_then(|x| x.as_u64()),
        ..empty_json()
    };
    let record = parse_log_line(line, Some(json), None).unwrap();
    assert_eq!(record.status, 500);
    assert_eq!(f64::from_bits(record.latency_ms), 124.5);
    assert_eq!(record.path, "/api/checkout");
    assert_eq!(record.ip, "10.0.0.1");
    assert_eq!(record.bytes, 512);
}
