//! The stream-filter front ends built on the engine.

use base64::Engine;
use linespec::{compile, MatchResult, Value};

fn must(spec: &[u8]) -> linespec::Pattern {
    compile(spec).unwrap()
}

fn text(v: &Value) -> String {
    match v {
        Value::Str(s) => String::from_utf8(s.clone()).unwrap(),
        Value::Int(i) => i.to_string(),
        Value::UInt(u) => u.to_string(),
        Value::Float(t) => String::from_utf8(t.clone()).unwrap(),
        Value::Bool(b) => b.to_string(),
    }
}

fn to_json_object(result: &MatchResult) -> serde_json::Value {
    let mut obj = serde_json::Map::new();
    for (name, value) in result.values() {
        obj.insert(
            String::from_utf8(name.clone()).unwrap(),
            serde_json::Value::String(text(value)),
        );
    }
    serde_json::Value::Object(obj)
}

#[test]
fn test_encode() {
    let encoded = base64::engine::general_purpose::STANDARD.encode(b"hello");
    assert_eq!(encoded, "aGVsbG8=");
}

#[test]
fn test_decode() {
    let decoded = base64::engine::general_purpose::STANDARD.decode("aGVsbG8=").unwrap();
    let text = String::from_utf8(decoded).unwrap();
    assert_eq!(text, "hello");
}

#[test]
fn test_encode_decode_roundtrip() {
    let original = "Hello, World! 123";
    let encoded = base64::engine::general_purpose::STANDARD.encode(original.as_bytes());
    let decoded = base64::engine::general_purpose::STANDARD.decode(&encoded).unwrap();
    let result = String::from_utf8(decoded).unwrap();
    assert_eq!(result, original);
}

#[test]
fn main_test_format_output_simple() {
    let parser = must(b"{input}");
    let result = parser.match_line(b"test").unwrap();

    let output = linespec::b64::format_output(b"{output}", &result, b"encoded_value");
    assert_eq!(output, b"encoded_value".to_vec());
}

#[test]
fn test_format_output_with_other_fields() {
    let parser = must(b"{timestamp} {input}");
    let result = parser.match_line(b"2023-01-01 test").unwrap();

    let output = linespec::b64::format_output(b"{timestamp} {output}", &result, b"encoded");
    assert_eq!(output, b"2023-01-01 encoded".to_vec());
}

#[test]
fn test_encode_line_full() {
    let parser = must(b"{input}");
    let out = linespec::b64::encode_line(&parser, b"{output}", b"hello").unwrap();
    assert_eq!(out, b"aGVsbG8=".to_vec());
}

#[test]
fn test_decode_line_full() {
    let parser = must(b"{input}");
    let out = linespec::b64::decode_line(&parser, b"{output}", b"aGVsbG8=").unwrap();
    assert_eq!(out, b"hello".to_vec());
    assert!(linespec::b64::decode_line(&parser, b"{output}", b"!!!").is_none());
}

#[test]
fn test_decode_line_rejects_non_utf8() {
    // "/w==" is valid base64 for the lone byte 0xff, which is not UTF-8
    let parser = must(b"{input}");
    assert!(linespec::b64::decode_line(&parser, b"{output}", b"/w==").is_none());
}

#[test]
fn test_jsonify_simple() {
    let parser = must(b"{name} {value}");
    let result = parser.match_line(b"hello world").unwrap();

    let json_output = to_json_object(&result);
    let parsed: serde_json::Value = serde_json::from_str(&json_output.to_string()).unwrap();

    assert_eq!(parsed["name"], "hello");
    assert_eq!(parsed["value"], "world");
}

#[test]
fn test_jsonify_multiple_fields() {
    let parser = must(b"{timestamp} {level} {message}");
    let result = parser.match_line(b"2023-01-01 INFO test").unwrap();

    let json_output = to_json_object(&result);
    let parsed: serde_json::Value = serde_json::from_str(&json_output.to_string()).unwrap();

    assert_eq!(parsed["timestamp"], "2023-01-01");
    assert_eq!(parsed["level"], "INFO");
    assert_eq!(parsed["message"], "test");
}

#[test]
fn test_jsonify_with_integer() {
    let parser = must(b"{name} {value:d}");
    let result = parser.match_line(b"count 42").unwrap();

    let mut obj = serde_json::Map::new();
    for (name, value) in result.values() {
        let json_value = match value {
            Value::Int(i) => serde_json::Value::Number((*i).into()),
            _ => serde_json::Value::String(text(value)),
        };
        obj.insert(String::from_utf8(name.clone()).unwrap(), json_value);
    }
    let json_output = serde_json::Value::Object(obj);
    let parsed: serde_json::Value = serde_json::from_str(&json_output.to_string()).unwrap();

    assert_eq!(parsed["name"], "count");
    assert_eq!(parsed["value"], 42);
}

#[test]
fn test_jsonify_line_sorted_and_escaped() {
    let parser = must(b"{b} {a}");
    let out = linespec::jsonify::jsonify_line(&parser, b"x y").unwrap();
    assert_eq!(String::from_utf8(out).unwrap(), r#"{"a":"y","b":"x"}"#);

    let parser = must(b"{v}");
    let out = linespec::jsonify::jsonify_line(&parser, b"say\t\"hi\"").unwrap();
    let parsed: serde_json::Value =
        serde_json::from_str(&String::from_utf8(out).unwrap()).unwrap();
    assert_eq!(parsed["v"], "say\t\"hi\"");

    // a bare control byte takes the \u00xx form
    let out = linespec::jsonify::jsonify_line(&parser, b"a\x0bb").unwrap();
    assert_eq!(String::from_utf8(out).unwrap(), r#"{"v":"a\u000bb"}"#);
}

#[test]
fn test_jsonify_line_float_is_valid_json() {
    let parser = must(b"{v:f}");
    // every accepted float shape must come out as a JSON number
    let cases: Vec<(&[u8], &str)> = vec![
        (b"+5", r#"{"v":5}"#),
        (b"5.", r#"{"v":5.0}"#),
        (b".5", r#"{"v":0.5}"#),
        (b"-.5", r#"{"v":-0.5}"#),
        (b"007.5", r#"{"v":7.5}"#),
        (b"000", r#"{"v":0}"#),
        (b"1.5e3", r#"{"v":1.5e3}"#),
        (b"-0.25", r#"{"v":-0.25}"#),
        (b"5.e-2", r#"{"v":5.0e-2}"#),
    ];
    for (line, expected) in cases {
        let out = linespec::jsonify::jsonify_line(&parser, line).unwrap();
        let text = String::from_utf8(out).unwrap();
        assert_eq!(text, expected);
        // and serde_json agrees that it is JSON
        let parsed: serde_json::Value = serde_json::from_str(&text).unwrap();
        assert!(parsed["v"].is_number());
    }
}

#[test]
fn test_jsonify_line_integer_value() {
    let parser = must(b"{name} {value:d}");
    let out = linespec::jsonify::jsonify_line(&parser, b"count 42").unwrap();
    let parsed: serde_json::Value =
        serde_json::from_str(&String::from_utf8(out).unwrap()).unwrap();
    assert_eq!(parsed["name"], "count");
    assert_eq!(parsed["value"], 42);
}

#[test]
fn test_get_key_no_parser() {
    let key = linespec::limit::get_key(b"any line", &None);
    assert_eq!(key, Some(b"fixed".to_vec()));
}

#[test]
fn test_get_key_with_parser() {
    let parser = Some(must(b"{key} {data}"));
    let key = linespec::limit::get_key(b"mykey somedata", &parser);
    assert_eq!(key, Some(b"mykey".to_vec()));
}

#[test]
fn test_get_key_parse_failure() {
    let parser = Some(must(b"{key} {data}"));
    let key = linespec::limit::get_key(b"invalid", &parser);
    assert_eq!(key, None);
}

#[test]
fn test_get_key_trims_trailing_whitespace() {
    let parser = Some(must(b"{key} {data}"));
    let key = linespec::limit::get_key(b"mykey somedata \n", &parser);
    assert_eq!(key, Some(b"mykey".to_vec()));
}

#[test]
fn test_rate_limiter_per_key() {
    let mut limiter = linespec::limit::RateLimiter::new();
    // first line of a key passes and stamps it
    assert!(limiter.check(b"k1", 100, 50));
    // too soon: blocked, and the stamp stays
    assert!(!limiter.check(b"k1", 120, 50));
    // exactly the interval later is still blocked (strictly greater wins)
    assert!(!limiter.check(b"k1", 150, 50));
    assert!(limiter.check(b"k1", 151, 50));
    // an unrelated key is independent
    assert!(limiter.check(b"k2", 120, 50));
}

#[test]
fn test_build_regex() {
    let (regex, fields) = linespec::regexgen::build_regex(b"{name} {value}").unwrap();
    let fields: Vec<String> =
        fields.into_iter().map(|f| String::from_utf8(f).unwrap()).collect();
    assert_eq!(fields, vec!["name", "value"]);

    let regex = String::from_utf8(regex).unwrap();
    let re = regex::Regex::new(&format!("^{}$", regex)).unwrap();
    assert!(re.is_match("hello world"));

    let caps = re.captures("hello world").unwrap();
    assert_eq!(caps.get(1).unwrap().as_str(), "hello");
    assert_eq!(caps.get(2).unwrap().as_str(), "world");
}

#[test]
fn test_complex_pattern() {
    let (regex, fields) = linespec::regexgen::build_regex(b"{timestamp} {level} {message}").unwrap();
    let fields: Vec<String> =
        fields.into_iter().map(|f| String::from_utf8(f).unwrap()).collect();
    assert_eq!(fields, vec!["timestamp", "level", "message"]);

    let regex = String::from_utf8(regex).unwrap();
    let re = regex::Regex::new(&format!("^{}$", regex)).unwrap();
    let text = "2023-01-01 INFO This is a message";
    assert!(re.is_match(text));

    let caps = re.captures(text).unwrap();
    assert_eq!(caps.get(1).unwrap().as_str(), "2023-01-01");
    assert_eq!(caps.get(2).unwrap().as_str(), "INFO");
    assert_eq!(caps.get(3).unwrap().as_str(), "This is a message");
}

#[test]
fn test_build_regex_rejects_unterminated_field() {
    let err = linespec::regexgen::build_regex(b"{name").unwrap_err();
    assert_eq!(err.pos, 0);
}

#[test]
fn test_build_regex_escapes_metacharacters() {
    let (regex, _) = linespec::regexgen::build_regex(b"a.b {x}").unwrap();
    assert_eq!(String::from_utf8(regex).unwrap(), r"a\.b (.+)");
}

#[test]
fn test_format_output_simple() {
    let parser = must(b"{name} {value}");
    let result = parser.match_line(b"hello world").unwrap();

    let output = linespec::shuffle::format_output(b"{value} {name}", &result);
    assert_eq!(output, b"world hello".to_vec());
}

#[test]
fn test_format_output_with_literals() {
    let parser = must(b"{x} {y}");
    let result = parser.match_line(b"1 2").unwrap();

    let output = linespec::shuffle::format_output(b"x={x}, y={y}", &result);
    assert_eq!(output, b"x=1, y=2".to_vec());
}

#[test]
fn test_format_output_repeated_placeholder() {
    let parser = must(b"{val}");
    let result = parser.match_line(b"test").unwrap();

    let output = linespec::shuffle::format_output(b"{val} {val} {val}", &result);
    assert_eq!(output, b"test test test".to_vec());
}

#[test]
fn test_shuffle_line_no_match() {
    let parser = must(b"{a} {b}");
    assert!(linespec::shuffle::shuffle_line(&parser, b"{b} {a}", b"oneword").is_none());
    let out = linespec::shuffle::shuffle_line(&parser, b"{b} {a}", b"one two").unwrap();
    assert_eq!(out, b"two one".to_vec());
}

#[test]
fn test_format_epoch() {
    let ts = linespec::timestamp::format_epoch();
    let parsed: f64 = ts.parse().expect("Should be valid float");
    assert!(parsed > 0.0);
    // Check it has 6 decimal places
    assert!(ts.contains('.'));
    let decimals = ts.split('.').nth(1).unwrap();
    assert_eq!(decimals.len(), 6);
}

#[test]
fn test_format_epoch_at_exact() {
    assert_eq!(linespec::timestamp::format_epoch_at(5, 42), "5.000042");
    assert_eq!(linespec::timestamp::format_epoch_at(1700000000, 999999), "1700000000.999999");
    assert_eq!(linespec::timestamp::format_epoch_at(0, 0), "0.000000");
}
