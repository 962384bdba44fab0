//! The pattern engine itself: grammar, matching, coercion, rendering.

use linespec::{compile, render, MatchResult, Value};

fn must(spec: &[u8]) -> linespec::Pattern {
    compile(spec).unwrap()
}

#[test]
fn test_unterminated_field_fails() {
    assert!(compile(b"{name").is_err());
    assert!(compile(b"{name}").is_ok());
}

#[test]
fn test_grammar_error_position() {
    let err = compile(b"ab{x").unwrap_err();
    assert_eq!(err.pos, 2);
}

#[test]
fn test_empty_template_matches_empty_line() {
    let p = must(b"");
    assert!(p.match_line(b"").is_some());
    assert!(p.match_line(b"x").is_none());
}

#[test]
fn test_last_field_captures_spaces() {
    let p = must(b"{a} {b}");
    let r = p.match_line(b"x y z").unwrap();
    assert_eq!(r.get(b"a"), Some(&Value::Str(b"x".to_vec())));
    assert_eq!(r.get(b"b"), Some(&Value::Str(b"y z".to_vec())));
}

#[test]
fn test_anonymous_field_absent_from_lookup() {
    let p = must(b"{} {v}");
    let r = p.match_line(b"skip keep").unwrap();
    assert_eq!(r.get(b"v"), Some(&Value::Str(b"keep".to_vec())));
    assert!(r.get(b"").is_none());
}

#[test]
fn test_int_coercion() {
    let p = must(b"{n} {v:d}");
    let r = p.match_line(b"count 42").unwrap();
    assert_eq!(r.get(b"v"), Some(&Value::Int(42)));
    assert!(p.match_line(b"count x").is_none());
}

#[test]
fn test_int_coercion_negative_and_overflow() {
    let p = must(b"{v:d}");
    let r = p.match_line(b"-17").unwrap();
    assert_eq!(r.get(b"v"), Some(&Value::Int(-17)));
    let r = p.match_line(b"9223372036854775807").unwrap();
    assert_eq!(r.get(b"v"), Some(&Value::Int(i64::MAX)));
    let r = p.match_line(b"-9223372036854775808").unwrap();
    assert_eq!(r.get(b"v"), Some(&Value::Int(i64::MIN)));
    assert!(p.match_line(b"9223372036854775808").is_none());
}

#[test]
fn test_uint_coercion_rejects_sign() {
    let p = must(b"{v:u}");
    let r = p.match_line(b"42").unwrap();
    assert_eq!(r.get(b"v"), Some(&Value::UInt(42)));
    assert!(p.match_line(b"+5").is_none());
    assert!(p.match_line(b"-5").is_none());
}

#[test]
fn test_float_coercion_keeps_text() {
    let p = must(b"{v:f}");
    let r = p.match_line(b"1.5e3").unwrap();
    assert_eq!(r.get(b"v"), Some(&Value::Float(b"1.5e3".to_vec())));
    let r = p.match_line(b"-0.25").unwrap();
    assert_eq!(r.get(b"v"), Some(&Value::Float(b"-0.25".to_vec())));
    assert!(p.match_line(b"x").is_none());
    assert!(p.match_line(b"1.2.3").is_none());
    assert!(p.match_line(b"1e").is_none());
}

#[test]
fn test_bool_coercion_case_sensitive() {
    let p = must(b"{v:b}");
    let r = p.match_line(b"true").unwrap();
    assert_eq!(r.get(b"v"), Some(&Value::Bool(true)));
    let r = p.match_line(b"false").unwrap();
    assert_eq!(r.get(b"v"), Some(&Value::Bool(false)));
    assert!(p.match_line(b"True").is_none());
}

#[test]
fn test_unknown_hint_is_string() {
    let p = must(b"{v:zz}");
    let r = p.match_line(b"word").unwrap();
    assert_eq!(r.get(b"v"), Some(&Value::Str(b"word".to_vec())));
}

#[test]
fn test_anonymous_typed_field_still_coerces() {
    let p = must(b"{:d} {v}");
    assert!(p.match_line(b"notanumber keep").is_none());
    let r = p.match_line(b"7 keep").unwrap();
    assert_eq!(r.get(b"v"), Some(&Value::Str(b"keep".to_vec())));
}

#[test]
fn test_literal_metacharacters_match_verbatim() {
    let p = must(b"{a}.{b}");
    assert!(p.match_line(b"xZy").is_none());
    let r = p.match_line(b"x.y").unwrap();
    assert_eq!(r.get(b"a"), Some(&Value::Str(b"x".to_vec())));
    assert_eq!(r.get(b"b"), Some(&Value::Str(b"y".to_vec())));
}

#[test]
fn test_partial_match_is_no_match() {
    let p = must(b"{a} end");
    assert!(p.match_line(b"x end and more").is_none());
    assert!(p.match_line(b"x end").is_some());
}

#[test]
fn test_duplicate_name_last_wins_on_lookup() {
    let p = must(b"{a} {a}");
    let r = p.match_line(b"x y").unwrap();
    assert_eq!(r.get(b"a"), Some(&Value::Str(b"y".to_vec())));
}

#[test]
fn test_unmatched_placeholder_passthrough() {
    let empty = MatchResult::new();
    let out = render(b"{missing}", &empty, &Vec::new());
    assert_eq!(out, b"{missing}".to_vec());
}

#[test]
fn test_extras_take_precedence() {
    let p = must(b"{a}");
    let r = p.match_line(b"captured").unwrap();
    let extra = vec![(b"a".to_vec(), b"synthetic".to_vec())];
    let out = render(b"{a}", &r, &extra);
    assert_eq!(out, b"synthetic".to_vec());
}

#[test]
fn test_no_recursive_expansion() {
    let p = must(b"{a} {b}");
    let r = p.match_line(b"one two").unwrap();
    let extra = vec![(b"x".to_vec(), b"{a}".to_vec())];
    // within one pass, substituted text is never re-scanned; a later pass
    // still sees it, since entries substitute after extras
    let out = render(b"{x}", &r, &extra);
    assert_eq!(out, b"one".to_vec());
}

#[test]
fn test_render_int_value() {
    let p = must(b"{v:d}");
    let r = p.match_line(b"-9223372036854775808").unwrap();
    let out = render(b"v={v}", &r, &Vec::new());
    assert_eq!(out, b"v=-9223372036854775808".to_vec());
    let r = p.match_line(b"+7").unwrap();
    // a signed capture renders as its numeric value, not its raw text
    let out = render(b"{v}", &r, &Vec::new());
    assert_eq!(out, b"7".to_vec());
}

#[test]
fn test_render_float_keeps_captured_text() {
    let p = must(b"{v:f}");
    let r = p.match_line(b"1.50").unwrap();
    let out = render(b"{v}", &r, &Vec::new());
    assert_eq!(out, b"1.50".to_vec());
}

#[test]
fn test_round_trip_concrete() {
    // the round-trip law on concrete values: word fields, literal text
    let p = must(b"{a} {b}!");
    let r = p.match_line(b"x y!").unwrap();
    let out = render(b"{a} {b}!", &r, &Vec::new());
    assert_eq!(out, b"x y!".to_vec());
}

#[test]
fn test_greedy_earlier_field() {
    // with several workable splits, an earlier field takes the longest
    let p = must(b"{a}.{b}");
    let r = p.match_line(b"x.y.z").unwrap();
    assert_eq!(r.get(b"a"), Some(&Value::Str(b"x.y".to_vec())));
    assert_eq!(r.get(b"b"), Some(&Value::Str(b"z".to_vec())));
}
