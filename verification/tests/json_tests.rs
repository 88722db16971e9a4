//! End-to-end tests of the parser, the query navigator and the two
//! serializers.

use json_parser_str::parse_json;
use json_parser_str::parse_string;
use json_parser_str::pretty_print_json;
use json_parser_str::ErrorKind;
use json_parser_str::JsonValue;

fn num(s: &str) -> JsonValue {
    JsonValue::Number(s.to_string())
}

#[test]
fn parses_scalars() {
    assert_eq!(parse_json("null"), Ok(JsonValue::Null));
    assert_eq!(parse_json("true"), Ok(JsonValue::Boolean(true)));
    assert_eq!(parse_json("false"), Ok(JsonValue::Boolean(false)));
    assert_eq!(parse_json("42"), Ok(num("42")));
    assert_eq!(parse_json("-1.5"), Ok(num("-1.5")));
    assert_eq!(parse_json("\"hi\""), Ok(JsonValue::Str("hi".to_string())));
}

#[test]
fn parses_number_edge_forms() {
    assert_eq!(parse_json("5."), Ok(num("5.")));
    assert_eq!(parse_json(".5"), Ok(num(".5")));
    assert_eq!(parse_json("-.5"), Ok(num("-.5")));
    assert_eq!(parse_json("-"), Err(ErrorKind::InvalidNumber));
    assert_eq!(parse_json("1.2.3"), Err(ErrorKind::InvalidNumber));
    assert_eq!(parse_json("--5"), Err(ErrorKind::InvalidNumber));
    assert_eq!(parse_json("5-"), Err(ErrorKind::InvalidNumber));
    assert_eq!(parse_json(""), Err(ErrorKind::InvalidNumber));
    assert_eq!(parse_json("xyz"), Err(ErrorKind::InvalidNumber));
}

#[test]
fn empty_object_and_array() {
    assert_eq!(parse_json("{}"), Ok(JsonValue::Object(vec![])));
    assert_eq!(parse_json("[]"), Ok(JsonValue::Array(vec![])));
}

#[test]
fn parses_nested_structure() {
    let v = parse_json("{ \"a\" : [ 1 , true , null ] , \"b\" : { } }").unwrap();
    assert_eq!(
        v,
        JsonValue::Object(vec![
            (
                "a".to_string(),
                JsonValue::Array(vec![num("1"), JsonValue::Boolean(true), JsonValue::Null])
            ),
            ("b".to_string(), JsonValue::Object(vec![])),
        ])
    );
}

#[test]
fn missing_close_brace_is_an_error() {
    assert_eq!(parse_json("{\"a\":1"), Err(ErrorKind::MissingSeparator));
}

#[test]
fn missing_colon_is_an_error() {
    assert_eq!(parse_json("{\"a\" 1}"), Err(ErrorKind::MissingSeparator));
    assert_eq!(parse_json("[1 2]"), Err(ErrorKind::MissingSeparator));
}

#[test]
fn non_string_key_is_an_error() {
    assert_eq!(parse_json("{x:1}"), Err(ErrorKind::UnexpectedToken));
}

#[test]
fn unterminated_string_is_an_error() {
    assert_eq!(parse_json("\"abc"), Err(ErrorKind::UnterminatedString));
    assert_eq!(parse_json("{\"abc"), Err(ErrorKind::UnterminatedString));
}

#[test]
fn error_messages() {
    assert_eq!(ErrorKind::UnexpectedToken.message(), "unexpected token");
    assert_eq!(ErrorKind::UnterminatedString.message(), "unterminated string");
    assert_eq!(ErrorKind::InvalidNumber.message(), "invalid number");
    assert_eq!(ErrorKind::MissingSeparator.message(), "missing separator");
}

#[test]
fn backslash_is_no_escape() {
    // The five-character input "a\"b" : the string ends at the first
    // quote after the opening one, so the content is a backslash after
    // the letter, and the remainder starts at the letter b.
    let input = "\"a\\\"b\"";
    assert_eq!(parse_json(input), Ok(JsonValue::Str("a\\".to_string())));
    let (content, rest) = parse_string(input).unwrap();
    assert_eq!(content, "a\\");
    assert_eq!(rest, "b\"");
}

#[test]
fn literal_prefixes_are_not_word_aware() {
    assert_eq!(parse_json("truex"), Ok(JsonValue::Boolean(true)));
    assert_eq!(parse_json("nullable"), Ok(JsonValue::Null));
}

#[test]
fn trailing_text_is_ignored() {
    assert_eq!(parse_json("5 garbage"), Ok(num("5")));
    assert_eq!(parse_json("  null ok"), Ok(JsonValue::Null));
}

#[test]
fn get_returns_first_duplicate() {
    let v = parse_json("{\"a\":1,\"a\":2}").unwrap();
    assert_eq!(v.get("a"), Some(&num("1")));
}

#[test]
fn get_misses_and_non_objects() {
    let v = parse_json("{\"a\":1}").unwrap();
    assert_eq!(v.get("b"), None);
    assert_eq!(parse_json("5").unwrap().get("a"), None);
    assert_eq!(parse_json("[1]").unwrap().get("0"), None);
}

#[test]
fn index_within_and_out_of_range() {
    let v = parse_json("[10,20,30]").unwrap();
    assert_eq!(v.index(0), Some(&num("10")));
    assert_eq!(v.index(2), Some(&num("30")));
    assert_eq!(v.index(3), None);
    assert_eq!(parse_json("{}").unwrap().index(0), None);
}

#[test]
fn query_composes_segments() {
    let v = parse_json("{\"a\":[{\"b\":true}]}").unwrap();
    assert_eq!(v.query("a.0.b"), Some(&JsonValue::Boolean(true)));
    assert_eq!(v.query("a.9.b"), None);
}

#[test]
fn query_single_and_empty_segments() {
    let v = parse_json("{\"a\":1,\"\":2}").unwrap();
    assert_eq!(v.query("a"), Some(&num("1")));
    assert_eq!(v.query(""), Some(&num("2")));
    assert_eq!(v.query("missing"), None);
}

#[test]
fn query_numeric_segment_quirks() {
    // A leading plus still reads as an index, as a strict unsigned
    // integer parse accepts it.
    let v = parse_json("{\"a\":[10,20]}").unwrap();
    assert_eq!(v.query("a.+1"), Some(&num("20")));
    // A numeric segment too large for the machine falls back to key
    // lookup.
    let w = parse_json("{\"99999999999999999999999999\":true}").unwrap();
    assert_eq!(
        w.query("99999999999999999999999999"),
        Some(&JsonValue::Boolean(true))
    );
}

#[test]
fn compact_rendering_exact() {
    let v = parse_json("{\"x\":1,\"y\":[2,3]}").unwrap();
    assert_eq!(v.to_text(), "{\"x\":1,\"y\":[2,3]}");
}

#[test]
fn compact_rendering_scalars() {
    assert_eq!(parse_json("null").unwrap().to_text(), "null");
    assert_eq!(parse_json("true").unwrap().to_text(), "true");
    assert_eq!(parse_json("\"hi\"").unwrap().to_text(), "\"hi\"");
    assert_eq!(parse_json("[]").unwrap().to_text(), "[]");
    assert_eq!(parse_json("{}").unwrap().to_text(), "{}");
}

#[test]
fn pretty_rendering_exact() {
    let v = parse_json("{\"x\":1,\"y\":[2,3]}").unwrap();
    assert_eq!(
        pretty_print_json(&v, 0),
        "{\n  \"x\": 1,\n  \"y\": [\n    2,\n    3\n  ]\n}"
    );
}

#[test]
fn pretty_rendering_starts_at_given_level() {
    let v = parse_json("[1]").unwrap();
    assert_eq!(pretty_print_json(&v, 1), "[\n    1\n  ]");
    assert_eq!(pretty_print_json(&v, 0), "[\n  1\n]");
}

#[test]
fn pretty_rendering_empty_containers() {
    assert_eq!(pretty_print_json(&parse_json("[]").unwrap(), 0), "[\n]");
    assert_eq!(pretty_print_json(&parse_json("{}").unwrap(), 0), "{\n}");
}

#[test]
fn trailing_comma_is_tolerated() {
    // After a comma the member loop first checks for a closing bracket,
    // so a trailing comma closes the container cleanly.
    assert_eq!(
        parse_json("{\"a\":1,}"),
        Ok(JsonValue::Object(vec![("a".to_string(), num("1"))]))
    );
    assert_eq!(
        parse_json("[1,]"),
        Ok(JsonValue::Array(vec![num("1")]))
    );
}

#[test]
fn comma_alone_in_object_is_an_error() {
    assert_eq!(parse_json("{,}"), Err(ErrorKind::UnexpectedToken));
}

#[test]
fn query_accepts_leading_zeros_in_index() {
    let v = parse_json("{\"a\":[10,20]}").unwrap();
    assert_eq!(v.query("a.01"), Some(&num("20")));
}

#[test]
fn query_deep_nesting() {
    let v = parse_json("[[[[1]]]]").unwrap();
    assert_eq!(v.query("0.0.0.0"), Some(&num("1")));
    assert_eq!(v.query("0.0.0.0.0"), None);
}
