use mq_ingest::db::{Cell, DataRow, Timestamp};
use mq_ingest::mapper::number::truncate_number;
use mq_ingest::mapper::{
    classify_member, json_to_data_row, json_value_to_cell, map_payload, row_from_cells, ParseError,
};

const T: Timestamp = Timestamp { secs: 1_700_000_000, nanos: 123_456_789 };

fn text(s: &str) -> Cell {
    Cell::String(s.to_string())
}

fn json(s: &str) -> Cell {
    Cell::JsonObject(s.to_string())
}

#[test]
fn test_end_to_end_row() {
    let payload = "{\"value\": 23.5, \"unit\": \"C\"}";
    let row = json_to_data_row(payload, T).unwrap();
    assert_eq!(row.keys(), vec!["raw", "received_ts", "unit", "value"]);
    assert_eq!(row.get("value"), Some(&Cell::Number(23)));
    assert_eq!(row.get("unit"), Some(&text("C")));
    assert_eq!(row.get("raw"), Some(&json(payload)));
    assert_eq!(row.get("received_ts"), Some(&Cell::DateTime(T)));
}

#[test]
fn test_each_kind_of_member() {
    let payload = "{\"n\":null,\"t\":true,\"f\":false,\"i\":-42,\"s\":\"hi\",\"a\":[1, 2],\"o\":{\"k\":null}}";
    let row = json_to_data_row(payload, T).unwrap();
    assert_eq!(row.len(), 9);
    assert_eq!(row.get("n"), Some(&Cell::Null));
    assert_eq!(row.get("t"), Some(&Cell::Bool(true)));
    assert_eq!(row.get("f"), Some(&Cell::Bool(false)));
    assert_eq!(row.get("i"), Some(&Cell::Number(-42)));
    assert_eq!(row.get("s"), Some(&text("hi")));
    assert_eq!(row.get("a"), Some(&json("[1, 2]")));
    assert_eq!(row.get("o"), Some(&json("{\"k\":null}")));
}

#[test]
fn test_empty_object_has_the_reserved_columns_only() {
    let row = json_to_data_row("{}", T).unwrap();
    assert_eq!(row.keys(), vec!["raw", "received_ts"]);
    assert_eq!(row.get("raw"), Some(&json("{}")));
    assert_eq!(row.get("received_ts"), Some(&Cell::DateTime(T)));
}

#[test]
fn test_reserved_columns_win_over_members() {
    let payload = "{\"raw\": \"mine\", \"received_ts\": 5, \"x\": 1}";
    let row = json_to_data_row(payload, T).unwrap();
    assert_eq!(row.keys(), vec!["raw", "received_ts", "x"]);
    assert_eq!(row.get("raw"), Some(&json(payload)));
    assert_eq!(row.get("received_ts"), Some(&Cell::DateTime(T)));
    assert_eq!(row.get("x"), Some(&Cell::Number(1)));
}

#[test]
fn test_last_of_repeated_names_counts() {
    let row = json_to_data_row("{\"a\": 1, \"a\": \"two\"}", T).unwrap();
    assert_eq!(row.len(), 3);
    assert_eq!(row.get("a"), Some(&text("two")));
}

#[test]
fn test_strings_have_their_escapes_resolved() {
    let row = json_to_data_row("{\"s\": \"a\\n\\\"b\\\" \\u00e9\", \"k\\u0041\": \"\"}", T).unwrap();
    assert_eq!(row.get("s"), Some(&text("a\n\"b\" é")));
    assert_eq!(row.get("kA"), Some(&text("")));
}

#[test]
fn test_whitespace_around_values_is_not_kept() {
    let row = json_to_data_row(" { \"a\" :  [ 1 ] , \"b\" : 7 } ", T).unwrap();
    assert_eq!(row.get("a"), Some(&json("[ 1 ]")));
    assert_eq!(row.get("b"), Some(&Cell::Number(7)));
    assert_eq!(row.get("raw"), Some(&json(" { \"a\" :  [ 1 ] , \"b\" : 7 } ")));
}

#[test]
fn test_text_that_is_no_object_is_rejected() {
    for payload in [
        "", "null", "true", "12", "\"text\"", "[1, 2]", "[{\"a\": 1}]", "{", "{\"a\": }",
        "{\"a\": 1} x", "{a: 1}", "not json",
    ] {
        assert_eq!(json_to_data_row(payload, T), Err(ParseError::InvalidJson));
    }
}

#[test]
fn test_payload_bytes() {
    let row = map_payload(b"{\"a\": \"\xc3\xa9\"}", T).unwrap();
    assert_eq!(row.get("a"), Some(&text("é")));
    assert_eq!(row.get("raw"), Some(&json("{\"a\": \"é\"}")));
    assert_eq!(map_payload(b"{\"a\": \"\xff\"}", T), Err(ParseError::InvalidUtf8));
    assert_eq!(map_payload(b"\xc3", T), Err(ParseError::InvalidUtf8));
    assert_eq!(map_payload(b"[]", T), Err(ParseError::InvalidJson));
    assert_eq!(map_payload(b"", T), Err(ParseError::InvalidJson));
}

#[test]
fn test_error_messages() {
    assert_eq!(ParseError::InvalidJson.message(), "Not a JSON object");
    assert_eq!(ParseError::InvalidUtf8.message(), "Payload is not UTF-8");
}

#[test]
fn test_member_cells() {
    assert_eq!(json_value_to_cell("null"), Cell::Null);
    assert_eq!(json_value_to_cell("true"), Cell::Bool(true));
    assert_eq!(json_value_to_cell("false"), Cell::Bool(false));
    assert_eq!(json_value_to_cell("0"), Cell::Number(0));
    assert_eq!(json_value_to_cell("-7.9"), Cell::Number(-7));
    assert_eq!(json_value_to_cell("\"x\\ty\""), text("x\ty"));
    assert_eq!(json_value_to_cell("\"null\""), text("null"));
    assert_eq!(json_value_to_cell("[null]"), json("[null]"));
    assert_eq!(json_value_to_cell("{\"a\":[]}"), json("{\"a\":[]}"));
}

#[test]
fn test_classify_member_with_a_given_string() {
    assert_eq!(classify_member("\"a\"", Some("a".to_string())), text("a"));
    assert_eq!(classify_member("\"a", None), json("\"a"));
    assert_eq!(classify_member("null", Some("ignored".to_string())), Cell::Null);
    assert_eq!(classify_member("17", Some("ignored".to_string())), Cell::Number(17));
    assert_eq!(classify_member("[1]", None), json("[1]"));
}

#[test]
fn test_row_from_cells() {
    let cells = vec![
        ("b".to_string(), Cell::Number(1)),
        ("raw".to_string(), Cell::Number(2)),
        ("b".to_string(), Cell::Number(3)),
    ];
    let row = row_from_cells("whole", cells, T);
    let mut want = DataRow::new();
    want.insert("b".to_string(), Cell::Number(3));
    want.insert("raw".to_string(), json("whole"));
    want.insert("received_ts".to_string(), Cell::DateTime(T));
    assert_eq!(row, want);
}

#[test]
fn test_integers() {
    assert_eq!(truncate_number("0"), 0);
    assert_eq!(truncate_number("-0"), 0);
    assert_eq!(truncate_number("7"), 7);
    assert_eq!(truncate_number("-12"), -12);
    assert_eq!(truncate_number("9223372036854775807"), i64::MAX);
    assert_eq!(truncate_number("-9223372036854775808"), i64::MIN);
    assert_eq!(truncate_number("9223372036854775806"), i64::MAX - 1);
    assert_eq!(truncate_number("-9223372036854775807"), i64::MIN + 1);
}

#[test]
fn test_fractions_are_cut_off() {
    assert_eq!(truncate_number("23.5"), 23);
    assert_eq!(truncate_number("23.999999"), 23);
    assert_eq!(truncate_number("-23.5"), -23);
    assert_eq!(truncate_number("0.99"), 0);
    assert_eq!(truncate_number("-0.99"), 0);
    assert_eq!(truncate_number("1.0"), 1);
}

#[test]
fn test_exponents_move_the_point() {
    assert_eq!(truncate_number("1e3"), 1000);
    assert_eq!(truncate_number("1E3"), 1000);
    assert_eq!(truncate_number("1e+3"), 1000);
    assert_eq!(truncate_number("1.5e1"), 15);
    assert_eq!(truncate_number("1.25e1"), 12);
    assert_eq!(truncate_number("-1.25e2"), -125);
    assert_eq!(truncate_number("12345e-2"), 123);
    assert_eq!(truncate_number("12345e-5"), 0);
    assert_eq!(truncate_number("12345e-6"), 0);
    assert_eq!(truncate_number("0.00012e4"), 1);
    assert_eq!(truncate_number("1e0"), 1);
    assert_eq!(truncate_number("1e-0"), 1);
    assert_eq!(truncate_number("9.223372036854775807e18"), i64::MAX);
}

#[test]
fn test_numbers_beyond_the_range_stop_at_its_ends() {
    assert_eq!(truncate_number("9223372036854775808"), i64::MAX);
    assert_eq!(truncate_number("-9223372036854775809"), i64::MIN);
    assert_eq!(truncate_number("18446744073709551615"), i64::MAX);
    assert_eq!(truncate_number("1e19"), i64::MAX);
    assert_eq!(truncate_number("-1e19"), i64::MIN);
    assert_eq!(truncate_number("1e400"), i64::MAX);
    assert_eq!(truncate_number("-1e400"), i64::MIN);
    assert_eq!(truncate_number("1e99999999999999999999999999999999"), i64::MAX);
    assert_eq!(truncate_number("1e-99999999999999999999999999999999"), 0);
    assert_eq!(truncate_number("0e99999999999999999999999999999999"), 0);
    assert_eq!(truncate_number("0.0e400"), 0);
    assert_eq!(truncate_number("123456789012345678901234567890.5"), i64::MAX);
}

#[test]
fn test_text_that_is_no_number() {
    assert_eq!(truncate_number(""), 0);
    assert_eq!(truncate_number("-"), 0);
    assert_eq!(truncate_number("abc"), 0);
    assert_eq!(truncate_number("12abc"), 12);
    assert_eq!(truncate_number(".5"), 0);
    assert_eq!(truncate_number("1e"), 1);
}

#[test]
fn test_numbers_in_a_payload() {
    let row = json_to_data_row(
        "{\"a\": 1e2, \"b\": -0.5, \"c\": 18446744073709551615, \"d\": 2.5E-1, \"e\": 1e400}",
        T,
    )
    .unwrap();
    assert_eq!(row.get("a"), Some(&Cell::Number(100)));
    assert_eq!(row.get("b"), Some(&Cell::Number(0)));
    assert_eq!(row.get("c"), Some(&Cell::Number(i64::MAX)));
    assert_eq!(row.get("d"), Some(&Cell::Number(0)));
    assert_eq!(row.get("e"), Some(&Cell::Number(i64::MAX)));
}
