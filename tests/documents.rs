use json_parser::parser::{
    parse_array, parse_boolean, parse_integer, parse_json, parse_number, parse_object,
    parse_scientific_notation, parse_string, parse_value, Expected, ParseError,
};
use json_parser::value::{JsonNumber, JsonValue};

fn number(negative: bool, int_digits: &str, frac_digits: &str, exp_negative: bool, exp_digits: &str) -> JsonNumber {
    JsonNumber {
        negative,
        int_digits: int_digits.to_string(),
        frac_digits: frac_digits.to_string(),
        exp_negative,
        exp_digits: exp_digits.to_string(),
    }
}

#[test]
fn literals_consume_exactly_their_word() {
    assert_eq!(parse_value("null", 0), Ok((JsonValue::Null, 4)));
    assert_eq!(parse_value("true", 0), Ok((JsonValue::Boolean(true), 4)));
    assert_eq!(parse_value("false", 0), Ok((JsonValue::Boolean(false), 5)));
    assert_eq!(parse_value("[null]", 1), Ok((JsonValue::Null, 5)));
}

#[test]
fn string_body_is_taken_verbatim() {
    assert_eq!(parse_string("\"a\\n b\"", 0), Ok(("a\\n b".to_string(), 7)));
    assert_eq!(parse_string("\"\"", 0), Ok((String::new(), 2)));
    // no escapes: the body stops at the first quote
    assert_eq!(parse_string("\"a\\\"b\"", 0), Ok(("a\\".to_string(), 4)));
    assert_eq!(parse_json("\"é ü\""), Ok(JsonValue::String("é ü".to_string())));
}

#[test]
fn plain_numbers_keep_their_digits() {
    assert_eq!(parse_number("-0.5", 0), Ok((number(true, "0", "5", false, ""), 4)));
    assert_eq!(parse_number("10001", 0), Ok((number(false, "10001", "", false, ""), 5)));
    assert_eq!(parse_number("0.00000000000005", 0), Ok((number(false, "0", "00000000000005", false, ""), 16)));
    assert_eq!(parse_number("12.5e3", 0), Ok((number(false, "12", "5", false, ""), 4)));
}

#[test]
fn number_errors() {
    let e = ParseError { offset: 0, expected: Expected::Number };
    assert_eq!(parse_number("+1", 0), Err(e));
    assert_eq!(parse_number("1.", 0), Err(e));
    assert_eq!(parse_number("-", 0), Err(e));
    assert_eq!(parse_number(".5", 0), Err(e));
}

#[test]
fn scientific_numbers_scale_by_the_exponent() {
    assert_eq!(parse_scientific_notation("-1.1e-30", 0), Ok((number(true, "1", "1", true, "30"), 8)));
    assert_eq!(parse_scientific_notation("1.1e+1", 0), Ok((number(false, "1", "1", false, "1"), 6)));
    assert_eq!(parse_scientific_notation("2e5", 0), Ok((number(false, "2", "", false, "5"), 3)));
    let e = ParseError { offset: 0, expected: Expected::ScientificNumber };
    assert_eq!(parse_scientific_notation("2E5", 0), Err(e));
    assert_eq!(parse_scientific_notation("2e", 0), Err(e));
    assert_eq!(parse_scientific_notation("1.5", 0), Err(e));
}

#[test]
fn integers_take_either_sign() {
    assert_eq!(parse_integer("+12", 0), Ok(((false, "12".to_string()), 3)));
    assert_eq!(parse_integer("-7x", 0), Ok(((true, "7".to_string()), 2)));
    assert_eq!(parse_integer("x", 0), Err(ParseError { offset: 0, expected: Expected::Integer }));
}

#[test]
fn value_prefers_scientific_over_plain_number() {
    assert_eq!(
        parse_value("-1.1e+1", 0),
        Ok((JsonValue::Number(number(true, "1", "1", false, "1")), 7))
    );
}

#[test]
fn arrays_keep_order_and_may_be_empty() {
    assert_eq!(parse_array("[]", 0), Ok((vec![], 2)));
    assert_eq!(parse_array(" [ ] ", 0), Ok((vec![], 5)));
    assert_eq!(
        parse_array("[3 ,\n\"x\",[true]]", 0),
        Ok((
            vec![
                JsonValue::Number(number(false, "3", "", false, "")),
                JsonValue::String("x".to_string()),
                JsonValue::Array(vec![JsonValue::Boolean(true)]),
            ],
            16
        ))
    );
}

#[test]
fn objects_keep_the_last_value_of_a_key() {
    assert_eq!(parse_object("{}", 0), Ok((vec![], 2)));
    assert_eq!(
        parse_object(r#"{"a": 1, "b": null, "a": true}"#, 0),
        Ok((
            vec![("a".to_string(), JsonValue::Boolean(true)), ("b".to_string(), JsonValue::Null)],
            30
        ))
    );
}

#[test]
fn malformed_inputs_fail() {
    let e = Err(ParseError { offset: 0, expected: Expected::Value });
    assert_eq!(parse_json("nul"), e);
    assert_eq!(parse_json("[1,2"), e);
    assert_eq!(parse_json("{\"a\":}"), e);
    assert_eq!(parse_json("[1,]"), e);
    assert_eq!(parse_json("{\"a\" 1}"), e);
    assert_eq!(parse_json("\"open"), e);
    assert_eq!(parse_json(""), e);
}

#[test]
fn each_rule_reports_where_it_was_tried() {
    assert_eq!(parse_boolean("[x", 1), Err(ParseError { offset: 1, expected: Expected::Boolean }));
    assert_eq!(parse_string("x", 0), Err(ParseError { offset: 0, expected: Expected::String }));
    assert_eq!(parse_array("{}", 0), Err(ParseError { offset: 0, expected: Expected::Array }));
    assert_eq!(parse_object("[]", 0), Err(ParseError { offset: 0, expected: Expected::Object }));
    assert_eq!(parse_value("@", 0), Err(ParseError { offset: 0, expected: Expected::Value }));
}

#[test]
fn trailing_text_is_left_unread() {
    assert_eq!(parse_value("nulla", 0), Ok((JsonValue::Null, 4)));
    assert_eq!(parse_json("true false"), Ok(JsonValue::Boolean(true)));
}

#[test]
fn nested_document_parses() {
    let s = r#"{
        "name": "John Doe",
        "age": 30,
        "marks": [90.0, -80.0, 85.1],
        "address": { "city": "New York", "zip": 10001 },
        "nested": { "mixed": [1, null, true, "hello", { "a": 1 }], "empty_arr": [], "empty_obj": {} },
        "scientific_number": -1.1e-30
    }"#;
    let v = parse_json(s).unwrap();
    match v {
        JsonValue::Object(members) => {
            let keys: Vec<&str> = members.iter().map(|(k, _)| k.as_str()).collect();
            assert_eq!(keys, vec!["name", "age", "marks", "address", "nested", "scientific_number"]);
            assert_eq!(members[5].1, JsonValue::Number(number(true, "1", "1", true, "30")));
        }
        other => panic!("not an object: {:?}", other),
    }
}
