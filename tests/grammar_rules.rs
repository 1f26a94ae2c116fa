use json_parser::parser::{
    parse_array, parse_boolean, parse_null, parse_number, parse_object, parse_scientific_notation,
    parse_string,
};
use json_parser::value::{JsonNumber, JsonValue};

/// The nearest `f64` to the exact value of a parsed number.
fn to_f64(n: &JsonNumber) -> f64 {
    let frac = if n.frac_digits.is_empty() { "0" } else { n.frac_digits.as_str() };
    let exp = if n.exp_digits.is_empty() { "0" } else { n.exp_digits.as_str() };
    let text = format!(
        "{}{}.{}e{}{}",
        if n.negative { "-" } else { "" },
        n.int_digits,
        frac,
        if n.exp_negative { "-" } else { "" },
        exp
    );
    text.parse::<f64>().unwrap()
}

fn number_of(v: &JsonValue) -> f64 {
    match v {
        JsonValue::Number(n) => to_f64(n),
        _ => panic!("not a number: {:?}", v),
    }
}

#[test]
fn parse_null_should_work() {
    let input = "null";
    let ret = parse_null(input, 0).unwrap();
    assert_eq!(ret.0, ());
}

#[test]
fn parse_string_should_work() {
    let input = "\"hello\"";
    let ret = parse_string(input, 0).unwrap();
    assert_eq!(ret.0, "hello".to_string());
}

#[test]
fn parse_number_should_work() {
    let input = "123.456789";
    let ret = parse_number(input, 0).unwrap();
    assert_eq!(to_f64(&ret.0), 123.456789);
}

#[test]
fn parse_scientific_notation_should_work() {
    let input = "1.1e-30";
    let ret = parse_scientific_notation(input, 0).unwrap();
    assert_eq!(to_f64(&ret.0), 1.1e-30);

    let input = "1.1e+1";
    let ret = parse_scientific_notation(input, 0).unwrap();
    assert_eq!(to_f64(&ret.0), 1.1e1);
}

#[test]
fn parse_boolean_should_work() {
    let input = "true";
    let ret = parse_boolean(input, 0).unwrap();
    assert_eq!(ret.0, true);

    let input = "false";
    let ret = parse_boolean(input, 0).unwrap();
    assert_eq!(ret.0, false);
}

#[test]
fn parse_array_should_work() {
    let input = "[1, 2, 3]";
    let ret = parse_array(input, 0).unwrap();
    let nums: Vec<f64> = ret.0.iter().map(number_of).collect();
    assert_eq!(nums, vec![1.0, 2.0, 3.0]);
}

#[test]
fn parse_object_should_work() {
    let input = r#"{"key": 1}"#;
    let ret = parse_object(input, 0).unwrap();
    assert_eq!(ret.0.len(), 1);
    assert_eq!(ret.0[0].0, "key".to_string());
    assert_eq!(number_of(&ret.0[0].1), 1.0);
}
