use toml_env::scalar::{read_boolean, read_integer};
use toml_env::{parse_toml_value, TreeValue};

#[test]
fn booleans_are_spelled_exactly() {
    assert_eq!(read_boolean("true"), Some(true));
    assert_eq!(read_boolean("false"), Some(false));
    assert_eq!(read_boolean("True"), None);
    assert_eq!(read_boolean("1"), None);
    assert_eq!(read_boolean(""), None);
    assert_eq!(read_boolean("true "), None);
}

#[test]
fn integers_are_signed_decimals_that_fit() {
    assert_eq!(read_integer("0"), Some(0));
    assert_eq!(read_integer("42"), Some(42));
    assert_eq!(read_integer("+42"), Some(42));
    assert_eq!(read_integer("-42"), Some(-42));
    assert_eq!(read_integer("007"), Some(7));
    assert_eq!(read_integer("-0"), Some(0));
    assert_eq!(read_integer("9223372036854775807"), Some(i64::MAX));
    assert_eq!(read_integer("-9223372036854775808"), Some(i64::MIN));
    assert_eq!(read_integer("9223372036854775808"), None);
    assert_eq!(read_integer("-9223372036854775809"), None);
    assert_eq!(read_integer("99999999999999999999999"), None);
    assert_eq!(read_integer(""), None);
    assert_eq!(read_integer("+"), None);
    assert_eq!(read_integer("-"), None);
    assert_eq!(read_integer("1.5"), None);
    assert_eq!(read_integer("12a"), None);
    assert_eq!(read_integer(" 1"), None);
    assert_eq!(read_integer("--1"), None);
}

#[test]
fn integers_agree_with_the_standard_reading() {
    for s in ["5", "-17", "+3", "0000", "123456789012", "9223372036854775807", "x", "", "1_000"] {
        assert_eq!(read_integer(s), s.parse::<i64>().ok());
    }
}

#[test]
fn scalar_is_a_boolean_first() {
    assert_eq!(parse_toml_value("true".to_owned()), TreeValue::Boolean(true));
    assert_eq!(parse_toml_value("false".to_owned()), TreeValue::Boolean(false));
}

#[test]
fn scalar_is_a_float_before_it_is_an_integer() {
    assert_eq!(parse_toml_value("1".to_owned()), TreeValue::Float(1.0f64.to_bits()));
    assert_eq!(parse_toml_value("-12".to_owned()), TreeValue::Float((-12.0f64).to_bits()));
    assert_eq!(parse_toml_value("1.5".to_owned()), TreeValue::Float(1.5f64.to_bits()));
    assert_eq!(parse_toml_value("1e3".to_owned()), TreeValue::Float(1000.0f64.to_bits()));
    assert_eq!(parse_toml_value("inf".to_owned()), TreeValue::Float(f64::INFINITY.to_bits()));
}

#[test]
fn scalar_is_a_datetime_where_the_text_is_one() {
    let moment: toml::value::Datetime = "1979-05-27T07:32:00Z".parse().unwrap();
    assert_eq!(
        parse_toml_value("1979-05-27T07:32:00Z".to_owned()),
        TreeValue::Datetime(moment)
    );
    let day: toml::value::Datetime = "1979-05-27".parse().unwrap();
    assert_eq!(parse_toml_value("1979-05-27".to_owned()), TreeValue::Datetime(day));
    let time: toml::value::Datetime = "07:32:00".parse().unwrap();
    assert_eq!(parse_toml_value("07:32:00".to_owned()), TreeValue::Datetime(time));
}

#[test]
fn scalar_is_a_string_otherwise() {
    assert_eq!(parse_toml_value("x".to_owned()), TreeValue::String("x".to_owned()));
    assert_eq!(parse_toml_value("".to_owned()), TreeValue::String("".to_owned()));
    assert_eq!(parse_toml_value("TRUE".to_owned()), TreeValue::String("TRUE".to_owned()));
    assert_eq!(
        parse_toml_value("Hello World".to_owned()),
        TreeValue::String("Hello World".to_owned())
    );
    assert_eq!(
        parse_toml_value("1979-13-27".to_owned()),
        TreeValue::String("1979-13-27".to_owned())
    );
}
