use json_tokens::error::JsonError;
use json_tokens::number::{int_text, is_float, parse_int};
use json_tokens::value::JsonValue;

fn chars(s: &str) -> Vec<char> {
    s.chars().collect()
}

#[test]
fn parse_tells_the_literals_apart() {
    assert_eq!(JsonValue::parse("true"), JsonValue::Bool(true));
    assert_eq!(JsonValue::parse("false"), JsonValue::Bool(false));
    assert_eq!(JsonValue::parse("42"), JsonValue::Int(42));
    assert_eq!(JsonValue::parse("-7"), JsonValue::Int(-7));
    assert_eq!(JsonValue::parse("+7"), JsonValue::Int(7));
    assert_eq!(JsonValue::parse("3.14"), JsonValue::Float("3.14".to_string()));
    assert_eq!(JsonValue::parse("hello"), JsonValue::String("hello".to_string()));
    assert_eq!(JsonValue::parse("True"), JsonValue::String("True".to_string()));
}

#[test]
fn parse_takes_the_quotes_off_a_string() {
    assert_eq!(JsonValue::parse("\"hello\""), JsonValue::String("hello".to_string()));
    assert_eq!(JsonValue::parse("\"\""), JsonValue::String(String::new()));
    assert_eq!(JsonValue::parse("\""), JsonValue::String("\"".to_string()));
    assert_eq!(JsonValue::parse("\"42\""), JsonValue::String("42".to_string()));
    assert_eq!(JsonValue::parse("\"true\""), JsonValue::String("true".to_string()));
    assert_eq!(JsonValue::parse("\"open"), JsonValue::String("\"open".to_string()));
    assert_eq!(JsonValue::parse(""), JsonValue::String(String::new()));
}

#[test]
fn null_is_an_opaque_string() {
    assert_eq!(JsonValue::parse("null"), JsonValue::String("null".to_string()));
}

#[test]
fn integer_that_does_not_fit_is_a_float() {
    assert_eq!(JsonValue::parse("2147483647"), JsonValue::Int(i32::MAX));
    assert_eq!(JsonValue::parse("-2147483648"), JsonValue::Int(i32::MIN));
    assert_eq!(JsonValue::parse("2147483648"), JsonValue::Float("2147483648".to_string()));
    assert_eq!(JsonValue::parse("-2147483649"), JsonValue::Float("-2147483649".to_string()));
}

#[test]
fn parse_int_agrees_with_std() {
    let samples = [
        "", "0", "-0", "+0", "7", "007", "-", "+", "--1", "+-1", "1-", "12a", "a12", " 1", "1 ",
        "2147483647", "2147483648", "-2147483648", "-2147483649", "99999999999999999999999",
        "-99999999999999999999999", "1_000", "0x10", "1.0", "١٢٣", "１２", "+2147483647",
        "00000000000000000000000000001",
    ];
    for s in samples {
        assert_eq!(parse_int(&chars(s)), s.parse::<i32>().ok(), "on {:?}", s);
    }
}

#[test]
fn is_float_agrees_with_std() {
    let samples = [
        "", "0", "1", "-1", "+1", "3.14", "-3.14", "2.5E10", "2.5e10", "2.5E-10", "2.5e+10",
        "5.", ".5", "0.5", "7", "007", "1e7", "inf", "-inf", "+infinity", "NaN", "nan", "-nan",
        "INF", "Infinity", "iNfInItY", "infinit", "infinityy", "in", "na", "nane", ".", "+.",
        "-.", "e5", ".e5", "1e", "1e+", "1e-", "1e5.0", "1.2.3", "1..2", "1e5e5", "+", "-",
        "++1", "--1", "1_0", " 1", "1 ", "1f32", "0x10", "abc", "true", "null", "\"1\"", "1.e5",
        ".5e-3", "1E5", "1e0005", "1e99999", "-0.0", "+.5", "-5.", "1,5", "١", "１.５", "e", "E5",
        "1e ", "١e5", "5e١",
    ];
    for s in samples {
        assert_eq!(is_float(&chars(s)), s.parse::<f32>().is_ok(), "on {:?}", s);
    }
}

#[test]
fn int_text_agrees_with_std() {
    let samples = [0, 1, -1, 9, 10, 11, 99, 100, 101, -10, 12345, -12345, i32::MAX, i32::MIN];
    for n in samples {
        assert_eq!(int_text(n), n.to_string());
    }
    assert_eq!(int_text(i32::MIN), "-2147483648");
    assert_eq!(int_text(1000), "1000");
}

#[test]
fn int_text_reads_back() {
    for n in [0, 5, -5, 120, -120, i32::MAX, i32::MIN] {
        assert_eq!(parse_int(&chars(&int_text(n))), Some(n));
    }
}

#[test]
fn lexeme_of_each_scalar() {
    assert_eq!(JsonValue::Int(42).to_string_force(), "42");
    assert_eq!(JsonValue::Int(-3).to_string_force(), "-3");
    assert_eq!(JsonValue::Bool(true).to_string_force(), "true");
    assert_eq!(JsonValue::Bool(false).to_string_force(), "false");
    assert_eq!(JsonValue::Float("2.5".to_string()).to_string_force(), "2.5");
    assert_eq!(JsonValue::String("hello".to_string()).to_string_force(), "\"hello\"");
    assert_eq!(JsonValue::String(String::new()).to_string_force(), "\"\"");
}

#[test]
fn scalar_reads_back_from_its_lexeme() {
    let values = [
        JsonValue::Int(0),
        JsonValue::Int(i32::MIN),
        JsonValue::Bool(true),
        JsonValue::Bool(false),
        JsonValue::Float("1.5e3".to_string()),
        JsonValue::String("true".to_string()),
        JsonValue::String("12".to_string()),
        JsonValue::String("a b".to_string()),
    ];
    for v in values {
        assert_eq!(JsonValue::parse(&v.clone().to_string_force()), v);
    }
}

#[test]
fn conversions_from_plain_values() {
    assert_eq!(JsonValue::from(5), JsonValue::Int(5));
    assert_eq!(JsonValue::from(true), JsonValue::Bool(true));
    assert_eq!(JsonValue::from("abc"), JsonValue::String("abc".to_string()));
    assert_eq!(JsonValue::from("abc".to_string()), JsonValue::String("abc".to_string()));
}

#[test]
fn extraction_of_the_right_type() {
    assert_eq!(JsonValue::Int(5).try_into_int(), Ok(5));
    assert_eq!(JsonValue::Bool(true).try_into_bool(), Ok(true));
    assert_eq!(JsonValue::String("s".to_string()).try_into_string(), Ok("s".to_string()));
    assert_eq!(JsonValue::Float("1.5".to_string()).try_into_float_text(), Ok("1.5".to_string()));
}

#[test]
fn extraction_of_the_wrong_type() {
    assert!(matches!(JsonValue::Bool(true).try_into_int(), Err(JsonError::JsonValueIsNotInteger)));
    assert!(matches!(JsonValue::Int(1).try_into_bool(), Err(JsonError::JsonValueIsNotBool)));
    assert!(matches!(JsonValue::Int(1).try_into_string(), Err(JsonError::JsonValueIsNotString)));
    assert!(matches!(JsonValue::Int(1).try_into_float_text(), Err(JsonError::JsonValueIsNotFloat)));
    assert!(matches!(JsonValue::Unknown.try_into_int(), Err(JsonError::JsonValueIsNotInteger)));
}

#[test]
fn values_compare_by_what_they_hold() {
    let a = JsonValue::Array(vec![JsonValue::Int(1), JsonValue::String("x".to_string())]);
    let b = JsonValue::Array(vec![JsonValue::Int(1), JsonValue::String("x".to_string())]);
    let c = JsonValue::Array(vec![JsonValue::Int(1), JsonValue::String("y".to_string())]);
    let d = JsonValue::Array(vec![JsonValue::Int(1)]);
    assert!(a == b);
    assert!(a != c);
    assert!(a != d);
    assert!(a.clone() == a);
    assert!(JsonValue::Int(1) != JsonValue::Bool(true));
    assert!(JsonValue::Float("1.0".to_string()) != JsonValue::String("1.0".to_string()));
    assert!(JsonValue::Unknown == JsonValue::Unknown);
}

#[test]
fn errors_compare_as_documented() {
    assert!(JsonError::NoPathProvided == JsonError::NoPathProvided);
    assert!(JsonError::InvalidPath == JsonError::InvalidPath);
    assert!(JsonError::InvalidJson == JsonError::InvalidJson);
    assert!(JsonError::InsertCantInsertIntoValue == JsonError::InsertCantInsertIntoValue);
    assert!(
        JsonError::StdInputOutputError("a".to_string())
            == JsonError::StdInputOutputError("b".to_string())
    );
    assert!(JsonError::InvalidPath != JsonError::InvalidJson);
    assert!(JsonError::JsonValueIsNotInteger != JsonError::JsonValueIsNotInteger);
    assert!(JsonError::JsonValueIsNotBool != JsonError::JsonValueIsNotString);
}
