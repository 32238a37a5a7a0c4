use eslint_builtin::ast_helpers::number::{
    is_bigint_literal, is_binary_literal, is_hex_literal, is_octal_literal, is_truthy_reading,
    parse_integer_literal, IntegerReading,
};
use std::cmp::Ordering;
use eslint_builtin::ast_helpers::number_order::{compare_integer_values, integer_values_equal, IntegerValue};
use eslint_builtin::ast_helpers::{
    get_comment_contents, get_comment_type, get_cooked_value, is_new_line, read_escaped_char,
    CommentType,
};

/// What a numeric literal's text reads as, the non-integer case read as a
/// float the way the linter's application layer does.
#[derive(Debug, PartialEq)]
enum Value {
    NaN,
    Integer(i64),
    BigInt(i64),
    Float(f64),
}

fn value_of(text: &str) -> Value {
    match parse_integer_literal(text) {
        IntegerReading::NaN => Value::NaN,
        IntegerReading::Integer(v) => Value::Integer(v),
        IntegerReading::BigInt(v) => Value::BigInt(v),
        IntegerReading::NotInteger => {
            let cleaned: String = text.chars().filter(|c| *c != '_').collect();
            match cleaned.parse::<f64>() {
                Ok(f) => Value::Float(f),
                Err(_) => Value::NaN,
            }
        }
    }
}

#[test]
fn test_get_cooked_value() {
    for (input, expected) in [
        ("abc", "abc"),
        ("", ""),
        (
            "\\n\\r\\b\\v\\t\\f\\\n\\\r\n\\\u{2028}\\\u{2029}",
            "\n\r\u{0008}\u{000b}\t\u{000c}",
        ),
        ("\\u{000042}\\u0042\\x42u0\\A", "BBBu0A"),
    ] {
        assert_eq!(get_cooked_value(input), expected);
    }
}

#[test]
fn test_parsed_values() {
    [
        ("1", Value::Integer(1)),
        ("1.0", Value::Float(1.0)),
        ("0", Value::Integer(0)),
        ("0.0", Value::Float(0.0)),
        ("0x1f", Value::Integer(31)),
        ("1_000", Value::Integer(1000)),
        ("1n", Value::BigInt(1)),
        ("-1", Value::Integer(-1)),
        ("-1.0", Value::Float(-1.0)),
        ("0b1001", Value::Integer(9)),
        ("0o12", Value::Integer(10)),
        ("012", Value::Integer(10)),
        ("abc", Value::NaN),
        ("1abc", Value::NaN),
    ]
    .into_iter()
    .for_each(|(number_str, expected)| match (value_of(number_str), expected) {
        (Value::NaN, Value::NaN) => (),
        (actual, expected) => assert_eq!(actual, expected),
    });
}

#[test]
fn cooked_value_without_escapes_is_the_text_itself() {
    for text in ["plain", "a b c", "ünïcödé", "x = 1;"] {
        assert_eq!(get_cooked_value(text), text);
    }
}

#[test]
fn cooked_value_is_never_longer() {
    for text in ["\\n\\t", "\\x41\\u0042", "\\u{1F600}", "a\\\nb"] {
        assert!(get_cooked_value(text).chars().count() <= text.chars().count());
    }
}

#[test]
fn cooked_value_of_line_continuations() {
    assert_eq!(get_cooked_value("a\\\r\nb"), "ab");
    assert_eq!(get_cooked_value("a\\\rb"), "ab");
    assert_eq!(get_cooked_value("\\u{1F600}"), "\u{1F600}");
    assert_eq!(get_cooked_value("\\q"), "q");
}

#[test]
fn escaped_char_reads_each_form() {
    let chars: Vec<char> = "\\x41".chars().collect();
    assert_eq!(read_escaped_char(&chars, 1), (vec!['A'], 3));
    let chars: Vec<char> = "\\u{263A}".chars().collect();
    assert_eq!(read_escaped_char(&chars, 1), (vec!['\u{263A}'], 7));
    let chars: Vec<char> = "\\u0041".chars().collect();
    assert_eq!(read_escaped_char(&chars, 1), (vec!['A'], 5));
    let chars: Vec<char> = "\\\r\n".chars().collect();
    assert_eq!(read_escaped_char(&chars, 1), (vec![], 2));
    let chars: Vec<char> = "\\n".chars().collect();
    assert_eq!(read_escaped_char(&chars, 1), (vec!['\n'], 1));
}

#[test]
fn new_lines() {
    for c in ['\n', '\r', '\u{2028}', '\u{2029}'] {
        assert!(is_new_line(c));
    }
    for c in ['a', ' ', '\t', '\u{85}'] {
        assert!(!is_new_line(c));
    }
}

#[test]
fn literal_prefixes() {
    assert!(is_bigint_literal("10n"));
    assert!(!is_bigint_literal("10"));
    assert!(is_hex_literal("0xff") && is_hex_literal("0XFF"));
    assert!(!is_hex_literal("0b1"));
    assert!(is_binary_literal("0b1") && is_binary_literal("0B1"));
    assert!(is_octal_literal("0o7") && is_octal_literal("0O7"));
    assert!(!is_octal_literal("07"));
}

#[test]
fn integer_readings() {
    assert_eq!(parse_integer_literal("0x_1f"), IntegerReading::Integer(31));
    assert_eq!(parse_integer_literal("0xffn"), IntegerReading::BigInt(255));
    assert_eq!(parse_integer_literal("0xzz"), IntegerReading::NaN);
    assert_eq!(parse_integer_literal("09"), IntegerReading::NaN);
    assert_eq!(parse_integer_literal("1.5n"), IntegerReading::NaN);
    assert_eq!(parse_integer_literal("9223372036854775807"), IntegerReading::Integer(i64::MAX));
    assert_eq!(parse_integer_literal("9223372036854775808"), IntegerReading::NotInteger);
    assert_eq!(parse_integer_literal("1e3"), IntegerReading::NotInteger);
}

#[test]
fn truthiness_of_readings() {
    assert_eq!(is_truthy_reading(IntegerReading::NaN), Some(false));
    assert_eq!(is_truthy_reading(IntegerReading::Integer(0)), Some(false));
    assert_eq!(is_truthy_reading(IntegerReading::Integer(-3)), Some(true));
    assert_eq!(is_truthy_reading(IntegerReading::BigInt(0)), Some(false));
    assert_eq!(is_truthy_reading(IntegerReading::NotInteger), None);
}

#[test]
fn comment_types_and_contents() {
    assert_eq!(get_comment_type("// hi"), CommentType::Line);
    assert_eq!(get_comment_type("/* hi */"), CommentType::Block);
    assert_eq!(get_comment_contents("// hi"), " hi");
    assert_eq!(get_comment_contents("/* hi */"), " hi ");
    assert_eq!(get_comment_contents("/**/"), "");
}

#[test]
fn cooking_distributes_over_whole_escapes() {
    let parts = ["a\\x41", "\\u{1F600}b", "\\tc\\\\", "\\r", "d\\\r\n", "e"];
    for a in parts {
        for b in parts {
            let joined = format!("{a}{b}");
            assert_eq!(get_cooked_value(&joined), format!("{}{}", get_cooked_value(a), get_cooked_value(b)), "{a:?} {b:?}");
        }
    }
    // the one exception: an escaped carriage return takes in a line feed that follows it
    assert_eq!(get_cooked_value("x\\\r"), "x");
    assert_eq!(get_cooked_value("\ny"), "\ny");
    assert_eq!(get_cooked_value("x\\\r\ny"), "xy");
}

#[test]
fn integer_values_compare_by_the_integers_they_stand_for() {
    assert!(integer_values_equal(IntegerValue::Integer(5), IntegerValue::BigInt(5)));
    assert!(!integer_values_equal(IntegerValue::Integer(5), IntegerValue::Integer(6)));
    assert!(!integer_values_equal(IntegerValue::NaN, IntegerValue::NaN));
    assert_eq!(compare_integer_values(IntegerValue::Integer(-1), IntegerValue::BigInt(3)), Some(Ordering::Less));
    assert_eq!(compare_integer_values(IntegerValue::BigInt(3), IntegerValue::Integer(3)), Some(Ordering::Equal));
    assert_eq!(compare_integer_values(IntegerValue::Integer(4), IntegerValue::Integer(3)), Some(Ordering::Greater));
    assert_eq!(compare_integer_values(IntegerValue::NaN, IntegerValue::Integer(3)), None);
}
