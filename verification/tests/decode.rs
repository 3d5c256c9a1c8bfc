use json_parser::error::ReadError;
use json_parser::parse::parse_str;
use json_parser::token::JsonNumber;
use json_parser::value::Value;

use std::collections::HashMap;

/// The binary float a decoded number stands for, by positional
/// multiply/accumulate: integer digits by `value * 10 + digit`, fraction
/// digits by a decaying rate, then the power of ten of the exponent.
fn num(n: &JsonNumber) -> f64 {
    let mut value = 0.0f64;
    for &d in &n.int_digits {
        value = value * 10.0 + (d as u32 - '0' as u32) as f64;
    }
    let mut rate = 0.1f64;
    for &d in &n.frac_digits {
        value += rate * (d as u32 - '0' as u32) as f64;
        rate *= 0.1;
    }
    let mut exp = 0i32;
    for &d in &n.exp_digits {
        exp = exp * 10 + (d as u32 - '0' as u32) as i32;
    }
    let sign = if n.neg { -1.0 } else { 1.0 };
    value * sign * 10f64.powi(if n.exp_neg { -exp } else { exp })
}

fn number_of(v: &Value) -> f64 {
    match v {
        Value::Number(n) => num(n),
        _ => panic!("expected a number"),
    }
}

#[test]
fn index_map() {
    // the mapping is ordered by the order in which keys were inserted
    let json = parse_str("{\"b\": 1, \"a\": {\"x\": [3, null]}, \"c\": true}")
        .unwrap()
        .to_text();
    println!("{json}");

    // the std map is not ordered, or ordered by the key
    let mut mp = HashMap::new();
    mp.insert(3, 4);
    mp.insert(1, 2);
    println!("{:#?}", mp);
}

#[test]
fn empty_object_decodes_to_empty_mapping() {
    let v = parse_str("{}").unwrap();
    match v {
        Value::JsonObject(m) => assert_eq!(m.entries.len(), 0),
        _ => panic!("expected an object"),
    }
}

#[test]
fn empty_array_decodes_to_empty_sequence() {
    let v = parse_str("[]").unwrap();
    match v {
        Value::JsonArray(items) => assert_eq!(items.len(), 0),
        _ => panic!("expected an array"),
    }
}

#[test]
fn bare_scalar_documents_decode() {
    assert_eq!(number_of(&parse_str("42").unwrap()), 42.0);
    assert_eq!(parse_str("\"x\"").unwrap(), Value::String(String::from("x")));
    assert_eq!(parse_str("true").unwrap(), Value::Boolean(true));
    assert_eq!(parse_str("false").unwrap(), Value::Boolean(false));
    assert!(matches!(parse_str("null").unwrap(), Value::Null));
}

#[test]
fn duplicate_keys_last_write_wins() {
    let v = parse_str("{\"a\":1,\"a\":2}").unwrap();
    match v {
        Value::JsonObject(m) => {
            assert_eq!(m.entries.len(), 1);
            assert_eq!(m.entries[0].0, "a");
            assert_eq!(number_of(&m.entries[0].1), 2.0);
        },
        _ => panic!("expected an object"),
    }
}

#[test]
fn duplicate_keys_keep_first_position() {
    let v = parse_str("{\"b\":1,\"a\":2,\"b\":3}").unwrap();
    match v {
        Value::JsonObject(m) => {
            assert_eq!(m.entries.len(), 2);
            assert_eq!(m.entries[0].0, "b");
            assert_eq!(number_of(&m.entries[0].1), 3.0);
            assert_eq!(m.entries[1].0, "a");
            assert_eq!(number_of(&m.entries[1].1), 2.0);
        },
        _ => panic!("expected an object"),
    }
}

#[test]
fn trailing_comma_in_array_is_a_syntax_error() {
    assert_eq!(parse_str("[1,2,]").unwrap_err(), ReadError::IllegalSyntax);
}

#[test]
fn trailing_comma_in_object_is_a_syntax_error() {
    assert_eq!(parse_str("{\"a\":1,}").unwrap_err(), ReadError::IllegalSyntax);
}

#[test]
fn trailing_tokens_after_a_value_are_a_syntax_error() {
    assert_eq!(parse_str("[1,2] 3").unwrap_err(), ReadError::IllegalSyntax);
    assert_eq!(parse_str("{} {}").unwrap_err(), ReadError::IllegalSyntax);
}

#[test]
fn number_fidelity() {
    assert_eq!(number_of(&parse_str("-1.5e3").unwrap()), -1500.0);
    assert_eq!(number_of(&parse_str("0").unwrap()), 0.0);
    let pi = number_of(&parse_str("3.14").unwrap());
    assert!((pi - 3.14).abs() < 1e-12);
    assert_eq!(number_of(&parse_str("2e-2").unwrap()), 0.02);
    assert_eq!(number_of(&parse_str("1e5").unwrap()), 100000.0);
    assert_eq!(number_of(&parse_str("-0.25").unwrap()), -0.25);
}

#[test]
fn truncated_string_fails_with_end_of_input() {
    assert_eq!(parse_str("\"abc").unwrap_err(), ReadError::Eof);
}

#[test]
fn truncated_structure_fails_with_end_of_input() {
    assert_eq!(parse_str("{\"a\":").unwrap_err(), ReadError::Eof);
    assert_eq!(parse_str("[1,").unwrap_err(), ReadError::Eof);
}

#[test]
fn unsupported_escape_is_rejected() {
    assert_eq!(parse_str("\"a\\qb\"").unwrap_err(), ReadError::IllegalEscape);
}

#[test]
fn supported_escapes_decode() {
    let v = parse_str("\"a\\tb\\nc\\rd\\\\e\\/f\\\"g\"").unwrap();
    assert_eq!(v, Value::String(String::from("a\tb\nc\rd\\e/f\"g")));
}

#[test]
fn unusable_character_is_reported() {
    assert_eq!(parse_str("@").unwrap_err(), ReadError::IllegalChar('@'));
}

#[test]
fn malformed_literal_is_a_token_error() {
    assert_eq!(parse_str("nul").unwrap_err(), ReadError::IllegalToken);
    assert_eq!(parse_str("trua").unwrap_err(), ReadError::IllegalToken);
    assert_eq!(parse_str("falze").unwrap_err(), ReadError::IllegalToken);
}

#[test]
fn malformed_number_is_a_token_error() {
    assert_eq!(parse_str("1.2.3").unwrap_err(), ReadError::IllegalToken);
    assert_eq!(parse_str("1e2e3").unwrap_err(), ReadError::IllegalToken);
}

#[test]
fn non_string_key_is_a_syntax_error() {
    assert_eq!(parse_str("{1:2}").unwrap_err(), ReadError::IllegalSyntax);
}

#[test]
fn missing_colon_is_a_syntax_error() {
    assert_eq!(parse_str("{\"a\" 1}").unwrap_err(), ReadError::IllegalSyntax);
}

#[test]
fn whitespace_is_skipped_everywhere() {
    let v = parse_str(" \t\r\n { \"a\" : [ 1 , true , null ] } \n").unwrap();
    match v {
        Value::JsonObject(m) => {
            assert_eq!(m.entries.len(), 1);
            assert_eq!(m.entries[0].0, "a");
        },
        _ => panic!("expected an object"),
    }
}

#[test]
fn nested_structures_decode() {
    let v = parse_str("{\"a\":[{\"b\":[[],{}]},\"s\"],\"c\":{\"d\":null}}").unwrap();
    match &v {
        Value::JsonObject(m) => {
            assert_eq!(m.entries.len(), 2);
        },
        _ => panic!("expected an object"),
    }
}

#[test]
fn empty_input_fails_with_end_of_input() {
    assert_eq!(parse_str("").unwrap_err(), ReadError::Eof);
    assert_eq!(parse_str("   ").unwrap_err(), ReadError::Eof);
}

#[test]
fn codepoint_tokenizer_handles_multibyte_text() {
    let v = parse_str("{\"gr\u{00fc}n\": \"\u{00e9}\u{00e9}\"}").unwrap();
    match v {
        Value::JsonObject(m) => {
            assert_eq!(m.entries[0].0, "gr\u{00fc}n");
            assert_eq!(m.entries[0].1, Value::String(String::from("\u{00e9}\u{00e9}")));
        },
        _ => panic!("expected an object"),
    }
}
