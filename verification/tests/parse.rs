use json_dom::{to_value, ErrorType, Value, ValueType};

fn quoted(content: &str) -> Vec<u8> {
    format!("\"{}\"", content).into_bytes()
}

#[test]
fn round_trip_single_byte_string() {
    let v = to_value(&quoted("a")).unwrap();
    match v {
        Value::SmallString(ss) => {
            assert_eq!(ss.as_bytes(), b"a");
            assert_eq!(ss.len(), 1);
            assert!(!ss.is_empty());
        },
        _ => panic!("expected an inline string"),
    }
}

#[test]
fn round_trip_typical_identifier() {
    let v = to_value(&quoted("user_id_0042")).unwrap();
    match v {
        Value::SmallString(ss) => assert_eq!(ss.as_bytes(), b"user_id_0042"),
        _ => panic!("expected an inline string"),
    }
}

#[test]
fn round_trip_does_not_read_past_close() {
    // Backslashes after the closing quote must not disturb the scan.
    let v = to_value(b"[\"ab\",\"c\\\\d\"]").unwrap();
    match v {
        Value::Array(a) => {
            assert!(matches!(&a[0], Value::SmallString(ss) if ss.as_bytes() == b"ab"));
            assert!(matches!(&a[1], Value::String(s) if s == b"c\\d"));
        },
        _ => panic!("expected an array"),
    }
}

#[test]
fn boundary_54_bytes_is_inline() {
    let content = "x".repeat(54);
    let v = to_value(&quoted(&content)).unwrap();
    match v {
        Value::SmallString(ss) => {
            assert_eq!(ss.len(), 54);
            assert_eq!(ss.as_bytes(), content.as_bytes());
        },
        _ => panic!("54 escape-free bytes must stay inline"),
    }
}

#[test]
fn boundary_55_bytes_falls_back() {
    let content = "x".repeat(55);
    let v = to_value(&quoted(&content)).unwrap();
    match v {
        Value::String(s) => assert_eq!(s, content.as_bytes()),
        _ => panic!("55 bytes must go to the general string path"),
    }
}

#[test]
fn boundary_56_bytes_falls_back() {
    let content = "y".repeat(56);
    let v = to_value(&quoted(&content)).unwrap();
    assert!(matches!(v, Value::String(_)));
}

#[test]
fn escape_forces_fallback_short() {
    let v = to_value(b"\"a\\nb\"").unwrap();
    match v {
        Value::String(s) => assert_eq!(s, vec![97u8, 10, 98]),
        _ => panic!("an escape must never produce an inline string"),
    }
}

#[test]
fn escape_forces_fallback_every_position() {
    for pos in 0..10 {
        let mut content = String::new();
        for _ in 0..pos {
            content.push('a');
        }
        content.push_str("\\t");
        let v = to_value(&quoted(&content)).unwrap();
        assert!(matches!(v, Value::String(_)), "escape at {} must fall back", pos);
    }
}

#[test]
fn escape_resolution_table() {
    let v = to_value(b"\"\\\"\\\\\\/\\n\\t\\r\\b\\f\"").unwrap();
    match v {
        Value::String(s) => assert_eq!(s, vec![34u8, 92, 47, 10, 9, 13, 8, 12]),
        _ => panic!("expected the general string path"),
    }
}

#[test]
fn empty_array_parses_empty() {
    let v = to_value(b"[]").unwrap();
    match v {
        Value::Array(a) => assert_eq!(a.len(), 0),
        _ => panic!("expected an array"),
    }
}

#[test]
fn empty_object_parses_empty() {
    let v = to_value(b"{}").unwrap();
    match v {
        Value::Object(m) => {
            assert_eq!(m.len(), 0);
            assert!(m.is_empty());
        },
        _ => panic!("expected an object"),
    }
}

#[test]
fn count_fidelity_flat_array() {
    let v = to_value(b"[1,2,3]").unwrap();
    match v {
        Value::Array(a) => {
            assert_eq!(a.len(), 3);
            for (i, want) in [1i64, 2, 3].iter().enumerate() {
                assert_eq!(a[i].as_i64(), Some(*want));
            }
        },
        _ => panic!("expected an array"),
    }
}

#[test]
fn count_fidelity_nested() {
    let v = to_value(b"[[1],[2,3],[]]").unwrap();
    match v {
        Value::Array(a) => {
            assert_eq!(a.len(), 3);
            assert_eq!(a[0].as_array().unwrap().len(), 1);
            assert_eq!(a[1].as_array().unwrap().len(), 2);
            assert_eq!(a[2].as_array().unwrap().len(), 0);
        },
        _ => panic!("expected an array"),
    }
}

#[test]
fn count_fidelity_object() {
    let v = to_value(b"{\"a\":1,\"b\":{\"c\":2,\"d\":3,\"e\":4}}").unwrap();
    let m = v.as_object().unwrap();
    assert_eq!(m.len(), 2);
    let inner = v.get(b"b").unwrap().as_object().unwrap();
    assert_eq!(inner.len(), 3);
}

#[test]
fn dispatch_null() {
    assert!(to_value(b"null").unwrap().is_null());
}

#[test]
fn dispatch_booleans() {
    assert_eq!(to_value(b"true").unwrap().as_bool(), Some(true));
    assert_eq!(to_value(b"false").unwrap().as_bool(), Some(false));
}

#[test]
fn dispatch_numbers() {
    assert_eq!(to_value(b"7").unwrap().as_i64(), Some(7));
    assert_eq!(to_value(b"-3").unwrap().as_i64(), Some(-3));
    assert_eq!(to_value(b"0").unwrap().as_i64(), Some(0));
    assert_eq!(
        to_value(b"9223372036854775807").unwrap().as_i64(),
        Some(9223372036854775807)
    );
    assert_eq!(
        to_value(b"-9223372036854775808").unwrap().as_i64(),
        Some(-9223372036854775808)
    );
}

#[test]
fn dispatch_string_array_object() {
    assert_eq!(to_value(b"\"s\"").unwrap().kind(), ValueType::String);
    assert_eq!(to_value(b"[0]").unwrap().kind(), ValueType::Array);
    assert_eq!(to_value(b"{\"k\":0}").unwrap().kind(), ValueType::Object);
}

#[test]
fn dispatch_rejects_other_bytes() {
    for bad in [b"x".as_slice(), b"*", b"@", b":", b","] {
        assert!(matches!(to_value(bad), Err(ErrorType::UnexpectedCharacter)), "byte {:?}", bad);
    }
    // A lone closing bracket is refused by the pre-scan already.
    assert!(matches!(to_value(b"]"), Err(ErrorType::Syntax)));
    assert!(matches!(to_value(b"}"), Err(ErrorType::Syntax)));
    // Handed straight to the dispatch, it is an unexpected character.
    let mut d = json_dom::Deserializer::from_parts(b"]".to_vec(), vec![0], vec![0]).unwrap();
    assert!(matches!(d.parse_value_borrowed_root(), Err(ErrorType::UnexpectedCharacter)));
}

#[test]
fn whitespace_is_insignificant() {
    let v = to_value(b" [ 1 ,\t2 ,\n3 ] ").unwrap();
    assert_eq!(v.as_array().unwrap().len(), 3);
}

#[test]
fn number_overflow_is_invalid() {
    assert!(matches!(to_value(b"9223372036854775808"), Err(ErrorType::InvalidNumber)));
    assert!(matches!(to_value(b"-9223372036854775809"), Err(ErrorType::InvalidNumber)));
}

#[test]
fn float_tokens_are_refused_here() {
    assert!(matches!(to_value(b"1.5"), Err(ErrorType::InvalidNumber)));
    assert!(matches!(to_value(b"1e3"), Err(ErrorType::InvalidNumber)));
}

#[test]
fn unterminated_string_is_reported() {
    assert!(matches!(to_value(b"\"abc"), Err(ErrorType::UnterminatedString)));
}

#[test]
fn unknown_escape_is_reported() {
    assert!(matches!(to_value(b"\"a\\qb\""), Err(ErrorType::InvalidEscape)));
}

#[test]
fn bad_literal_is_reported() {
    assert!(matches!(to_value(b"nul"), Err(ErrorType::InvalidLiteral)));
    assert!(matches!(to_value(b"tru"), Err(ErrorType::InvalidLiteral)));
    assert!(matches!(to_value(b"fals"), Err(ErrorType::InvalidLiteral)));
}

#[test]
fn unbalanced_brackets_are_reported() {
    assert!(matches!(to_value(b"[1,2"), Err(ErrorType::Syntax)));
    assert!(matches!(to_value(b"[1}"), Err(ErrorType::Syntax)));
}

#[test]
fn empty_input_is_reported() {
    assert!(matches!(to_value(b""), Err(ErrorType::UnexpectedEnd)));
}

#[test]
fn nesting_too_deep_is_reported() {
    let mut src = String::new();
    for _ in 0..1500 {
        src.push('[');
    }
    for _ in 0..1500 {
        src.push(']');
    }
    assert!(matches!(to_value(src.as_bytes()), Err(ErrorType::NestingTooDeep)));
}

#[test]
fn trailing_input_is_refused() {
    assert!(matches!(to_value(b"12x"), Err(ErrorType::Syntax)));
    assert!(matches!(to_value(b"null null"), Err(ErrorType::Syntax)));
    // Trailing whitespace is insignificant, not a trailing token.
    assert!(to_value(b"12 ").is_ok());
}

#[test]
fn end_to_end_example() {
    let v = to_value(b"{\"id\":\"u1\",\"tags\":[\"a\",\"b\"],\"n\":-3}").unwrap();
    let m = v.as_object().unwrap();
    assert_eq!(m.len(), 3);
    assert_eq!(m.key_at(0).as_slice(), b"id");
    assert_eq!(m.key_at(1).as_slice(), b"tags");
    assert_eq!(m.key_at(2).as_slice(), b"n");
    match v.get(b"id").unwrap() {
        Value::SmallString(ss) => assert_eq!(ss.as_bytes(), b"u1"),
        _ => panic!("id must be an inline string"),
    }
    match v.get(b"tags").unwrap() {
        Value::Array(tags) => {
            assert_eq!(tags.len(), 2);
            assert!(matches!(&tags[0], Value::SmallString(ss) if ss.as_bytes() == b"a"));
            assert!(matches!(&tags[1], Value::SmallString(ss) if ss.as_bytes() == b"b"));
        },
        _ => panic!("tags must be an array"),
    }
    assert_eq!(v.get(b"n").unwrap().as_i64(), Some(-3));
    assert!(v.get(b"missing").is_none());
}
