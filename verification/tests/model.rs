use json_dom::{to_value, Deserializer, ErrorType, ObjectMap, Value, ValueType};

#[test]
fn content_equality_ignores_representation() {
    // Same logical text, two representations: content agrees byte for
    // byte while the variants stay distinct.
    let small = to_value(b"\"abc\"").unwrap();
    let owned = Value::String(b"abc".to_vec());
    assert!(matches!(small, Value::SmallString(_)));
    assert!(matches!(owned, Value::String(_)));
    assert_eq!(small.content_bytes(), owned.content_bytes());
    assert_eq!(small.content_bytes(), Some(b"abc".to_vec()));
    assert_eq!(small.kind(), owned.kind());
}

#[test]
fn small_string_equality_is_by_content() {
    let a = to_value(b"\"id\"").unwrap();
    let b = to_value(b" \"id\" ").unwrap();
    match (a, b) {
        (Value::SmallString(x), Value::SmallString(y)) => {
            assert!(x == y);
            assert!(x.eq_bytes(b"id"));
            assert!(!x.eq_bytes(b"other"));
        },
        _ => panic!("expected inline strings"),
    }
    let c = to_value(b"\"ic\"").unwrap();
    match (to_value(b"\"id\"").unwrap(), c) {
        (Value::SmallString(x), Value::SmallString(y)) => assert!(x != y),
        _ => panic!("expected inline strings"),
    }
}

#[test]
fn equality_ignores_object_order() {
    let a = to_value(b"{\"a\":1,\"b\":[true,null]}").unwrap();
    let b = to_value(b"{\"b\":[true,null],\"a\":1}").unwrap();
    assert!(a.eq_value(&b));
    assert!(b.eq_value(&a));
    let c = to_value(b"{\"a\":2,\"b\":[true,null]}").unwrap();
    assert!(!a.eq_value(&c));
}

#[test]
fn equality_is_structural() {
    assert!(to_value(b"[1,2]").unwrap().eq_value(&to_value(b"[ 1 , 2 ]").unwrap()));
    assert!(!to_value(b"[1,2]").unwrap().eq_value(&to_value(b"[2,1]").unwrap()));
    assert!(!to_value(b"[1,2]").unwrap().eq_value(&to_value(b"[1]").unwrap()));
    assert!(to_value(b"null").unwrap().eq_value(&Value::Null));
    assert!(!to_value(b"null").unwrap().eq_value(&Value::Bool(false)));
    // The two string representations stay distinct variants.
    let small = to_value(b"\"abc\"").unwrap();
    assert!(!small.eq_value(&Value::String(b"abc".to_vec())));
    assert!(small.eq_value(&to_value(b"\"abc\"").unwrap()));
}

#[test]
fn accessors_report_absent_on_mismatch() {
    let v = to_value(b"true").unwrap();
    assert_eq!(v.as_i64(), None);
    assert_eq!(v.as_u64(), None);
    assert!(v.as_array().is_none());
    assert!(v.as_object().is_none());
    assert!(v.as_string().is_none());
    assert!(v.content_bytes().is_none());
    assert!(v.get(b"k").is_none());
    assert!(!v.is_null());
    assert_eq!(v.kind(), ValueType::Bool);
}

#[test]
fn unsigned_view_of_numbers() {
    assert_eq!(to_value(b"7").unwrap().as_u64(), Some(7));
    assert_eq!(to_value(b"-3").unwrap().as_u64(), None);
}

#[test]
fn as_string_reports_only_owned_strings() {
    let owned = to_value(&format!("\"{}\"", "z".repeat(60)).into_bytes()).unwrap();
    assert_eq!(owned.as_string().map(|s| s.len()), Some(60));
    let inline = to_value(b"\"z\"").unwrap();
    assert!(inline.as_string().is_none());
}

#[test]
fn default_value_is_null() {
    assert!(Value::default().is_null());
}

#[test]
fn object_lookup_and_order() {
    let mut m = ObjectMap::new();
    m.insert(b"one".to_vec(), Value::Bool(true));
    m.insert(b"two".to_vec(), Value::Null);
    assert_eq!(m.len(), 2);
    assert_eq!(m.key_at(0).as_slice(), b"one");
    assert_eq!(m.key_at(1).as_slice(), b"two");
    assert!(matches!(m.get(b"one"), Some(Value::Bool(true))));
    assert!(matches!(m.get(b"two"), Some(Value::Null)));
    assert!(m.get(b"three").is_none());
    assert!(matches!(m.value_at(1), Value::Null));
}

#[test]
fn repeated_key_reads_as_latest() {
    let mut m = ObjectMap::new();
    m.insert(b"k".to_vec(), Value::Bool(false));
    m.insert(b"k".to_vec(), Value::Bool(true));
    // Every pair is kept, lookup goes by the last one.
    assert_eq!(m.len(), 2);
    assert!(matches!(m.get(b"k"), Some(Value::Bool(true))));
}

#[test]
fn object_lookup_with_many_keys() {
    // Enough keys that the halfbrown index leaves its inline form.
    let mut m = ObjectMap::new();
    let mut names: Vec<Vec<u8>> = Vec::new();
    for i in 0..100u8 {
        names.push(format!("key_{}", i).into_bytes());
    }
    for (i, name) in names.iter().enumerate() {
        m.insert(name.clone(), Value::Number(json_dom::Number::I64(i as i64)));
    }
    assert_eq!(m.len(), 100);
    for (i, name) in names.iter().enumerate() {
        assert_eq!(m.key_at(i).as_slice(), name.as_slice());
        assert_eq!(m.get(name).unwrap().as_i64(), Some(i as i64));
    }
}

#[test]
fn mutable_accessors_write_through() {
    let mut v = to_value(b"{\"a\":1,\"b\":2}").unwrap();
    if let Some(slot) = v.get_mut(b"a") {
        *slot = Value::Bool(true);
    } else {
        panic!("key a must be present");
    }
    assert!(matches!(v.get(b"a"), Some(Value::Bool(true))));
    assert_eq!(v.get(b"b").unwrap().as_i64(), Some(2));
    assert!(v.get_mut(b"missing").is_none());

    let mut arr = to_value(b"[1,2]").unwrap();
    if let Some(items) = arr.as_array_mut() {
        items.push(Value::Null);
    } else {
        panic!("expected an array");
    }
    assert_eq!(arr.as_array().unwrap().len(), 3);
    assert!(to_value(b"true").unwrap().as_array_mut().is_none());
    assert!(to_value(b"true").unwrap().as_object_mut().is_none());
    let mut obj = to_value(b"{}").unwrap();
    if let Some(m) = obj.as_object_mut() {
        m.insert(b"k".to_vec(), Value::Null);
    }
    assert_eq!(obj.as_object().unwrap().len(), 1);
}

#[test]
fn cursor_from_parts_rejects_bad_positions() {
    assert!(Deserializer::from_parts(b"[]".to_vec(), vec![0, 7], vec![0, 0]).is_err());
    assert!(Deserializer::from_parts(b"[]".to_vec(), vec![0], vec![0, 0]).is_err());
}

#[test]
fn adversarial_count_too_many_fails_fast() {
    // The oracle claims five elements of an empty array: the builder
    // must fail, not misbehave.
    let mut d = Deserializer::from_parts(b"[]".to_vec(), vec![0, 1], vec![5, 0]).unwrap();
    assert!(d.parse_value_borrowed_root().is_err());
}

#[test]
fn adversarial_count_nonzero_on_empty_fails_fast() {
    let mut d = Deserializer::from_parts(b"[]".to_vec(), vec![0, 1], vec![1, 0]).unwrap();
    assert!(matches!(d.parse_value_borrowed_root(), Err(ErrorType::UnexpectedCharacter)));
}

#[test]
fn adversarial_count_too_few_truncates() {
    // The oracle claims one element where two stand: the builder
    // trusts the count and builds exactly one.
    let mut d = Deserializer::from_slice(b"[1,2]").unwrap();
    let v = d.parse_value_borrowed_root().unwrap();
    assert_eq!(v.as_array().unwrap().len(), 2);
    let mut d2 = Deserializer::from_parts(
        b"[1,2]".to_vec(),
        vec![0, 1, 2, 3, 4],
        vec![1, 0, 0, 0, 0],
    )
    .unwrap();
    let v2 = d2.parse_value_borrowed_root().unwrap();
    assert_eq!(v2.as_array().unwrap().len(), 1);
}

#[test]
fn string_gate_above_budget_skips_scanner() {
    // A count over 56 sends even a short content to the general
    // string parser: the scanner is not even consulted.
    let mut d = Deserializer::from_parts(b"\"ab\"".to_vec(), vec![0], vec![99]).unwrap();
    assert!(matches!(d.parse_value_borrowed_root(), Err(ErrorType::Syntax)));
}
