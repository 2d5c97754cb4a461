use serde_json_bytes::bytestring::ByteString;
use serde_json_bytes::map::OrderedMap;
use serde_json_bytes::number::Number;
use serde_json_bytes::value::Value;

fn text(s: &str) -> Value {
    Value::String(ByteString::from_str(s))
}

fn num(n: u64) -> Value {
    Value::Number(Number::PosInt(n))
}

fn object(entries: Vec<(&str, Value)>) -> Value {
    let mut m = OrderedMap::new();
    for (k, v) in entries {
        m.insert(ByteString::from_str(k), v);
    }
    Value::Object(m)
}

#[test]
fn objects_are_equal_whatever_the_order_of_their_entries() {
    let a = object(vec![("x", num(1)), ("y", text("two")), ("z", Value::Null)]);
    let b = object(vec![("z", Value::Null), ("x", num(1)), ("y", text("two"))]);
    assert!(a == b);
    assert!(b == a);
    let nested_a = object(vec![("p", a.clone()), ("q", Value::Array(vec![b.clone()]))]);
    let nested_b = object(vec![("q", Value::Array(vec![a.clone()])), ("p", b.clone())]);
    assert!(nested_a == nested_b);
}

#[test]
fn objects_differ_by_keys_values_and_size() {
    let a = object(vec![("x", num(1)), ("y", num(2))]);
    assert!(a != object(vec![("x", num(1)), ("y", num(3))]));
    assert!(a != object(vec![("x", num(1)), ("w", num(2))]));
    assert!(a != object(vec![("x", num(1))]));
    assert!(a != object(vec![("x", num(1)), ("y", num(2)), ("z", num(3))]));
    assert!(object(vec![]) == object(vec![]));
    assert!(object(vec![]) != Value::Array(vec![]));
}

#[test]
fn arrays_are_equal_element_by_element() {
    let a = Value::Array(vec![num(1), num(2), num(3)]);
    assert!(a == Value::Array(vec![num(1), num(2), num(3)]));
    assert!(a != Value::Array(vec![num(3), num(2), num(1)]));
    assert!(a != Value::Array(vec![num(1), num(2)]));
    assert!(Value::Array(vec![]) == Value::Array(vec![]));
}

#[test]
fn scalars_are_equal_by_kind_and_value() {
    assert!(Value::Null == Value::Null);
    assert!(Value::Bool(true) == Value::Bool(true));
    assert!(Value::Bool(true) != Value::Bool(false));
    assert!(Value::Null != Value::Bool(false));
    assert!(num(0) != Value::Null);
    assert!(num(1) != Value::Number(Number::Float(1f64.to_bits())));
    assert!(text("1") != num(1));
    assert!(text("a") == text("a"));
    assert!(text("a") != text("b"));
    let buffer = bytes::Bytes::from("[\"fiction\"]".to_string());
    let view = Value::String(ByteString::new(&buffer, 2, 9).unwrap());
    assert!(view == text("fiction"));
}

#[test]
fn a_clone_equals_its_source_and_shares_its_text() {
    let buffer = bytes::Bytes::from("\"shared\"".to_string());
    let view = ByteString::new(&buffer, 1, 7).unwrap();
    let source = object(vec![
        ("s", Value::String(view)),
        ("a", Value::Array(vec![num(1), Value::Bool(false), Value::Null])),
        ("o", object(vec![("k", text("v"))])),
    ]);
    let copy = source.clone();
    assert!(copy == source);
    let (a, b) = match (&source, &copy) {
        (Value::Object(a), Value::Object(b)) => (a, b),
        _ => unreachable!(),
    };
    assert_eq!(a.key_at(0).as_str(), b.key_at(0).as_str());
    match (a.value_at(0), b.value_at(0)) {
        (Value::String(x), Value::String(y)) => {
            assert!(std::ptr::eq(x.inner().as_ref(), y.inner().as_ref()));
        }
        _ => unreachable!(),
    }
}

#[test]
fn accessors_tell_the_kinds_apart() {
    let a = Value::Array(vec![num(1)]);
    let o = object(vec![("k", num(1))]);
    let s = text("s");
    let n = num(5);
    assert_eq!(a.as_array().map(|v| v.len()), Some(1));
    assert!(o.as_array().is_none());
    assert_eq!(o.as_object().map(|m| m.len()), Some(1));
    assert!(a.as_object().is_none());
    assert_eq!(s.as_str(), Some("s"));
    assert!(n.as_str().is_none());
    assert!(matches!(n.as_number(), Some(Number::PosInt(5))));
    assert!(s.as_number().is_none());
    assert!(Value::Null.as_array().is_none());
    assert!(Value::Null.as_str().is_none());
}
