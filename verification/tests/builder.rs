use bytes::Bytes;
use serde_json_bytes::builder::{ByteStringSeed, BytesSeed};
use serde_json_bytes::bytestring::{ByteString, InvalidSlice};
use serde_json_bytes::number::Number;
use serde_json_bytes::value::Value;

fn text(s: &str) -> Value {
    Value::String(ByteString::from_str(s))
}

#[test]
fn scalars_become_values() {
    let buffer = Bytes::new();
    let seed = BytesSeed::new(&buffer);
    assert!(seed.visit_bool(true) == Value::Bool(true));
    assert!(seed.visit_bool(false) == Value::Bool(false));
    assert!(seed.visit_u64(7) == Value::Number(Number::PosInt(7)));
    assert!(seed.visit_i64(7) == Value::Number(Number::PosInt(7)));
    assert!(seed.visit_i64(-7) == Value::Number(Number::NegInt(-7)));
    assert!(seed.visit_none() == Value::Null);
    assert!(seed.visit_unit() == Value::Null);
}

#[test]
fn floats_become_numbers_when_they_are_finite() {
    let buffer = Bytes::new();
    let seed = BytesSeed::new(&buffer);
    assert!(seed.visit_float_bits(8.95f64.to_bits()) == Value::Number(Number::Float(8.95f64.to_bits())));
    assert!(seed.visit_float_bits(f64::NAN.to_bits()) == Value::Null);
    assert!(seed.visit_float_bits(f64::INFINITY.to_bits()) == Value::Null);
    assert!(seed.visit_float_bits(f64::NEG_INFINITY.to_bits()) == Value::Null);
}

#[test]
fn strings_are_copied_or_viewed_as_the_decoder_says() {
    let buffer = Bytes::from("{\"title\":\"Moby Dick\"}".to_string());
    let seed = BytesSeed::new(&buffer);
    assert!(seed.visit_str("Moby Dick") == text("Moby Dick"));
    assert!(seed.visit_string("Moby Dick".to_string()) == text("Moby Dick"));
    let viewed = seed.visit_borrowed_str(10, 19).unwrap();
    assert!(viewed == text("Moby Dick"));
    match &viewed {
        Value::String(s) => {
            assert!(std::ptr::eq(s.inner().as_ref(), buffer.slice(10..19).as_ref()));
        }
        _ => unreachable!(),
    }
    match seed.visit_str("Moby Dick") {
        Value::String(s) => {
            assert!(!std::ptr::eq(s.inner().as_ref(), buffer.slice(10..19).as_ref()));
        }
        _ => unreachable!(),
    }
}

#[test]
fn a_span_outside_the_input_is_rejected() {
    let buffer = Bytes::from("\"aé\"".to_string());
    let seed = BytesSeed::new(&buffer);
    assert_eq!(seed.visit_borrowed_str(1, 100).err(), Some(InvalidSlice::OutOfBounds));
    assert_eq!(seed.visit_borrowed_str(3, 2).err(), Some(InvalidSlice::OutOfBounds));
    assert_eq!(seed.visit_borrowed_str(1, 3).err(), Some(InvalidSlice::NotUtf8));
    assert!(seed.visit_borrowed_str(1, 4).unwrap() == text("aé"));
    let keys = ByteStringSeed::new(&buffer);
    assert_eq!(keys.visit_borrowed_str(1, 100).err(), Some(InvalidSlice::OutOfBounds));
    assert_eq!(keys.visit_borrowed_str(1, 3).err(), Some(InvalidSlice::NotUtf8));
    assert_eq!(keys.visit_borrowed_str(1, 4).unwrap().as_str(), "aé");
}

#[test]
fn keys_are_copied_or_viewed_as_the_decoder_says() {
    let buffer = Bytes::from("{\"title\":1}".to_string());
    let keys = ByteStringSeed::new(&buffer);
    assert_eq!(keys.visit_str("title").as_str(), "title");
    assert_eq!(keys.visit_string("title".to_string()).as_str(), "title");
    let viewed = keys.visit_borrowed_str(2, 7).unwrap();
    assert_eq!(viewed.as_str(), "title");
    assert!(std::ptr::eq(viewed.inner().as_ref(), buffer.slice(2..7).as_ref()));
}

#[test]
fn arrays_keep_their_elements_in_order() {
    let buffer = Bytes::new();
    let seed = BytesSeed::new(&buffer);
    let v = seed.visit_seq(vec![seed.visit_u64(1), seed.visit_bool(true), seed.visit_unit()]);
    assert!(v == Value::Array(vec![Value::Number(Number::PosInt(1)), Value::Bool(true), Value::Null]));
    assert!(seed.visit_seq(vec![]) == Value::Array(vec![]));
}

#[test]
fn objects_are_filled_by_repeated_insertion() {
    let buffer = Bytes::new();
    let seed = BytesSeed::new(&buffer);
    let keys = ByteStringSeed::new(&buffer);
    let v = seed.visit_map(vec![
        (keys.visit_str("b"), seed.visit_u64(1)),
        (keys.visit_str("a"), seed.visit_u64(2)),
        (keys.visit_str("b"), seed.visit_u64(3)),
    ]);
    let m = match &v {
        Value::Object(m) => m,
        _ => unreachable!(),
    };
    assert_eq!(m.len(), 2);
    assert_eq!(m.key_at(0).as_str(), "b");
    assert_eq!(m.key_at(1).as_str(), "a");
    assert!(*m.value_at(0) == Value::Number(Number::PosInt(3)));
    assert!(*m.value_at(1) == Value::Number(Number::PosInt(2)));
    match seed.visit_map(vec![]) {
        Value::Object(m) => assert!(m.is_empty()),
        _ => unreachable!(),
    }
}
