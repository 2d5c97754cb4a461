use bytes::Bytes;
use serde_json_bytes::bytestring::{ByteString, InvalidSlice};
use serde_json_bytes::map::OrderedMap;
use serde_json_bytes::number::Number;
use serde_json_bytes::tree::{Event, MalformedInput, TreeBuilder};
use serde_json_bytes::value::Value;

fn text(s: &str) -> Value {
    Value::String(ByteString::from_str(s))
}

fn num(n: u64) -> Value {
    Value::Number(Number::PosInt(n))
}

fn build(buffer: &Bytes, events: Vec<Event>) -> Result<Value, MalformedInput> {
    let mut builder = TreeBuilder::new(buffer);
    for event in events {
        let _ = builder.push(event);
    }
    builder.finish()
}

fn key(s: &str) -> Event {
    Event::Key(s.to_string())
}

#[test]
fn a_scalar_is_a_document() {
    let buffer = Bytes::new();
    assert_eq!(build(&buffer, vec![Event::Null]), Ok(Value::Null));
    assert_eq!(build(&buffer, vec![Event::Bool(true)]), Ok(Value::Bool(true)));
    assert_eq!(build(&buffer, vec![Event::Unsigned(7)]), Ok(num(7)));
    assert_eq!(build(&buffer, vec![Event::Signed(7)]), Ok(num(7)));
    assert_eq!(build(&buffer, vec![Event::Signed(-7)]), Ok(Value::Number(Number::NegInt(-7))));
    assert_eq!(
        build(&buffer, vec![Event::Float(1.5f64.to_bits())]),
        Ok(Value::Number(Number::Float(1.5f64.to_bits())))
    );
    assert_eq!(build(&buffer, vec![Event::Float(f64::NAN.to_bits())]), Ok(Value::Null));
    assert_eq!(build(&buffer, vec![Event::Text("s".to_string())]), Ok(text("s")));
}

#[test]
fn nested_arrays_and_objects_are_assembled() {
    let buffer = Bytes::new();
    let built = build(
        &buffer,
        vec![
            Event::BeginObject,
            key("store"),
            Event::BeginObject,
            key("book"),
            Event::BeginArray,
            Event::BeginObject,
            key("price"),
            Event::Float(8.95f64.to_bits()),
            Event::EndObject,
            Event::BeginArray,
            Event::EndArray,
            Event::Null,
            Event::EndArray,
            Event::EndObject,
            key("expensive"),
            Event::Unsigned(10),
            Event::EndObject,
        ],
    )
    .unwrap();
    let mut first = OrderedMap::new();
    first.insert(ByteString::from_str("price"), Value::Number(Number::Float(8.95f64.to_bits())));
    let mut store = OrderedMap::new();
    store.insert(
        ByteString::from_str("book"),
        Value::Array(vec![Value::Object(first), Value::Array(vec![]), Value::Null]),
    );
    let mut root = OrderedMap::new();
    root.insert(ByteString::from_str("store"), Value::Object(store));
    root.insert(ByteString::from_str("expensive"), num(10));
    assert_eq!(built, Value::Object(root));
    match &built {
        Value::Object(m) => {
            assert_eq!(m.key_at(0).as_str(), "store");
            assert_eq!(m.key_at(1).as_str(), "expensive");
        }
        _ => unreachable!(),
    }
}

#[test]
fn spans_become_views_of_the_input() {
    let buffer = Bytes::from("{\"title\":\"Moby Dick\"}".to_string());
    let built = build(
        &buffer,
        vec![Event::BeginObject, Event::KeySpan(2, 7), Event::Span(10, 19), Event::EndObject],
    )
    .unwrap();
    let m = match &built {
        Value::Object(m) => m,
        _ => unreachable!(),
    };
    assert_eq!(m.len(), 1);
    assert_eq!(m.key_at(0).as_str(), "title");
    assert!(std::ptr::eq(m.key_at(0).inner().as_ref(), buffer.slice(2..7).as_ref()));
    match m.value_at(0) {
        Value::String(s) => {
            assert_eq!(s.as_str(), "Moby Dick");
            assert!(std::ptr::eq(s.inner().as_ref(), buffer.slice(10..19).as_ref()));
        }
        _ => unreachable!(),
    }
}

#[test]
fn a_key_that_comes_twice_keeps_its_place_and_takes_the_later_value() {
    let buffer = Bytes::new();
    let built = build(
        &buffer,
        vec![
            Event::BeginObject,
            key("b"),
            Event::Unsigned(1),
            key("a"),
            Event::Unsigned(2),
            key("b"),
            Event::Unsigned(3),
            Event::EndObject,
        ],
    )
    .unwrap();
    let m = match &built {
        Value::Object(m) => m,
        _ => unreachable!(),
    };
    assert_eq!(m.len(), 2);
    assert_eq!(m.key_at(0).as_str(), "b");
    assert_eq!(*m.value_at(0), num(3));
    assert_eq!(m.key_at(1).as_str(), "a");
    assert_eq!(*m.value_at(1), num(2));
}

#[test]
fn a_span_that_holds_no_text_fails() {
    let buffer = Bytes::from("\"aé\"".to_string());
    assert_eq!(
        build(&buffer, vec![Event::Span(1, 100)]),
        Err(MalformedInput::InvalidSlice(InvalidSlice::OutOfBounds))
    );
    assert_eq!(
        build(&buffer, vec![Event::Span(1, 3)]),
        Err(MalformedInput::InvalidSlice(InvalidSlice::NotUtf8))
    );
    assert_eq!(
        build(&buffer, vec![Event::BeginObject, Event::KeySpan(3, 1)]),
        Err(MalformedInput::InvalidSlice(InvalidSlice::OutOfBounds))
    );
    assert_eq!(build(&buffer, vec![Event::Span(1, 4)]), Ok(text("aé")));
}

#[test]
fn a_key_outside_an_object_fails() {
    let buffer = Bytes::new();
    assert_eq!(build(&buffer, vec![key("a")]), Err(MalformedInput::UnexpectedKey));
    assert_eq!(
        build(&buffer, vec![Event::BeginArray, key("a")]),
        Err(MalformedInput::UnexpectedKey)
    );
    assert_eq!(
        build(&buffer, vec![Event::BeginObject, key("a"), key("b")]),
        Err(MalformedInput::UnexpectedKey)
    );
}

#[test]
fn a_value_without_a_key_fails() {
    let buffer = Bytes::new();
    assert_eq!(
        build(&buffer, vec![Event::BeginObject, Event::Null]),
        Err(MalformedInput::MissingKey)
    );
    assert_eq!(
        build(&buffer, vec![Event::BeginObject, Event::BeginArray]),
        Err(MalformedInput::MissingKey)
    );
    assert_eq!(
        build(&buffer, vec![Event::BeginObject, key("a"), Event::Null, Event::BeginObject]),
        Err(MalformedInput::MissingKey)
    );
}

#[test]
fn an_end_without_its_begin_fails() {
    let buffer = Bytes::new();
    assert_eq!(build(&buffer, vec![Event::EndArray]), Err(MalformedInput::UnexpectedEnd));
    assert_eq!(build(&buffer, vec![Event::EndObject]), Err(MalformedInput::UnexpectedEnd));
    assert_eq!(
        build(&buffer, vec![Event::BeginArray, Event::EndObject]),
        Err(MalformedInput::UnexpectedEnd)
    );
    assert_eq!(
        build(&buffer, vec![Event::BeginObject, Event::EndArray]),
        Err(MalformedInput::UnexpectedEnd)
    );
    assert_eq!(
        build(&buffer, vec![Event::BeginObject, key("a"), Event::EndObject]),
        Err(MalformedInput::UnexpectedEnd)
    );
}

#[test]
fn a_second_document_fails() {
    let buffer = Bytes::new();
    assert_eq!(
        build(&buffer, vec![Event::Null, Event::Null]),
        Err(MalformedInput::TrailingValue)
    );
    assert_eq!(
        build(&buffer, vec![Event::BeginArray, Event::EndArray, Event::BeginArray]),
        Err(MalformedInput::TrailingValue)
    );
    assert_eq!(
        build(&buffer, vec![Event::Unsigned(1), Event::BeginObject]),
        Err(MalformedInput::TrailingValue)
    );
}

#[test]
fn events_that_stop_early_fail() {
    let buffer = Bytes::new();
    assert_eq!(build(&buffer, vec![]), Err(MalformedInput::Unfinished));
    assert_eq!(build(&buffer, vec![Event::BeginArray]), Err(MalformedInput::Unfinished));
    assert_eq!(
        build(&buffer, vec![Event::BeginArray, Event::Null]),
        Err(MalformedInput::Unfinished)
    );
    assert_eq!(
        build(&buffer, vec![Event::BeginObject, key("a")]),
        Err(MalformedInput::Unfinished)
    );
}

#[test]
fn a_failure_stays() {
    let buffer = Bytes::new();
    let mut builder = TreeBuilder::new(&buffer);
    assert_eq!(builder.push(Event::BeginArray), Ok(()));
    assert_eq!(builder.push(Event::Null), Ok(()));
    assert_eq!(builder.push(Event::EndObject), Err(MalformedInput::UnexpectedEnd));
    assert_eq!(builder.push(Event::EndArray), Err(MalformedInput::UnexpectedEnd));
    assert_eq!(builder.push(Event::Null), Err(MalformedInput::UnexpectedEnd));
    assert_eq!(builder.finish(), Err(MalformedInput::UnexpectedEnd));
}
