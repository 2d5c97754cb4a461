use bytes::Bytes;
use serde::de::{self, DeserializeSeed, Deserializer, MapAccess, SeqAccess, Visitor};
use serde_json_bytes::bytestring::ByteString;
use serde_json_bytes::number::Number;
use serde_json_bytes::tree::{Event, MalformedInput, TreeBuilder};
use serde_json_bytes::value::Value;
use std::fmt;

fn span(origin: &Bytes, text: &str) -> (usize, usize) {
    if text.is_empty() {
        return (0, 0);
    }
    let base = origin.as_ref().as_ptr() as usize;
    let start = text.as_ptr() as usize;
    assert!(start >= base && start + text.len() <= base + origin.len());
    (start - base, start - base + text.len())
}

fn malformed<E: de::Error>(e: MalformedInput) -> E {
    E::custom(format!("malformed input: {e:?}"))
}

struct Events<'a, 'data> {
    origin: &'data Bytes,
    builder: &'a mut TreeBuilder<'data>,
}

impl<'de, 'a, 'data> DeserializeSeed<'de> for Events<'a, 'data> {
    type Value = ();

    fn deserialize<D: Deserializer<'de>>(self, deserializer: D) -> Result<(), D::Error> {
        deserializer.deserialize_any(self)
    }
}

impl<'de, 'a, 'data> Visitor<'de> for Events<'a, 'data> {
    type Value = ();

    fn expecting(&self, formatter: &mut fmt::Formatter) -> fmt::Result {
        formatter.write_str("any valid JSON value")
    }

    fn visit_bool<E: de::Error>(self, value: bool) -> Result<(), E> {
        self.builder.push(Event::Bool(value)).map_err(malformed)
    }

    fn visit_i64<E: de::Error>(self, value: i64) -> Result<(), E> {
        self.builder.push(Event::Signed(value)).map_err(malformed)
    }

    fn visit_u64<E: de::Error>(self, value: u64) -> Result<(), E> {
        self.builder.push(Event::Unsigned(value)).map_err(malformed)
    }

    fn visit_f64<E: de::Error>(self, value: f64) -> Result<(), E> {
        self.builder.push(Event::Float(value.to_bits())).map_err(malformed)
    }

    fn visit_str<E: de::Error>(self, value: &str) -> Result<(), E> {
        self.builder.push(Event::Text(value.to_string())).map_err(malformed)
    }

    fn visit_borrowed_str<E: de::Error>(self, value: &'de str) -> Result<(), E> {
        let (start, end) = span(self.origin, value);
        self.builder.push(Event::Span(start, end)).map_err(malformed)
    }

    fn visit_unit<E: de::Error>(self) -> Result<(), E> {
        self.builder.push(Event::Null).map_err(malformed)
    }

    fn visit_seq<V: SeqAccess<'de>>(self, mut visitor: V) -> Result<(), V::Error> {
        self.builder.push(Event::BeginArray).map_err(malformed)?;
        while visitor
            .next_element_seed(Events { origin: self.origin, builder: &mut *self.builder })?
            .is_some()
        {}
        self.builder.push(Event::EndArray).map_err(malformed)
    }

    fn visit_map<V: MapAccess<'de>>(self, mut visitor: V) -> Result<(), V::Error> {
        self.builder.push(Event::BeginObject).map_err(malformed)?;
        while visitor
            .next_key_seed(Keys { origin: self.origin, builder: &mut *self.builder })?
            .is_some()
        {
            visitor.next_value_seed(Events { origin: self.origin, builder: &mut *self.builder })?;
        }
        self.builder.push(Event::EndObject).map_err(malformed)
    }
}

struct Keys<'a, 'data> {
    origin: &'data Bytes,
    builder: &'a mut TreeBuilder<'data>,
}

impl<'de, 'a, 'data> DeserializeSeed<'de> for Keys<'a, 'data> {
    type Value = ();

    fn deserialize<D: Deserializer<'de>>(self, deserializer: D) -> Result<(), D::Error> {
        deserializer.deserialize_str(self)
    }
}

impl<'de, 'a, 'data> Visitor<'de> for Keys<'a, 'data> {
    type Value = ();

    fn expecting(&self, formatter: &mut fmt::Formatter) -> fmt::Result {
        formatter.write_str("a string")
    }

    fn visit_str<E: de::Error>(self, value: &str) -> Result<(), E> {
        self.builder.push(Event::Key(value.to_string())).map_err(malformed)
    }

    fn visit_borrowed_str<E: de::Error>(self, value: &'de str) -> Result<(), E> {
        let (start, end) = span(self.origin, value);
        self.builder.push(Event::KeySpan(start, end)).map_err(malformed)
    }
}

fn from_bytes(data: &Bytes) -> Result<Value, String> {
    let mut builder = TreeBuilder::new(data);
    let mut de = serde_json::Deserializer::from_slice(data);
    Events { origin: data, builder: &mut builder }
        .deserialize(&mut de)
        .map_err(|e| e.to_string())?;
    de.end().map_err(|e| e.to_string())?;
    builder.finish().map_err(|e| format!("{e:?}"))
}

fn within(buffer: &Bytes, s: &ByteString) -> bool {
    let base = buffer.as_ref().as_ptr() as usize;
    let at = s.inner().as_ref().as_ptr() as usize;
    !s.inner().is_empty() && at >= base && at + s.inner().len() <= base + buffer.len()
}

#[test]
fn a_decoded_document_keeps_the_order_and_the_kinds_of_its_input() {
    let data = Bytes::from(r#"{"b":"text","a":[1,2.5,-3,true,false,null],"c":{}}"#.to_string());
    let value = from_bytes(&data).unwrap();
    let m = match &value {
        Value::Object(m) => m,
        _ => unreachable!(),
    };
    assert_eq!(m.len(), 3);
    assert_eq!(m.key_at(0).as_str(), "b");
    assert_eq!(m.key_at(1).as_str(), "a");
    assert_eq!(m.key_at(2).as_str(), "c");
    assert_eq!(*m.value_at(0), Value::String(ByteString::from_str("text")));
    assert_eq!(
        *m.value_at(1),
        Value::Array(vec![
            Value::Number(Number::PosInt(1)),
            Value::Number(Number::Float(2.5f64.to_bits())),
            Value::Number(Number::NegInt(-3)),
            Value::Bool(true),
            Value::Bool(false),
            Value::Null,
        ])
    );
    match m.value_at(2) {
        Value::Object(inner) => assert!(inner.is_empty()),
        _ => unreachable!(),
    }
}

#[test]
fn plain_strings_are_views_and_escaped_strings_are_copies() {
    let data = Bytes::from(r#"{"plain":"as it is","esc\naped":"line\nbreak"}"#.to_string());
    let value = from_bytes(&data).unwrap();
    let m = match &value {
        Value::Object(m) => m,
        _ => unreachable!(),
    };
    assert_eq!(m.key_at(0).as_str(), "plain");
    assert!(within(&data, m.key_at(0)));
    assert_eq!(m.key_at(1).as_str(), "esc\naped");
    assert!(!within(&data, m.key_at(1)));
    match (m.value_at(0), m.value_at(1)) {
        (Value::String(plain), Value::String(escaped)) => {
            assert_eq!(plain.as_str(), "as it is");
            assert!(within(&data, plain));
            assert_eq!(escaped.as_str(), "line\nbreak");
            assert!(!within(&data, escaped));
        }
        _ => unreachable!(),
    }
}

#[test]
fn text_that_is_no_document_gives_no_tree() {
    for text in ["", "[1,", "{\"a\":}", "{\"a\" 1}", "[1] 2", "nul", "{\"a\":1,}", "\"open"] {
        let data = Bytes::from(text.to_string());
        assert!(from_bytes(&data).is_err(), "{text}");
    }
}

#[test]
fn a_decoded_key_that_comes_twice_keeps_its_place() {
    let data = Bytes::from(r#"{"k":1,"other":2,"k":3}"#.to_string());
    let value = from_bytes(&data).unwrap();
    let m = match &value {
        Value::Object(m) => m,
        _ => unreachable!(),
    };
    assert_eq!(m.len(), 2);
    assert_eq!(m.key_at(0).as_str(), "k");
    assert_eq!(*m.value_at(0), Value::Number(Number::PosInt(3)));
    assert_eq!(m.key_at(1).as_str(), "other");
}
