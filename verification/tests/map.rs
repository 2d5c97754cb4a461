use serde_json_bytes::bytestring::ByteString;
use serde_json_bytes::map::OrderedMap;
use serde_json_bytes::number::Number;
use serde_json_bytes::value::Value;

fn key(s: &str) -> ByteString {
    ByteString::from_str(s)
}

fn num(n: u64) -> Value {
    Value::Number(Number::PosInt(n))
}

fn keys_of(m: &OrderedMap) -> Vec<String> {
    m.iter().into_iter().map(|(k, _)| k.as_str().to_string()).collect()
}

#[test]
fn a_new_map_is_empty() {
    let m = OrderedMap::new();
    assert_eq!(m.len(), 0);
    assert!(m.is_empty());
    assert!(m.get("a").is_none());
    assert!(m.index_of("a").is_none());
    assert!(m.values().is_empty());
    assert!(m.iter().is_empty());
}

#[test]
fn entries_keep_the_order_of_insertion() {
    let mut m = OrderedMap::new();
    assert!(m.insert(key("store"), num(1)).is_none());
    assert!(m.insert(key("array"), num(2)).is_none());
    assert!(m.insert(key("orders"), num(3)).is_none());
    assert_eq!(m.len(), 3);
    assert!(!m.is_empty());
    assert_eq!(keys_of(&m), vec!["store", "array", "orders"]);
    assert_eq!(m.key_at(0).as_str(), "store");
    assert_eq!(m.key_at(2).as_str(), "orders");
    assert!(*m.value_at(1) == num(2));
    let values: Vec<Value> = m.values().into_iter().cloned().collect();
    assert_eq!(values, vec![num(1), num(2), num(3)]);
    assert_eq!(m.index_of("array"), Some(1));
    assert_eq!(m.index_of("none"), None);
}

#[test]
fn a_second_insert_replaces_the_value_and_keeps_the_position() {
    let mut m = OrderedMap::new();
    m.insert(key("a"), num(1));
    m.insert(key("b"), num(2));
    m.insert(key("c"), num(3));
    let old = m.insert(key("a"), num(10));
    assert_eq!(old, Some(num(1)));
    assert_eq!(m.len(), 3);
    assert_eq!(keys_of(&m), vec!["a", "b", "c"]);
    assert_eq!(m.get("a"), Some(&num(10)));
    assert_eq!(m.get("b"), Some(&num(2)));
    let old = m.insert(key("c"), num(30));
    assert_eq!(old, Some(num(3)));
    assert_eq!(keys_of(&m), vec!["a", "b", "c"]);
    assert_eq!(m.get("c"), Some(&num(30)));
}

#[test]
fn lookup_goes_by_the_text_of_the_key() {
    let buffer = bytes::Bytes::from("{\"name\":1}".to_string());
    let borrowed = ByteString::new(&buffer, 2, 6).unwrap();
    let mut m = OrderedMap::new();
    m.insert(borrowed, num(1));
    assert_eq!(m.get("name"), Some(&num(1)));
    assert_eq!(m.insert(key("name"), num(2)), Some(num(1)));
    assert_eq!(m.len(), 1);
    assert!(m.get("nam").is_none());
    assert!(m.get("name ").is_none());
    assert!(m.get("").is_none());
}
