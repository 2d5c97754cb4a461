use serde_json_bytes::bytestring::ByteString;
use serde_json_bytes::filter::{
    any_of, compare, equal, inside, less, less_or_equal, regex, size, sub_set_of,
};
use serde_json_bytes::map::OrderedMap;
use serde_json_bytes::model::FilterSign;
use serde_json_bytes::number::Number;
use serde_json_bytes::selected::Selected;
use serde_json_bytes::value::Value;

fn text(s: &str) -> Value {
    Value::String(ByteString::from_str(s))
}

fn num(n: u64) -> Value {
    Value::Number(Number::PosInt(n))
}

fn float(f: f64) -> Value {
    Value::Number(Number::Float(f.to_bits()))
}

fn array(items: Vec<Value>) -> Value {
    Value::Array(items)
}

fn object(entries: Vec<(&str, Value)>) -> Value {
    let mut m = OrderedMap::new();
    for (k, v) in entries {
        m.insert(ByteString::from_str(k), v);
    }
    Value::Object(m)
}

fn side(values: Vec<Value>) -> Vec<Selected<'static>> {
    values.into_iter().map(Selected::Owned).collect()
}

#[test]
fn equal_needs_one_value_on_each_side() {
    assert!(equal(&side(vec![num(1)]), &side(vec![num(1)])));
    assert!(!equal(&side(vec![num(1)]), &side(vec![num(2)])));
    assert!(!equal(&side(vec![]), &side(vec![])));
    assert!(!equal(&side(vec![num(1), num(2)]), &side(vec![num(1), num(2)])));
    assert!(!equal(&side(vec![num(1)]), &side(vec![])));
    assert!(!equal(&side(vec![]), &side(vec![num(1)])));
    assert!(equal(&side(vec![Value::Null]), &side(vec![Value::Null])));
    assert!(!equal(&side(vec![num(10)]), &side(vec![float(10.0)])));
    assert!(compare(&FilterSign::Unequal, &side(vec![]), &side(vec![])));
    assert!(!compare(&FilterSign::Unequal, &side(vec![num(1)]), &side(vec![num(1)])));
    assert!(compare(&FilterSign::Equal, &side(vec![text("a")]), &side(vec![text("a")])));
}

#[test]
fn less_compares_single_numbers_by_value() {
    assert!(less(&side(vec![float(8.95)]), &side(vec![float(8.99)])));
    assert!(!less(&side(vec![float(8.99)]), &side(vec![float(8.99)])));
    assert!(less(&side(vec![float(8.95)]), &side(vec![num(10)])));
    assert!(!less(&side(vec![num(10)]), &side(vec![float(8.95)])));
    assert!(less(&side(vec![Value::Number(Number::NegInt(-1))]), &side(vec![num(0)])));
    assert!(!less(&side(vec![text("a")]), &side(vec![text("b")])));
    assert!(!less(&side(vec![num(1)]), &side(vec![text("2")])));
    assert!(!less(&side(vec![]), &side(vec![num(1)])));
    assert!(!less(&side(vec![num(1), num(1)]), &side(vec![num(2)])));
    assert!(!less(&side(vec![num(1)]), &side(vec![num(2), num(3)])));
    assert!(compare(&FilterSign::Greater, &side(vec![num(3)]), &side(vec![num(2)])));
    assert!(!compare(&FilterSign::Greater, &side(vec![num(2)]), &side(vec![num(2)])));
}

#[test]
fn less_or_equal_compares_single_numbers_by_value() {
    assert!(less_or_equal(&side(vec![float(8.99)]), &side(vec![float(8.99)])));
    assert!(less_or_equal(&side(vec![float(8.95)]), &side(vec![float(8.99)])));
    assert!(!less_or_equal(&side(vec![float(12.99)]), &side(vec![float(8.99)])));
    assert!(less_or_equal(&side(vec![num(10)]), &side(vec![float(10.0)])));
    assert!(less_or_equal(&side(vec![float(10.0)]), &side(vec![num(10)])));
    assert!(!less_or_equal(&side(vec![text("a")]), &side(vec![text("a")])));
    assert!(!less_or_equal(&side(vec![]), &side(vec![])));
    assert!(compare(&FilterSign::LeOrEq, &side(vec![num(2)]), &side(vec![num(2)])));
    assert!(compare(&FilterSign::GrOrEq, &side(vec![num(2)]), &side(vec![num(2)])));
    assert!(compare(&FilterSign::GrOrEq, &side(vec![num(3)]), &side(vec![num(2)])));
    assert!(!compare(&FilterSign::GrOrEq, &side(vec![num(1)]), &side(vec![num(2)])));
}

#[test]
fn inside_looks_into_one_array_or_object() {
    let titles = array(vec![text("Moby Dick"), text("Dicks")]);
    assert!(inside(&side(vec![text("Moby Dick")]), &side(vec![titles.clone()])));
    assert!(!inside(&side(vec![text("Sword of Honour")]), &side(vec![titles.clone()])));
    assert!(inside(&side(vec![text("no"), text("Dicks")]), &side(vec![titles.clone()])));
    assert!(!inside(&side(vec![]), &side(vec![titles.clone()])));
    assert!(!inside(&side(vec![text("Dicks")]), &side(vec![])));
    assert!(!inside(&side(vec![text("Dicks")]), &side(vec![titles.clone(), titles.clone()])));
    assert!(!inside(&side(vec![text("Dicks")]), &side(vec![text("Dicks")])));
    let prices = object(vec![("a", num(1)), ("b", num(2))]);
    assert!(inside(&side(vec![num(2)]), &side(vec![prices.clone()])));
    assert!(!inside(&side(vec![num(3)]), &side(vec![prices.clone()])));
    assert!(!inside(&side(vec![text("a")]), &side(vec![prices])));
    assert!(compare(&FilterSign::Nin, &side(vec![text("x")]), &side(vec![titles.clone()])));
    assert!(!compare(&FilterSign::Nin, &side(vec![text("Dicks")]), &side(vec![titles.clone()])));
    assert!(compare(&FilterSign::In, &side(vec![text("Dicks")]), &side(vec![titles])));
}

#[test]
fn size_counts_bytes_elements_and_entries() {
    assert!(size(&side(vec![text("Nigel Rees")]), &side(vec![num(10)])));
    assert!(!size(&side(vec![text("Evelyn Waugh")]), &side(vec![num(10)])));
    assert!(size(&side(vec![text("é")]), &side(vec![num(2)])));
    assert!(size(&side(vec![array(vec![num(1), num(2)])]), &side(vec![num(2)])));
    assert!(size(&side(vec![object(vec![("a", num(1))])]), &side(vec![num(1)])));
    assert!(size(&side(vec![text("ab"), array(vec![num(1), num(2)])]), &side(vec![num(2)])));
    assert!(!size(&side(vec![text("ab"), array(vec![num(1)])]), &side(vec![num(2)])));
    assert!(!size(&side(vec![num(2)]), &side(vec![num(2)])));
    assert!(size(&side(vec![]), &side(vec![num(2)])));
    assert!(!size(&side(vec![text("ab")]), &side(vec![text("2")])));
    assert!(!size(&side(vec![text("ab")]), &side(vec![])));
    assert!(!size(&side(vec![text("ab")]), &side(vec![num(2), num(2)])));
    assert!(size(&side(vec![text("ab")]), &side(vec![float(2.0)])));
    assert!(!size(&side(vec![text("ab")]), &side(vec![float(2.5)])));
    assert!(size(&side(vec![text("")]), &side(vec![float(-0.0)])));
    assert!(!size(&side(vec![text("")]), &side(vec![Value::Number(Number::NegInt(-1))])));
    assert!(compare(&FilterSign::Size, &side(vec![text("abc")]), &side(vec![num(3)])));
}

#[test]
fn any_of_asks_for_a_common_element() {
    let right = array(vec![num(1), num(4)]);
    assert!(any_of(&side(vec![array(vec![num(1), num(2), num(3)])]), &side(vec![right.clone()])));
    assert!(any_of(&side(vec![array(vec![num(4), num(5), num(6)])]), &side(vec![right.clone()])));
    assert!(!any_of(&side(vec![array(vec![num(7), num(8), num(9)])]), &side(vec![right.clone()])));
    assert!(any_of(&side(vec![num(4)]), &side(vec![right.clone()])));
    assert!(!any_of(&side(vec![num(5)]), &side(vec![right.clone()])));
    assert!(any_of(&side(vec![num(5), array(vec![num(1)])]), &side(vec![right.clone()])));
    assert!(!any_of(&side(vec![]), &side(vec![right.clone()])));
    assert!(!any_of(&side(vec![num(1)]), &side(vec![])));
    assert!(!any_of(&side(vec![num(1)]), &side(vec![num(1)])));
    assert!(!any_of(&side(vec![num(1)]), &side(vec![array(vec![])])));
    assert!(!any_of(&side(vec![array(vec![])]), &side(vec![right.clone()])));
    assert!(compare(&FilterSign::NoneOf, &side(vec![array(vec![num(7)])]), &side(vec![right.clone()])));
    assert!(!compare(&FilterSign::NoneOf, &side(vec![array(vec![num(1)])]), &side(vec![right.clone()])));
    assert!(compare(&FilterSign::NoneOf, &side(vec![]), &side(vec![right.clone()])));
    assert!(compare(&FilterSign::AnyOf, &side(vec![num(1)]), &side(vec![right])));
}

#[test]
fn sub_set_of_asks_for_every_element() {
    let right = array(vec![num(1), num(2), num(3), num(4)]);
    assert!(sub_set_of(&side(vec![array(vec![num(1), num(2), num(3)])]), &side(vec![right.clone()])));
    assert!(!sub_set_of(&side(vec![array(vec![num(4), num(5), num(6)])]), &side(vec![right.clone()])));
    assert!(sub_set_of(&side(vec![array(vec![num(2), num(2)])]), &side(vec![right.clone()])));
    assert!(sub_set_of(&side(vec![array(vec![])]), &side(vec![right.clone()])));
    assert!(sub_set_of(&side(vec![array(vec![])]), &side(vec![array(vec![])])));
    assert!(!sub_set_of(&side(vec![array(vec![num(1)])]), &side(vec![array(vec![])])));
    assert!(sub_set_of(&side(vec![]), &side(vec![right.clone()])));
    assert!(sub_set_of(&side(vec![]), &side(vec![])));
    assert!(!sub_set_of(&side(vec![array(vec![num(1)])]), &side(vec![])));
    assert!(!sub_set_of(&side(vec![num(1)]), &side(vec![right.clone()])));
    assert!(!sub_set_of(&side(vec![array(vec![num(1)])]), &side(vec![num(1)])));
    assert!(!sub_set_of(&side(vec![array(vec![num(1)])]), &side(vec![right.clone(), right.clone()])));
    assert!(compare(&FilterSign::SubSetOf, &side(vec![array(vec![num(4)])]), &side(vec![right])));
}

#[test]
fn regex_matches_strings_against_one_pattern() {
    assert!(regex(&side(vec![text("Nigel Rees")]), &side(vec![text(".*Rees")])));
    assert!(!regex(&side(vec![text("Evelyn Waugh")]), &side(vec![text(".*Rees")])));
    assert!(regex(&side(vec![text("Evelyn Waugh"), text("Rees")]), &side(vec![text(".*Rees")])));
    assert!(regex(&side(vec![text("a Rees b")]), &side(vec![text("Rees")])));
    assert!(!regex(&side(vec![text("a Rees b")]), &side(vec![text("^Rees$")])));
    assert!(regex(&side(vec![num(1), text("Rees")]), &side(vec![text("Rees")])));
    assert!(!regex(&side(vec![num(1)]), &side(vec![text("1")])));
    assert!(!regex(&side(vec![]), &side(vec![text(".*")])));
    assert!(!regex(&side(vec![text("x")]), &side(vec![])));
    assert!(!regex(&side(vec![text("x")]), &side(vec![num(1)])));
    assert!(!regex(&side(vec![text("x")]), &side(vec![text("x"), text("x")])));
    assert!(compare(&FilterSign::Regex, &side(vec![text("abc")]), &side(vec![text("b")])));
}

#[test]
fn a_pattern_that_does_not_compile_matches_nothing() {
    assert!(!regex(&side(vec![text("(")]), &side(vec![text("(")])));
    assert!(!regex(&side(vec![text("[a")]), &side(vec![text("[a")])));
    assert!(!regex(&side(vec![text("anything")]), &side(vec![text("*")])));
}

#[test]
fn a_pattern_is_not_taken_as_plain_text() {
    // The pattern "a.c" is no part of the text "abc", and yet matches it.
    assert!(regex(&side(vec![text("abc")]), &side(vec![text("a.c")])));
    assert!(!regex(&side(vec![text("a.c")]), &side(vec![text("a\\.d")])));
}

#[test]
fn exists_asks_for_a_value_on_the_left() {
    assert!(compare(&FilterSign::Exists, &side(vec![Value::Null]), &side(vec![])));
    assert!(compare(&FilterSign::Exists, &side(vec![num(1), num(2)]), &side(vec![num(1)])));
    assert!(!compare(&FilterSign::Exists, &side(vec![]), &side(vec![num(1)])));
}

#[test]
fn borrowed_and_owned_values_compare_alike() {
    let doc = array(vec![num(1), num(4)]);
    let one = num(1);
    let left = vec![Selected::Borrowed(&one)];
    let right = vec![Selected::Borrowed(&doc)];
    assert!(inside(&left, &right));
    assert!(any_of(&left, &right));
    let owned = vec![Selected::Owned(num(1))];
    assert!(equal(&left, &owned));
    assert!(left[0].as_ref() == &one);
    assert!(Selected::Borrowed(&one).into_owned() == one);
    assert!(Selected::Owned(num(1)).into_owned() == one);
}
