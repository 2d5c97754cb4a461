//! The JSON value tree and its mathematical model.

use crate::bytestring::ByteString;
use crate::map::{lookup, OrderedMap};
use crate::number::{number_eq, Number};
use vstd::prelude::*;

verus! {

/// A JSON value. Strings and object keys are views into a shared buffer.
#[derive(Debug)]
pub enum Value {
    Null,
    Bool(bool),
    Number(Number),
    String(ByteString),
    Array(Vec<Value>),
    Object(OrderedMap),
}

/// What a JSON value is, apart from the buffers that hold its strings: the
/// model over which every contract of this crate is stated. An object is the
/// sequence of its entries in insertion order.
pub enum Json {
    Null,
    Bool(bool),
    Number(Number),
    String(Seq<char>),
    Array(Seq<Json>),
    Object(Seq<(Seq<char>, Json)>),
}

impl View for Value {
    type V = Json;

    open spec fn view(&self) -> Json
        decreases self, 1nat, 0nat,
    {
        match self {
            Value::Null => Json::Null,
            Value::Bool(b) => Json::Bool(*b),
            Value::Number(n) => Json::Number(*n),
            Value::String(s) => Json::String(s@),
            Value::Array(a) => Json::Array(items_view(*self, a@.len())),
            Value::Object(m) => Json::Object(m@),
        }
    }
}

/// The views of the first `n` elements of an array.
pub open spec fn items_view(v: Value, n: nat) -> Seq<Json>
    decreases v, 0nat, n,
{
    match v {
        Value::Array(a) => if n == 0 || n > a@.len() {
            Seq::empty()
        } else {
            items_view(v, (n - 1) as nat).push(a@[n - 1]@)
        },
        _ => Seq::empty(),
    }
}

/// Structural equality of JSON values. Arrays are equal element by element;
/// objects are equal when they hold the same keys with equal values, in
/// whatever order; strings are equal when their texts are.
pub open spec fn json_eq(a: Json, b: Json) -> bool
    decreases a,
{
    match (a, b) {
        (Json::Null, Json::Null) => true,
        (Json::Bool(x), Json::Bool(y)) => x == y,
        (Json::Number(x), Json::Number(y)) => number_eq(x, y),
        (Json::String(x), Json::String(y)) => x == y,
        (Json::Array(x), Json::Array(y)) => x.len() == y.len() && forall|i: int|
            0 <= i < x.len() ==> json_eq(#[trigger] x[i], y[i]),
        (Json::Object(x), Json::Object(y)) => x.len() == y.len() && forall|i: int|
            0 <= i < x.len() ==> entry_matches(#[trigger] x[i], y),
        _ => false,
    }
}

/// Whether `entries` hold the key of `entry` with an equal value.
pub open spec fn entry_matches(entry: (Seq<char>, Json), entries: Seq<(Seq<char>, Json)>) -> bool
    decreases entry,
{
    match lookup(entries, entry.0) {
        Some(v) => json_eq(entry.1, v),
        None => false,
    }
}

/// The views of the values, in order.
pub open spec fn views(items: Seq<Value>) -> Seq<Json> {
    Seq::new(items.len(), |i: int| items[i]@)
}

impl Value {
    /// The view of an array holds the views of its elements.
    pub proof fn lemma_array_view(a: Vec<Value>)
        ensures
            Value::Array(a)@ == Json::Array(views(a@)),
    {
        Value::lemma_items_view(a, a@.len());
        assert(Value::Array(a)@ == Json::Array(items_view(Value::Array(a), a@.len())));
        assert(items_view(Value::Array(a), a@.len()) =~= views(a@));
    }

    proof fn lemma_items_view(a: Vec<Value>, n: nat)
        requires
            n <= a@.len(),
        ensures
            items_view(Value::Array(a), n).len() == n,
            forall|i: int| 0 <= i < n ==> #[trigger] items_view(Value::Array(a), n)[i] == a@[i]@,
        decreases n,
    {
        let v = Value::Array(a);
        if n > 0 {
            Value::lemma_items_view(a, (n - 1) as nat);
            assert(items_view(v, n) == items_view(v, (n - 1) as nat).push(a@[n - 1]@));
        } else {
            assert(items_view(v, n) == Seq::<Json>::empty());
        }
    }

    /// Whether the two values are equal.
    pub fn equals(&self, other: &Value) -> (r: bool)
        ensures
            r == json_eq(self@, other@),
        decreases self@,
    {
        match (self, other) {
            (Value::Null, Value::Null) => true,
            (Value::Bool(x), Value::Bool(y)) => *x == *y,
            (Value::Number(x), Value::Number(y)) => *x == *y,
            (Value::String(x), Value::String(y)) => *x == *y,
            (Value::Array(x), Value::Array(y)) => {
                proof {
                    Value::lemma_array_view(*x);
                    Value::lemma_array_view(*y);
                }
                if x.len() != y.len() {
                    return false;
                }
                let mut i: usize = 0;
                while i < x.len()
                    invariant
                        i <= x@.len() == y@.len(),
                        self@ == Json::Array(views(x@)),
                        other@ == Json::Array(views(y@)),
                        forall|j: int|
                            0 <= j < i ==> json_eq(#[trigger] views(x@)[j], views(y@)[j]),
                    decreases x@.len() - i,
                {
                    assert(decreases_to!(self@ => self@->Array_0[i as int]));
                    if !x[i].equals(&y[i]) {
                        assert(!json_eq(views(x@)[i as int], views(y@)[i as int]));
                        return false;
                    }
                    i = i + 1;
                }
                true
            },
            (Value::Object(x), Value::Object(y)) => {
                if x.len() != y.len() {
                    return false;
                }
                let mut i: usize = 0;
                while i < x.len()
                    invariant
                        i <= x@.len() == y@.len(),
                        self@ == Json::Object(x@),
                        other@ == Json::Object(y@),
                        forall|j: int| 0 <= j < i ==> entry_matches(#[trigger] x@[j], y@),
                    decreases x@.len() - i,
                {
                    assert(decreases_to!(self@ => self@->Object_0[i as int].1));
                    let same = match y.get(x.key_at(i).as_str()) {
                        Some(v) => x.value_at(i).equals(v),
                        None => false,
                    };
                    if !same {
                        assert(!entry_matches(x@[i as int], y@));
                        return false;
                    }
                    i = i + 1;
                }
                true
            },
            _ => false,
        }
    }

    /// The elements when the value is an array.
    pub fn as_array(&self) -> (r: Option<&Vec<Value>>)
        ensures
            match self@ {
                Json::Array(items) => r is Some && views(r->Some_0@) == items,
                _ => r is None,
            },
    {
        match self {
            Value::Array(a) => {
                proof {
                    Value::lemma_array_view(*a);
                }
                Some(a)
            },
            _ => None,
        }
    }

    /// The entries when the value is an object.
    pub fn as_object(&self) -> (r: Option<&OrderedMap>)
        ensures
            match self@ {
                Json::Object(entries) => r is Some && r->Some_0@ == entries,
                _ => r is None,
            },
    {
        match self {
            Value::Object(m) => Some(m),
            _ => None,
        }
    }

    /// The text when the value is a string.
    pub fn as_str(&self) -> (r: Option<&str>)
        ensures
            match self@ {
                Json::String(text) => r is Some && r->Some_0@ == text,
                _ => r is None,
            },
    {
        match self {
            Value::String(s) => Some(s.as_str()),
            _ => None,
        }
    }

    /// The number when the value is one.
    pub fn as_number(&self) -> (r: Option<Number>)
        ensures
            match self@ {
                Json::Number(n) => r == Some(n),
                _ => r is None,
            },
    {
        match self {
            Value::Number(n) => Some(*n),
            _ => None,
        }
    }
}

impl PartialEq for Value {
    fn eq(&self, other: &Self) -> (r: bool) {
        self.equals(other)
    }
}

impl vstd::std_specs::cmp::PartialEqSpecImpl for Value {
    open spec fn obeys_eq_spec() -> bool {
        true
    }

    open spec fn eq_spec(&self, other: &Self) -> bool {
        json_eq(self@, other@)
    }
}

impl Clone for Value {
    /// A copy of the tree. The strings of the copy share the buffers of the
    /// tree that was copied: no text is copied.
    fn clone(&self) -> (r: Self)
        ensures
            r@ == self@,
        decreases self@,
    {
        match self {
            Value::Null => Value::Null,
            Value::Bool(b) => Value::Bool(*b),
            Value::Number(n) => Value::Number(*n),
            Value::String(s) => Value::String(s.clone()),
            Value::Array(a) => {
                proof {
                    Value::lemma_array_view(*a);
                }
                let mut items: Vec<Value> = Vec::new();
                let mut i: usize = 0;
                while i < a.len()
                    invariant
                        i <= a@.len(),
                        self@ == Json::Array(views(a@)),
                        items@.len() == i,
                        views(items@) == views(a@).subrange(0, i as int),
                    decreases a@.len() - i,
                {
                    assert(decreases_to!(self@ => self@->Array_0[i as int]));
                    let ghost before = items@;
                    let item = a[i].clone();
                    items.push(item);
                    i = i + 1;
                    assert forall|j: int| 0 <= j < i implies views(items@)[j] == views(a@)[j] by {
                        if j < i - 1 {
                            assert(views(before)[j] == views(a@).subrange(0, i - 1)[j]);
                        }
                    }
                    assert(views(items@) =~= views(a@).subrange(0, i as int));
                }
                proof {
                    Value::lemma_array_view(items);
                    assert(views(items@) =~= views(a@));
                }
                Value::Array(items)
            },
            Value::Object(m) => {
                let mut entries = OrderedMap::new();
                let mut i: usize = 0;
                let n = m.len();
                while i < n
                    invariant
                        i <= m@.len(),
                        self@ == Json::Object(m@),
                        entries@ == m@.subrange(0, i as int),
                        crate::map::unique_keys(m@),
                        n == m@.len(),
                    decreases m@.len() - i,
                {
                    assert(decreases_to!(self@ => self@->Object_0[i as int].1));
                    let key = m.key_at(i).clone();
                    let value = m.value_at(i).clone();
                    proof {
                        crate::map::lemma_key_index_none(entries@, key@);
                        assert(m@.subrange(0, i as int).push(m@[i as int]) =~= m@.subrange(
                            0,
                            i + 1,
                        ));
                    }
                    entries.insert(key, value);
                    i = i + 1;
                }
                assert(entries@ =~= m@);
                Value::Object(entries)
            },
        }
    }
}

} // verus!
