//! Builds a value tree from the events of a JSON decoder.
//!
//! A decoder reports scalars, strings and the contents of arrays and objects;
//! the seeds turn each report into a value. A string that the decoder found
//! inside the input buffer is reported by its byte range, and becomes a view
//! of that range: no text is copied.

use crate::bytestring::{bytes_content, slice_text, ByteString, InvalidSlice};
use crate::map::{inserted, OrderedMap};
use crate::number::{float_is_finite, Number};
use crate::value::{views, Json, Value};
use bytes::Bytes;
use vstd::prelude::*;

verus! {

/// The entries of an object after the first `n` of the reported entries have
/// been inserted in order: of two entries with one key the later gives the
/// value, the earlier the position.
pub open spec fn collected(entries: Seq<(Seq<char>, Json)>, n: nat) -> Seq<(Seq<char>, Json)>
    decreases n,
{
    if n == 0 {
        Seq::empty()
    } else {
        inserted(collected(entries, (n - 1) as nat), entries[n - 1].0, entries[n - 1].1)
    }
}

/// The reported entries as keys and values of the model.
pub open spec fn entry_views(entries: Seq<(ByteString, Value)>) -> Seq<(Seq<char>, Json)> {
    Seq::new(entries.len(), |i: int| (entries[i].0@, entries[i].1@))
}

/// Turns decoder events into values whose strings share the buffer `bytes`.
#[derive(Clone, Copy, Debug)]
pub struct BytesSeed<'data> {
    bytes: &'data Bytes,
}

impl<'data> BytesSeed<'data> {
    /// The content of the buffer that the seed builds on.
    pub closed spec fn content(&self) -> Seq<u8> {
        bytes_content(*self.bytes)
    }

    /// A seed for values decoded from `bytes`.
    pub fn new(bytes: &'data Bytes) -> (seed: Self)
        ensures
            seed.content() == bytes_content(*bytes),
    {
        BytesSeed { bytes }
    }

    /// The value for a boolean.
    pub fn visit_bool(self, value: bool) -> (v: Value)
        ensures
            v@ == Json::Bool(value),
    {
        Value::Bool(value)
    }

    /// The value for a signed integer.
    pub fn visit_i64(self, value: i64) -> (v: Value)
        ensures
            value < 0 ==> v@ == Json::Number(Number::NegInt(value)),
            value >= 0 ==> v@ == Json::Number(Number::PosInt(value as u64)),
    {
        Value::Number(Number::from_i64(value))
    }

    /// The value for an unsigned integer.
    pub fn visit_u64(self, value: u64) -> (v: Value)
        ensures
            v@ == Json::Number(Number::PosInt(value)),
    {
        Value::Number(Number::from_u64(value))
    }

    /// The value for the float with the given bit pattern: null for a NaN or
    /// an infinity, which JSON cannot hold.
    pub fn visit_float_bits(self, bits: u64) -> (v: Value)
        ensures
            float_is_finite(bits) ==> v@ == Json::Number(Number::Float(bits)),
            !float_is_finite(bits) ==> v@ == Json::Null,
    {
        match Number::from_float_bits(bits) {
            Some(n) => Value::Number(n),
            None => Value::Null,
        }
    }

    /// The value for a string that the decoder holds in a buffer of its own:
    /// a fresh copy of the text.
    pub fn visit_str(self, value: &str) -> (v: Value)
        ensures
            v@ == Json::String(value@),
    {
        Value::String(ByteString::from_str(value))
    }

    /// The value for a string that the decoder found at the bytes
    /// `start..end` of the input: a view of that range, or the reason why the
    /// range cannot back a string.
    pub fn visit_borrowed_str(self, start: usize, end: usize) -> (r: Result<Value, InvalidSlice>)
        ensures
            match slice_text(self.content(), start as int, end as int) {
                Ok(text) => r is Ok && r->Ok_0@ == Json::String(text),
                Err(e) => r == Err::<Value, _>(e),
            },
    {
        match ByteString::new(self.bytes, start, end) {
            Ok(s) => Ok(Value::String(s)),
            Err(e) => Err(e),
        }
    }

    /// The value for a string that the decoder hands over.
    pub fn visit_string(self, value: String) -> (v: Value)
        ensures
            v@ == Json::String(value@),
    {
        Value::String(ByteString::from_string(value))
    }

    /// The value for an absent optional.
    pub fn visit_none(self) -> (v: Value)
        ensures
            v@ == Json::Null,
    {
        Value::Null
    }

    /// The value for the unit.
    pub fn visit_unit(self) -> (v: Value)
        ensures
            v@ == Json::Null,
    {
        Value::Null
    }

    /// The value for an array, from its elements in order.
    pub fn visit_seq(self, elements: Vec<Value>) -> (v: Value)
        ensures
            v@ == Json::Array(views(elements@)),
    {
        proof {
            Value::lemma_array_view(elements);
        }
        Value::Array(elements)
    }

    /// The value for an object, from its entries in the order of the input.
    /// Where a key comes twice, the later entry gives the value and the
    /// earlier one the position.
    pub fn visit_map(self, entries: Vec<(ByteString, Value)>) -> (v: Value)
        ensures
            v@ == Json::Object(collected(entry_views(entries@), entries@.len())),
    {
        let ghost reported = entry_views(entries@);
        let mut values = OrderedMap::new();
        for entry in it: entries
            invariant
                reported == entry_views(it.seq()),
                values@ == collected(reported, it.index() as nat),
        {
            assert(reported[it.index() as int] == (entry.0@, entry.1@));
            values.insert(entry.0, entry.1);
        }
        Value::Object(values)
    }
}

/// Turns decoder events into strings that share the buffer `bytes`.
#[derive(Clone, Copy, Debug)]
pub struct ByteStringSeed<'data> {
    bytes: &'data Bytes,
}

impl<'data> ByteStringSeed<'data> {
    /// The content of the buffer that the seed builds on.
    pub closed spec fn content(&self) -> Seq<u8> {
        bytes_content(*self.bytes)
    }

    /// A seed for strings decoded from `bytes`.
    pub fn new(bytes: &'data Bytes) -> (seed: Self)
        ensures
            seed.content() == bytes_content(*bytes),
    {
        ByteStringSeed { bytes }
    }

    /// The string for a text that the decoder holds in a buffer of its own:
    /// a fresh copy.
    pub fn visit_str(self, value: &str) -> (s: ByteString)
        ensures
            s@ == value@,
    {
        ByteString::from_str(value)
    }

    /// The string for a text that the decoder found at the bytes `start..end`
    /// of the input: a view of that range, or the reason why the range cannot
    /// back a string.
    pub fn visit_borrowed_str(self, start: usize, end: usize) -> (r: Result<
        ByteString,
        InvalidSlice,
    >)
        ensures
            match slice_text(self.content(), start as int, end as int) {
                Ok(text) => r is Ok && r->Ok_0@ == text,
                Err(e) => r == Err::<ByteString, _>(e),
            },
    {
        ByteString::new(self.bytes, start, end)
    }

    /// The string for a text that the decoder hands over.
    pub fn visit_string(self, value: String) -> (s: ByteString)
        ensures
            s@ == value@,
    {
        ByteString::from_string(value)
    }
}

} // verus!
