//! A selected value: a part of the document, or a value computed on the way.

use crate::value::{Json, Value};
use vstd::prelude::*;

verus! {

/// Either a reference into the document or a value that the selection made.
#[derive(Debug)]
pub enum Selected<'a> {
    /// A part of the document.
    Borrowed(&'a Value),
    /// A value computed during the selection.
    Owned(Value),
}

impl<'a> View for Selected<'a> {
    type V = Json;

    open spec fn view(&self) -> Json {
        match self {
            Selected::Borrowed(v) => v@,
            Selected::Owned(v) => v@,
        }
    }
}

/// The views of the selected values, in order.
pub open spec fn values<'a>(items: Seq<Selected<'a>>) -> Seq<Json> {
    Seq::new(items.len(), |i: int| items[i]@)
}

impl<'a> Selected<'a> {
    /// The value, by reference.
    pub fn as_ref(&self) -> (v: &Value)
        ensures
            v@ == self@,
    {
        match self {
            Selected::Borrowed(v) => v,
            Selected::Owned(v) => v,
        }
    }

    /// The value itself: a copy of the part of the document, or the computed
    /// value.
    pub fn into_owned(self) -> (v: Value)
        ensures
            v@ == self@,
    {
        match self {
            Selected::Borrowed(v) => v.clone(),
            Selected::Owned(v) => v,
        }
    }
}

} // verus!
