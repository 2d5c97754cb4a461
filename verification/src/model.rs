//! The parsed form of a path expression.

use crate::number::Number;
use crate::value::Value;
use vstd::prelude::*;

verus! {

/// A node of a path expression.
#[derive(Debug)]
pub enum JsonPath {
    /// `$`: the root of the document.
    Root,
    /// `.name`: the field of that name.
    Field(String),
    /// A sequence of steps, each applied to what the one before selected.
    Chain(Vec<JsonPath>),
    /// `..name`: the fields of that name at any depth.
    Descent(String),
    /// `..*`: every descendant.
    DescentW,
    /// `[...]`: an index, a union, a slice or a filter.
    Index(JsonPathIndex),
    /// `@`: the value under test in a filter, with the path applied to it.
    Current(Box<JsonPath>),
    /// `*`: every child.
    Wildcard,
    /// The step that selects what it is applied to.
    Empty,
    /// A function applied to the current value.
    Fn(Function),
}

/// The functions of a path expression.
#[derive(Clone, Copy, Debug, PartialEq, Eq)]
pub enum Function {
    /// `length()`: the number of elements of an array.
    Length,
}

/// What stands between the brackets of an index step.
#[derive(Debug)]
pub enum JsonPathIndex {
    /// One position of an array.
    Single(Number),
    /// Several positions of an array.
    UnionIndex(Vec<Number>),
    /// Several keys of an object.
    UnionKeys(Vec<String>),
    /// `start:end:step`. An end of 0 stands for the end of the array, which is
    /// how a path expression without an end is parsed.
    Slice(i32, i32, usize),
    /// `?(...)`: the elements for which the expression holds.
    Filter(FilterExpression),
}

/// A boolean expression over the value under test.
#[derive(Debug)]
pub enum FilterExpression {
    /// One comparison.
    Atom(Operand, FilterSign, Operand),
    And(Box<FilterExpression>, Box<FilterExpression>),
    Or(Box<FilterExpression>, Box<FilterExpression>),
    Not(Box<FilterExpression>),
}

/// One side of a comparison.
#[derive(Debug)]
pub enum Operand {
    /// A literal.
    Static(Value),
    /// A path, evaluated against the value under test.
    Dynamic(Box<JsonPath>),
}

/// The operators of a comparison.
#[derive(Clone, Copy, Debug, PartialEq, Eq)]
pub enum FilterSign {
    Equal,
    Unequal,
    Less,
    Greater,
    LeOrEq,
    GrOrEq,
    Regex,
    In,
    Nin,
    Size,
    NoneOf,
    AnyOf,
    SubSetOf,
    Exists,
}

} // verus!
