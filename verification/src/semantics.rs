//! What a path expression selects from a JSON value, as mathematics.
//!
//! Every function here is a `spec` function over the model of values. The
//! evaluator of the `path` module is proved to compute exactly what these
//! functions define.

use crate::map::lookup;
use crate::model::{FilterExpression, FilterSign, Function, JsonPath, JsonPathIndex, Operand};
use crate::number::{float_eq, float_of_nat, number_float, number_le, number_lt, Number};
use crate::pattern::regex_match;
use crate::value::{json_eq, Json};
use vstd::prelude::*;
use vstd::utf8::encode_utf8;

verus! {

/// One selected value: where it was found, what it is, and whether it was
/// computed during the selection rather than found in the document.
pub struct Match {
    /// The canonical path of the value, when paths are kept.
    pub path: Option<Seq<char>>,
    pub value: Json,
    /// Whether the value is not a part of the document.
    pub fresh: bool,
}

/// The character of a decimal digit.
pub open spec fn digit_char(d: nat) -> char {
    if d == 0 {
        '0'
    } else if d == 1 {
        '1'
    } else if d == 2 {
        '2'
    } else if d == 3 {
        '3'
    } else if d == 4 {
        '4'
    } else if d == 5 {
        '5'
    } else if d == 6 {
        '6'
    } else if d == 7 {
        '7'
    } else if d == 8 {
        '8'
    } else {
        '9'
    }
}

/// The decimal numeral of `n`, without leading zeros.
pub open spec fn decimal(n: nat) -> Seq<char>
    decreases n,
{
    if n < 10 {
        seq![digit_char(n)]
    } else {
        decimal(n / 10).push(digit_char(n % 10))
    }
}

/// The path of the root, `$`, when paths are kept.
pub open spec fn root_path_spec(path: Option<Seq<char>>) -> Option<Seq<char>> {
    match path {
        Some(_) => Some(seq!['$']),
        None => None,
    }
}

/// The path extended by an index step, `[n]`.
pub open spec fn index_path_spec(path: Option<Seq<char>>, index: nat) -> Option<Seq<char>> {
    match path {
        Some(p) => Some(p + seq!['['] + decimal(index) + seq![']']),
        None => None,
    }
}

/// The path extended by a key step, `.['key']`.
pub open spec fn key_path_spec(path: Option<Seq<char>>, key: Seq<char>) -> Option<Seq<char>> {
    match path {
        Some(p) => Some(p + seq!['.', '[', '\''] + key + seq!['\'', ']']),
        None => None,
    }
}

/// A value found in the document at `path`.
pub open spec fn found(path: Option<Seq<char>>, value: Json) -> Match {
    Match { path, value, fresh: false }
}

/// The same matches, each marked as computed.
pub open spec fn all_fresh(matches: Seq<Match>) -> Seq<Match> {
    Seq::new(
        matches.len(),
        |i: int| Match { path: matches[i].path, value: matches[i].value, fresh: true },
    )
}

/// What a later step selected under the match `first`: once a value is
/// computed, all that is selected below it counts as computed too.
pub open spec fn carried(first: Match, below: Seq<Match>) -> Seq<Match> {
    if first.fresh {
        all_fresh(below)
    } else {
        below
    }
}

/// The values of the matches, in order.
pub open spec fn values_of(matches: Seq<Match>) -> Seq<Json> {
    Seq::new(matches.len(), |i: int| matches[i].value)
}

/// The number of children of a value: the elements of an array, the entries
/// of an object, none of anything else.
pub open spec fn child_count(value: Json) -> nat {
    match value {
        Json::Array(items) => items.len(),
        Json::Object(entries) => entries.len(),
        _ => 0,
    }
}

/// The first `n` children of a value, in order, each with its path.
pub open spec fn children(value: Json, path: Option<Seq<char>>, n: nat) -> Seq<Match> {
    match value {
        Json::Array(items) => Seq::new(
            n,
            |i: int| found(index_path_spec(path, i as nat), items[i]),
        ),
        Json::Object(entries) => Seq::new(
            n,
            |i: int| found(key_path_spec(path, entries[i].0), entries[i].1),
        ),
        _ => Seq::empty(),
    }
}

/// The position that a number names in an array, if it names one.
pub open spec fn position(n: Number) -> Option<nat> {
    match n {
        Number::PosInt(u) => Some(u as nat),
        _ => None,
    }
}

/// The first index of a slice over an array of `len` elements: a negative start
/// counts from the end, and the result is held within the array.
pub open spec fn slice_lower(start: int, len: nat) -> nat {
    if start >= 0 {
        if start > len {
            len
        } else {
            start as nat
        }
    } else if len + start < 0 {
        0
    } else {
        (len + start) as nat
    }
}

/// The index before which a slice over an array of `len` elements stops: an
/// end of 0 is the end of the array, a negative end counts from the end, and
/// the result is held within the array.
pub open spec fn slice_upper(end: int, len: nat) -> nat {
    if end == 0 {
        len
    } else {
        slice_lower(end, len)
    }
}

/// How far `from` is below `upper`, and 0 when it is not below it.
pub open spec fn distance(from: nat, upper: nat) -> nat {
    if from < upper {
        (upper - from) as nat
    } else {
        0
    }
}

/// The indices `from`, `from + step`, ... below `upper`. A step of 0 selects
/// nothing.
pub open spec fn stride(from: nat, upper: nat, step: nat) -> Seq<nat>
    decreases distance(from, upper),
{
    if step == 0 || from >= upper {
        Seq::empty()
    } else {
        seq![from] + stride(from + step, upper, step)
    }
}

/// The indices that the slice `start:end:step` selects from an array of `len`
/// elements, in order.
pub open spec fn slice_indices(start: int, end: int, step: nat, len: nat) -> Seq<nat> {
    stride(slice_lower(start, len), slice_upper(end, len), step)
}

/// The elements at the first `n` of the given indices, each with its path.
pub open spec fn elements_at(
    items: Seq<Json>,
    indices: Seq<nat>,
    path: Option<Seq<char>>,
    n: nat,
) -> Seq<Match> {
    Seq::new(n, |k: int| found(index_path_spec(path, indices[k]), items[indices[k] as int]))
}

/// The elements that the first `n` numbers of a union name, in the order of
/// the union. A number that names no element of the array is passed over.
pub open spec fn union_elements(
    items: Seq<Json>,
    numbers: Seq<Number>,
    path: Option<Seq<char>>,
    n: nat,
) -> Seq<Match>
    decreases n,
{
    if n == 0 {
        Seq::empty()
    } else {
        union_elements(items, numbers, path, (n - 1) as nat) + index_match(
            items,
            numbers[n - 1],
            path,
        )
    }
}

/// The element that a number names, if it names one of the array.
pub open spec fn index_match(items: Seq<Json>, number: Number, path: Option<Seq<char>>) -> Seq<
    Match,
> {
    match position(number) {
        Some(i) => if i < items.len() {
            seq![found(index_path_spec(path, i), items[i as int])]
        } else {
            Seq::empty()
        },
        None => Seq::empty(),
    }
}

/// The values under the first `n` keys of a union, in the order of the union.
/// A key that the object lacks is passed over.
pub open spec fn union_fields(
    entries: Seq<(Seq<char>, Json)>,
    keys: Seq<String>,
    path: Option<Seq<char>>,
    n: nat,
) -> Seq<Match>
    decreases n,
{
    if n == 0 {
        Seq::empty()
    } else {
        union_fields(entries, keys, path, (n - 1) as nat) + key_match(entries, keys[n - 1]@, path)
    }
}

/// The value under a key, if the object has the key.
pub open spec fn key_match(entries: Seq<(Seq<char>, Json)>, key: Seq<char>, path: Option<Seq<char>>)
    -> Seq<Match> {
    match lookup(entries, key) {
        Some(v) => seq![found(key_path_spec(path, key), v)],
        None => Seq::empty(),
    }
}

/// `==`: both sides are one value each, and the two are equal.
pub open spec fn equal_spec(left: Seq<Json>, right: Seq<Json>) -> bool {
    left.len() == 1 && right.len() == 1 && json_eq(left[0], right[0])
}

/// `<`: both sides are one number each, and the left is below the right.
pub open spec fn less_spec(left: Seq<Json>, right: Seq<Json>) -> bool {
    &&& left.len() == 1
    &&& right.len() == 1
    &&& left[0] matches Json::Number(l)
    &&& right[0] matches Json::Number(r)
    &&& number_lt(l, r)
}

/// `<=`: both sides are one number each, and the left is not above the right.
pub open spec fn less_or_equal_spec(left: Seq<Json>, right: Seq<Json>) -> bool {
    &&& left.len() == 1
    &&& right.len() == 1
    &&& left[0] matches Json::Number(l)
    &&& right[0] matches Json::Number(r)
    &&& number_le(l, r)
}

/// Whether some element of `items` equals `value`.
pub open spec fn occurs_in(value: Json, items: Seq<Json>) -> bool {
    exists|j: int| 0 <= j < items.len() && json_eq(value, #[trigger] items[j])
}

/// Whether the value of some entry equals `value`.
pub open spec fn occurs_among(value: Json, entries: Seq<(Seq<char>, Json)>) -> bool {
    exists|j: int| 0 <= j < entries.len() && json_eq(value, (#[trigger] entries[j]).1)
}

/// `in`: the right side is one array or one object, and some value of the
/// left side equals one of its elements, or of its values.
pub open spec fn inside_spec(left: Seq<Json>, right: Seq<Json>) -> bool {
    right.len() == 1 && match right[0] {
        Json::Array(items) => exists|i: int|
            0 <= i < left.len() && occurs_in(#[trigger] left[i], items),
        Json::Object(entries) => exists|i: int|
            0 <= i < left.len() && occurs_among(#[trigger] left[i], entries),
        _ => false,
    }
}

/// Whether a value is a string, an array or an object whose size, in bytes,
/// elements or entries, is the number `n`.
pub open spec fn has_size(value: Json, n: Number) -> bool {
    match value {
        Json::String(text) => size_is(encode_utf8(text).len(), n),
        Json::Array(items) => size_is(items.len(), n),
        Json::Object(entries) => size_is(entries.len(), n),
        _ => false,
    }
}

/// Whether the size `len` equals the number `n`, both taken as floats.
pub open spec fn size_is(len: nat, n: Number) -> bool {
    float_eq(float_of_nat(len) as u64, number_float(n))
}

/// `size`: the right side is one number, and every value of the left side has
/// that size.
pub open spec fn size_spec(left: Seq<Json>, right: Seq<Json>) -> bool {
    &&& right.len() == 1
    &&& right[0] matches Json::Number(n)
    &&& forall|i: int| 0 <= i < left.len() ==> has_size(#[trigger] left[i], n)
}

/// Whether a left value meets the array `items`: an array does when one of
/// its elements occurs in `items`, any other value when it occurs there itself.
pub open spec fn meets(value: Json, items: Seq<Json>) -> bool {
    match value {
        Json::Array(own) => exists|a: int| 0 <= a < own.len() && occurs_in(#[trigger] own[a], items),
        _ => occurs_in(value, items),
    }
}

/// `anyOf`: the right side is one array, and some value of the left side
/// meets it.
pub open spec fn any_of_spec(left: Seq<Json>, right: Seq<Json>) -> bool {
    &&& right.len() == 1
    &&& right[0] matches Json::Array(items)
    &&& exists|i: int| 0 <= i < left.len() && meets(#[trigger] left[i], items)
}

/// `subsetOf`: an empty left side is a subset of anything; otherwise the
/// first value of the left side is an array, the right side is one array, and
/// every element of the first occurs in the second.
pub open spec fn sub_set_of_spec(left: Seq<Json>, right: Seq<Json>) -> bool {
    left.len() == 0 || {
        &&& right.len() == 1
        &&& left[0] matches Json::Array(own)
        &&& right[0] matches Json::Array(items)
        &&& forall|a: int| 0 <= a < own.len() ==> occurs_in(#[trigger] own[a], items)
    }
}

/// Whether a value is a string that the pattern matches.
pub open spec fn matched_by(value: Json, pattern: Seq<char>) -> bool {
    value matches Json::String(text) && regex_match(pattern, text) == Some(true)
}

/// `~=`: the right side is one string that compiles as a regular expression,
/// and it matches some string of the left side.
pub open spec fn regex_spec(left: Seq<Json>, right: Seq<Json>) -> bool {
    &&& right.len() == 1
    &&& right[0] matches Json::String(pattern)
    &&& exists|i: int| 0 <= i < left.len() && matched_by(#[trigger] left[i], pattern)
}

/// What a comparison gives for the values of its two sides.
pub open spec fn compare_spec(sign: FilterSign, left: Seq<Json>, right: Seq<Json>) -> bool {
    match sign {
        FilterSign::Equal => equal_spec(left, right),
        FilterSign::Unequal => !equal_spec(left, right),
        FilterSign::Less => less_spec(left, right),
        FilterSign::Greater => less_spec(right, left),
        FilterSign::LeOrEq => less_or_equal_spec(left, right),
        FilterSign::GrOrEq => less_or_equal_spec(right, left),
        FilterSign::Regex => regex_spec(left, right),
        FilterSign::In => inside_spec(left, right),
        FilterSign::Nin => !inside_spec(left, right),
        FilterSign::Size => size_spec(left, right),
        FilterSign::NoneOf => !any_of_spec(left, right),
        FilterSign::AnyOf => any_of_spec(left, right),
        FilterSign::SubSetOf => sub_set_of_spec(left, right),
        FilterSign::Exists => left.len() > 0,
    }
}

/// The number of steps of a chain, and 0 for any other node.
pub open spec fn chain_len(path: JsonPath) -> nat {
    match path {
        JsonPath::Chain(steps) => steps@.len(),
        _ => 0,
    }
}

/// What the path selects from `value`, a part of the document `root`, in the
/// order in which the matches are produced. `path_so_far` is the canonical
/// path of `value`, or nothing when paths are not kept.
pub open spec fn select_spec(
    path: JsonPath,
    root: Json,
    value: Json,
    path_so_far: Option<Seq<char>>,
) -> Seq<Match>
    decreases path, 2 * chain_len(path) + 2, value, 1nat, 0nat,
{
    match path {
        JsonPath::Root => seq![found(root_path_spec(path_so_far), root)],
        JsonPath::Empty => seq![found(path_so_far, value)],
        JsonPath::Field(name) => match value {
            Json::Object(entries) => key_match(entries, name@, path_so_far),
            _ => Seq::empty(),
        },
        JsonPath::Chain(steps) => chain_spec(path, 0, root, value, path_so_far),
        JsonPath::Wildcard => children(value, path_so_far, child_count(value)),
        JsonPath::Descent(name) => (match value {
            Json::Object(entries) => key_match(entries, name@, path_so_far),
            _ => Seq::empty(),
        }) + descend(path, root, value, path_so_far, child_count(value)),
        JsonPath::DescentW => children(value, path_so_far, child_count(value)) + descend(
            path,
            root,
            value,
            path_so_far,
            child_count(value),
        ),
        JsonPath::Index(index) => index_spec(index, root, value, path_so_far),
        JsonPath::Current(inner) => match *inner {
            JsonPath::Empty => seq![found(root_path_spec(path_so_far), value)],
            _ => select_spec(*inner, root, value, path_so_far),
        },
        JsonPath::Fn(Function::Length) => match value {
            Json::Array(items) => seq![
                Match {
                    path: path_so_far,
                    value: Json::Number(Number::PosInt(items.len() as u64)),
                    fresh: true,
                },
            ],
            _ => Seq::empty(),
        },
    }
}

/// What a descent selects below the first `n` children of `value`: for each
/// child in turn, all that the path selects from it.
pub open spec fn descend(
    path: JsonPath,
    root: Json,
    value: Json,
    path_so_far: Option<Seq<char>>,
    n: nat,
) -> Seq<Match>
    decreases path, 2 * chain_len(path) + 2, value, 0nat, n,
{
    match value {
        Json::Array(items) => if n == 0 || n > items.len() {
            Seq::empty()
        } else {
            descend(path, root, value, path_so_far, (n - 1) as nat) + select_spec(
                path,
                root,
                items[n - 1],
                index_path_spec(path_so_far, (n - 1) as nat),
            )
        },
        Json::Object(entries) => if n == 0 || n > entries.len() {
            Seq::empty()
        } else {
            descend(path, root, value, path_so_far, (n - 1) as nat) + select_spec(
                path,
                root,
                entries[n - 1].1,
                key_path_spec(path_so_far, entries[n - 1].0),
            )
        },
        _ => Seq::empty(),
    }
}

/// What the steps of the chain `path` from the one at `from` on select from
/// `value`: the first of them is applied to `value`, and the rest to each of
/// its matches in turn. A chain without steps selects `value` itself.
pub open spec fn chain_spec(
    path: JsonPath,
    from: nat,
    root: Json,
    value: Json,
    path_so_far: Option<Seq<char>>,
) -> Seq<Match>
    decreases path, 2 * (chain_len(path) - from) + 1, Json::Null, 0nat, 0nat,
{
    match path {
        JsonPath::Chain(steps) => if from >= steps@.len() {
            seq![found(path_so_far, value)]
        } else {
            let firsts = select_spec(steps@[from as int], root, value, path_so_far);
            chain_rest(path, from, root, firsts, firsts.len())
        },
        _ => Seq::empty(),
    }
}

/// What the steps of the chain after the one at `from` select from the first
/// `n` of the matches of that step.
pub open spec fn chain_rest(
    path: JsonPath,
    from: nat,
    root: Json,
    firsts: Seq<Match>,
    n: nat,
) -> Seq<Match>
    decreases path, 2 * (chain_len(path) - from), Json::Null, 0nat, n,
{
    if n == 0 || n > firsts.len() || from >= chain_len(path) {
        Seq::empty()
    } else {
        chain_rest(path, from, root, firsts, (n - 1) as nat) + carried(
            firsts[n - 1],
            chain_spec(path, from + 1, root, firsts[n - 1].value, firsts[n - 1].path),
        )
    }
}

/// What an index step selects from `value`.
pub open spec fn index_spec(
    index: JsonPathIndex,
    root: Json,
    value: Json,
    path_so_far: Option<Seq<char>>,
) -> Seq<Match>
    decreases index, 0nat, value, 1nat, 0nat,
{
    match index {
        JsonPathIndex::Single(number) => match value {
            Json::Array(items) => index_match(items, number, path_so_far),
            _ => Seq::empty(),
        },
        JsonPathIndex::UnionIndex(numbers) => match value {
            Json::Array(items) => union_elements(items, numbers@, path_so_far, numbers@.len()),
            _ => Seq::empty(),
        },
        JsonPathIndex::UnionKeys(keys) => match value {
            Json::Object(entries) => union_fields(entries, keys@, path_so_far, keys@.len()),
            _ => Seq::empty(),
        },
        JsonPathIndex::Slice(start, end, step) => match value {
            Json::Array(items) => {
                let indices = slice_indices(start as int, end as int, step as nat, items.len());
                elements_at(items, indices, path_so_far, indices.len())
            },
            _ => Seq::empty(),
        },
        JsonPathIndex::Filter(filter) => match value {
            Json::Array(items) => filter_elements(filter, root, value, path_so_far, items.len()),
            _ => if filter_spec(filter, root, value) {
                seq![found(path_so_far, value)]
            } else {
                Seq::empty()
            },
        },
    }
}

/// Those of the first `n` elements of the array `value` for which the filter
/// holds, in order, each with its path.
pub open spec fn filter_elements(
    filter: FilterExpression,
    root: Json,
    value: Json,
    path_so_far: Option<Seq<char>>,
    n: nat,
) -> Seq<Match>
    decreases filter, 0nat, value, 2nat, n,
{
    match value {
        Json::Array(items) => if n == 0 || n > items.len() {
            Seq::empty()
        } else {
            filter_elements(filter, root, value, path_so_far, (n - 1) as nat) + (if filter_spec(
                filter,
                root,
                items[n - 1],
            ) {
                seq![found(index_path_spec(path_so_far, (n - 1) as nat), items[n - 1])]
            } else {
                Seq::empty()
            })
        },
        _ => Seq::empty(),
    }
}

/// Whether the filter holds of `value`, a part of the document `root`.
pub open spec fn filter_spec(filter: FilterExpression, root: Json, value: Json) -> bool
    decreases filter, 0nat, value, 1nat, 0nat,
{
    match filter {
        FilterExpression::And(left, right) => filter_spec(*left, root, value) && filter_spec(
            *right,
            root,
            value,
        ),
        FilterExpression::Or(left, right) => filter_spec(*left, root, value) || filter_spec(
            *right,
            root,
            value,
        ),
        FilterExpression::Not(inner) => !filter_spec(*inner, root, value),
        FilterExpression::Atom(left, sign, right) => compare_spec(
            sign,
            values_of(operand_spec(left, root, value)),
            values_of(operand_spec(right, root, value)),
        ),
    }
}

/// The values of one side of a comparison: the literal, or all that the path
/// selects from the value under test.
pub open spec fn operand_spec(operand: Operand, root: Json, value: Json) -> Seq<Match>
    decreases operand, 0nat, value, 1nat, 0nat,
{
    match operand {
        Operand::Static(literal) => seq![Match { path: None, value: literal@, fresh: true }],
        Operand::Dynamic(path) => select_spec(*path, root, value, None),
    }
}

/// What a query returns for its matches: null for none, the value for one,
/// the array of the values, in order, for more.
pub open spec fn collapsed(values: Seq<Json>) -> Json {
    if values.len() == 0 {
        Json::Null
    } else if values.len() == 1 {
        values[0]
    } else {
        Json::Array(values)
    }
}

} // verus!
