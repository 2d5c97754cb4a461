//! The comparisons of filter expressions.

use crate::model::FilterSign;
use crate::number::Number;
use crate::pattern::match_pattern;
use crate::selected::{values, Selected};
use crate::semantics::{
    any_of_spec, compare_spec, equal_spec, has_size, inside_spec, less_or_equal_spec, less_spec,
    matched_by, meets, occurs_among, occurs_in, regex_spec, size_is, size_spec, sub_set_of_spec,
};
use crate::value::{views, Json, Value};
use vstd::prelude::*;

verus! {

/// `==`: whether both sides are one value each and the two are equal.
pub fn equal<'value>(left: &Vec<Selected<'value>>, right: &Vec<Selected<'value>>) -> (r: bool)
    ensures
        r == equal_spec(values(left@), values(right@)),
{
    left.len() == 1 && right.len() == 1 && left[0].as_ref().equals(right[0].as_ref())
}

/// `<`: whether both sides are one number each and the left is below the right.
pub fn less<'value>(left: &Vec<Selected<'value>>, right: &Vec<Selected<'value>>) -> (r: bool)
    ensures
        r == less_spec(values(left@), values(right@)),
{
    if left.len() == 1 && right.len() == 1 {
        match (left[0].as_ref().as_number(), right[0].as_ref().as_number()) {
            (Some(l), Some(r)) => l.lt(&r),
            _ => false,
        }
    } else {
        false
    }
}

/// `<=`: whether both sides are one number each and the left is not above
/// the right.
pub fn less_or_equal<'value>(left: &Vec<Selected<'value>>, right: &Vec<Selected<'value>>) -> (r:
    bool)
    ensures
        r == less_or_equal_spec(values(left@), values(right@)),
{
    if left.len() == 1 && right.len() == 1 {
        match (left[0].as_ref().as_number(), right[0].as_ref().as_number()) {
            (Some(l), Some(r)) => l.le(&r),
            _ => false,
        }
    } else {
        false
    }
}

/// Whether some element of `items` equals `value`.
fn occurs(value: &Value, items: &Vec<Value>) -> (r: bool)
    ensures
        r == occurs_in(value@, views(items@)),
{
    let mut j: usize = 0;
    while j < items.len()
        invariant
            j <= items@.len(),
            forall|k: int| 0 <= k < j ==> !crate::value::json_eq(value@, #[trigger] views(items@)[k]),
        decreases items@.len() - j,
    {
        if value.equals(&items[j]) {
            assert(crate::value::json_eq(value@, views(items@)[j as int]));
            return true;
        }
        j = j + 1;
    }
    false
}

/// `in`: whether the right side is one array or one object, and some value of
/// the left side equals one of its elements, or of its values.
#[verifier::loop_isolation(false)]
pub fn inside<'value>(left: &Vec<Selected<'value>>, right: &Vec<Selected<'value>>) -> (r: bool)
    ensures
        r == inside_spec(values(left@), values(right@)),
{
    if right.len() != 1 {
        return false;
    }
    match right[0].as_ref() {
        Value::Array(elems) => {
            proof {
                Value::lemma_array_view(*elems);
            }
            let mut i: usize = 0;
            while i < left.len()
                invariant
                    i <= left@.len(),
                    forall|k: int|
                        0 <= k < i ==> !occurs_in(#[trigger] values(left@)[k], views(elems@)),
                decreases left@.len() - i,
            {
                if occurs(left[i].as_ref(), elems) {
                    assert(occurs_in(values(left@)[i as int], views(elems@)));
                    return true;
                }
                i = i + 1;
            }
            false
        },
        Value::Object(entries) => {
            let mut i: usize = 0;
            while i < left.len()
                invariant
                    i <= left@.len(),
                    forall|k: int|
                        0 <= k < i ==> !occurs_among(#[trigger] values(left@)[k], entries@),
                decreases left@.len() - i,
            {
                let mut j: usize = 0;
                while j < entries.len()
                    invariant
                        i < left@.len(),
                        j <= entries@.len(),
                        forall|k: int|
                            0 <= k < j ==> !crate::value::json_eq(
                                values(left@)[i as int],
                                (#[trigger] entries@[k]).1,
                            ),
                    decreases entries@.len() - j,
                {
                    if left[i].as_ref().equals(entries.value_at(j)) {
                        assert(crate::value::json_eq(
                            values(left@)[i as int],
                            entries@[j as int].1,
                        ));
                        assert(occurs_among(values(left@)[i as int], entries@));
                        return true;
                    }
                    j = j + 1;
                }
                i = i + 1;
            }
            false
        },
        _ => false,
    }
}

/// Whether a value has the size that the number gives.
fn sized(value: &Value, n: &Number) -> (r: bool)
    ensures
        r == has_size(value@, *n),
{
    match value {
        Value::String(text) => size_matches(text.len(), n),
        Value::Array(elems) => {
            proof {
                Value::lemma_array_view(*elems);
            }
            size_matches(elems.len(), n)
        },
        Value::Object(entries) => size_matches(entries.len(), n),
        _ => false,
    }
}

/// Whether the size equals the number, both taken as floats.
fn size_matches(len: usize, n: &Number) -> (r: bool)
    ensures
        r == size_is(len as nat, *n),
{
    crate::number::float_bits_eq(crate::number::float_bits_from_u64(len as u64), n.as_float_bits())
}

/// `size`: whether the right side is one number and every value of the left
/// side is a string, an array or an object of that size.
#[verifier::loop_isolation(false)]
pub fn size<'value>(left: &Vec<Selected<'value>>, right: &Vec<Selected<'value>>) -> (r: bool)
    ensures
        r == size_spec(values(left@), values(right@)),
{
    if right.len() != 1 {
        return false;
    }
    match right[0].as_ref().as_number() {
        Some(n) => {
            let mut i: usize = 0;
            while i < left.len()
                invariant
                    i <= left@.len(),
                    forall|k: int| 0 <= k < i ==> has_size(#[trigger] values(left@)[k], n),
                decreases left@.len() - i,
            {
                if !sized(left[i].as_ref(), &n) {
                    assert(!has_size(values(left@)[i as int], n));
                    return false;
                }
                i = i + 1;
            }
            true
        },
        None => false,
    }
}

/// `subsetOf`: whether the left side is empty, or its first value is an
/// array, the right side is one array, and every element of the first occurs
/// in the second.
#[verifier::loop_isolation(false)]
pub fn sub_set_of<'value>(left: &Vec<Selected<'value>>, right: &Vec<Selected<'value>>) -> (r: bool)
    ensures
        r == sub_set_of_spec(values(left@), values(right@)),
{
    if left.len() == 0 {
        return true;
    }
    if right.len() != 1 {
        return false;
    }
    match (left[0].as_ref(), right[0].as_ref()) {
        (Value::Array(own), Value::Array(elems)) => {
            proof {
                Value::lemma_array_view(*own);
                Value::lemma_array_view(*elems);
            }
            let mut a: usize = 0;
            while a < own.len()
                invariant
                    a <= own@.len(),
                    forall|k: int|
                        0 <= k < a ==> occurs_in(#[trigger] views(own@)[k], views(elems@)),
                decreases own@.len() - a,
            {
                if !occurs(&own[a], elems) {
                    assert(values(left@)[0] == Json::Array(views(own@)));
                    assert(values(right@)[0] == Json::Array(views(elems@)));
                    assert(!occurs_in(values(left@)[0]->Array_0[a as int], views(elems@)));
                    return false;
                }
                a = a + 1;
            }
            true
        },
        _ => false,
    }
}

/// Whether a left value meets the array: an array does when one of its
/// elements occurs there, any other value when it occurs there itself.
#[verifier::loop_isolation(false)]
fn meets_any(value: &Value, elems: &Vec<Value>) -> (r: bool)
    ensures
        r == meets(value@, views(elems@)),
{
    match value {
        Value::Array(own) => {
            proof {
                Value::lemma_array_view(*own);
            }
            let mut a: usize = 0;
            while a < own.len()
                invariant
                    a <= own@.len(),
                    forall|k: int|
                        0 <= k < a ==> !occurs_in(#[trigger] views(own@)[k], views(elems@)),
                decreases own@.len() - a,
            {
                if occurs(&own[a], elems) {
                    assert(occurs_in(views(own@)[a as int], views(elems@)));
                    return true;
                }
                a = a + 1;
            }
            false
        },
        _ => occurs(value, elems),
    }
}

/// `anyOf`: whether the right side is one array and some value of the left
/// side meets it.
#[verifier::loop_isolation(false)]
pub fn any_of<'value>(left: &Vec<Selected<'value>>, right: &Vec<Selected<'value>>) -> (r: bool)
    ensures
        r == any_of_spec(values(left@), values(right@)),
{
    if right.len() != 1 {
        return false;
    }
    match right[0].as_ref() {
        Value::Array(elems) => {
            proof {
                Value::lemma_array_view(*elems);
            }
            let mut i: usize = 0;
            while i < left.len()
                invariant
                    i <= left@.len(),
                    forall|k: int| 0 <= k < i ==> !meets(#[trigger] values(left@)[k], views(elems@)),
                decreases left@.len() - i,
            {
                if meets_any(left[i].as_ref(), elems) {
                    assert(meets(values(left@)[i as int], views(elems@)));
                    return true;
                }
                i = i + 1;
            }
            false
        },
        _ => false,
    }
}

/// `~=`: whether the right side is one string that compiles as a regular
/// expression and matches some string of the left side. A pattern that does
/// not compile matches nothing.
#[verifier::loop_isolation(false)]
pub fn regex<'value>(left: &Vec<Selected<'value>>, right: &Vec<Selected<'value>>) -> (r: bool)
    ensures
        r == regex_spec(values(left@), values(right@)),
{
    if right.len() != 1 {
        return false;
    }
    match right[0].as_ref().as_str() {
        Some(pattern) => {
            let mut i: usize = 0;
            while i < left.len()
                invariant
                    i <= left@.len(),
                    forall|k: int| 0 <= k < i ==> !matched_by(#[trigger] values(left@)[k], pattern@),
                decreases left@.len() - i,
            {
                let hit = match left[i].as_ref().as_str() {
                    Some(text) => match match_pattern(pattern, text) {
                        Some(found) => found,
                        None => false,
                    },
                    None => false,
                };
                if hit {
                    assert(matched_by(values(left@)[i as int], pattern@));
                    return true;
                }
                i = i + 1;
            }
            false
        },
        None => false,
    }
}

/// What the comparison `sign` gives for the values of its two sides.
pub fn compare<'value>(
    sign: &FilterSign,
    left: &Vec<Selected<'value>>,
    right: &Vec<Selected<'value>>,
) -> (r: bool)
    ensures
        r == compare_spec(*sign, values(left@), values(right@)),
{
    match sign {
        FilterSign::Equal => equal(left, right),
        FilterSign::Unequal => !equal(left, right),
        FilterSign::Less => less(left, right),
        FilterSign::Greater => less(right, left),
        FilterSign::LeOrEq => less_or_equal(left, right),
        FilterSign::GrOrEq => less_or_equal(right, left),
        FilterSign::Regex => regex(left, right),
        FilterSign::In => inside(left, right),
        FilterSign::Nin => !inside(left, right),
        FilterSign::Size => size(left, right),
        FilterSign::NoneOf => !any_of(left, right),
        FilterSign::AnyOf => any_of(left, right),
        FilterSign::SubSetOf => sub_set_of(left, right),
        FilterSign::Exists => left.len() > 0,
    }
}

} // verus!
