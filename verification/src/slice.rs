//! The indices that a slice `start:end:step` selects from an array.

use crate::semantics::{distance, slice_indices, slice_lower, slice_upper, stride};
use vstd::prelude::*;

verus! {

/// The indices as mathematical integers, in order.
pub open spec fn indices_of(indices: Seq<usize>) -> Seq<nat> {
    Seq::new(indices.len(), |k: int| indices[k] as nat)
}

/// Every index of a stride lies below its bound.
pub proof fn lemma_stride_bounded(from: nat, upper: nat, step: nat)
    ensures
        forall|k: int|
            0 <= k < stride(from, upper, step).len() ==> from <= #[trigger] stride(
                from,
                upper,
                step,
            )[k] < upper,
    decreases distance(from, upper),
{
    if step == 0 || from >= upper {
    } else {
        lemma_stride_bounded(from + step, upper, step);
        let rest = stride(from + step, upper, step);
        assert forall|k: int| 0 <= k < stride(from, upper, step).len() implies from
            <= #[trigger] stride(from, upper, step)[k] < upper by {
            if k > 0 {
                assert(stride(from, upper, step)[k] == rest[k - 1]);
            }
        }
    }
}

/// The first index of a slice: a negative start counts from the end, and the
/// result is held within the array.
pub fn lower_bound(start: i32, len: usize) -> (r: usize)
    ensures
        r == slice_lower(start as int, len as nat),
        r <= len,
{
    if start >= 0 {
        let s = start as usize;
        if s > len {
            len
        } else {
            s
        }
    } else {
        let back = (-(start as i64)) as u64;
        if back > len as u64 {
            0
        } else {
            len - back as usize
        }
    }
}

/// The index before which a slice stops: an end of 0 is the end of the array.
pub fn upper_bound(end: i32, len: usize) -> (r: usize)
    ensures
        r == slice_upper(end as int, len as nat),
        r <= len,
{
    if end == 0 {
        len
    } else {
        lower_bound(end, len)
    }
}

/// The indices that the slice `start:end:step` selects from an array of `len`
/// elements, in order. Each lies within the array.
pub fn slice_positions(start: i32, end: i32, step: usize, len: usize) -> (r: Vec<usize>)
    ensures
        indices_of(r@) == slice_indices(start as int, end as int, step as nat, len as nat),
        forall|k: int| 0 <= k < r@.len() ==> #[trigger] r@[k] < len,
{
    let lower = lower_bound(start, len);
    let upper = upper_bound(end, len);
    let mut out: Vec<usize> = Vec::new();
    if step == 0 {
        assert(indices_of(out@) =~= stride(lower as nat, upper as nat, 0));
        return out;
    }
    let mut index = lower;
    while index < upper
        invariant
            step > 0,
            upper <= len,
            lower == slice_lower(start as int, len as nat),
            upper == slice_upper(end as int, len as nat),
            indices_of(out@) + stride(index as nat, upper as nat, step as nat) == stride(
                lower as nat,
                upper as nat,
                step as nat,
            ),
            forall|k: int| 0 <= k < out@.len() ==> #[trigger] out@[k] < len,
        decreases upper - index,
    {
        let ghost before = indices_of(out@);
        let ghost rest = stride((index + step) as nat, upper as nat, step as nat);
        out.push(index);
        proof {
            assert(indices_of(out@) =~= before.push(index as nat));
            assert(stride(index as nat, upper as nat, step as nat) == seq![index as nat] + rest);
            assert(before + (seq![index as nat] + rest) =~= before.push(index as nat) + rest);
        }
        if step >= upper - index {
            assert(rest == Seq::<nat>::empty());
            assert(indices_of(out@) + rest =~= indices_of(out@));
            return out;
        }
        index = index + step;
    }
    assert(indices_of(out@) + Seq::<nat>::empty() =~= indices_of(out@));
    out
}

} // verus!
