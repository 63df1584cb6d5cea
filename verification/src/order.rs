//! Ordering of build primitives along one axis.
use vstd::prelude::*;
use std::cmp::Ordering;
use crate::builder::{range_items, range_of};
use crate::bvh::BvhPrimitive;
use crate::stable::stable_sort_of;

verus! {

/// How two primitives compare by centroid along `axis`: by numeric order,
/// and `Equal` where the two are equal or either is a NaN.
pub open spec fn center_order_spec(a: BvhPrimitive, b: BvhPrimitive, axis: u8) -> Ordering {
    let va = a.center.axis_spec(axis);
    let vb = b.center.axis_spec(axis);
    if va.lt_spec(vb) {
        Ordering::Less
    } else if vb.lt_spec(va) {
        Ordering::Greater
    } else {
        Ordering::Equal
    }
}

/// Compares two primitives by centroid along `axis`, as the sort of a
/// range asks for it.
pub fn center_order(a: &BvhPrimitive, b: &BvhPrimitive, axis: u8) -> (o: Ordering)
    ensures
        o == center_order_spec(*a, *b, axis),
{
    let va = a.center.axis(axis);
    let vb = b.center.axis(axis);
    if va.lt(&vb) {
        Ordering::Less
    } else if vb.lt(&va) {
        Ordering::Greater
    } else {
        Ordering::Equal
    }
}

/// Sorts `primitives[start..start + count]` by centroid along `axis` with
/// `slice::sort_by` of the standard library.
///
/// Trusted: the contract restates what the standard library documents of
/// `sort_by`. The slice is reordered in place, so the elements outside the
/// range stay where they are and the range keeps its elements, each as often
/// as before. The sort is stable: afterwards the range is in ascending order
/// of centroid, and the primitives of equal centroid stand in the order they
/// had. The centroids must be numbers along `axis`, which makes
/// `center_order` the total order that `sort_by` asks for.
#[verifier::external_body]
pub(crate) fn sort_by_center(
    primitives: &mut Vec<BvhPrimitive>,
    start: usize,
    count: usize,
    axis: u8,
)
    requires
        start + count <= old(primitives).len(),
        forall|k: int|
            start <= k < start + count ==> !(#[trigger] old(primitives)@[k]).center.axis_spec(
                axis,
            ).is_nan(),
    ensures
        final(primitives)@.len() == old(primitives)@.len(),
        forall|k: int|
            0 <= k < start || start + count <= k < old(primitives)@.len()
                ==> final(primitives)@[k] == old(primitives)@[k],
        range_items(final(primitives)@, start, count) == range_items(
            old(primitives)@,
            start,
            count,
        ),
        stable_sort_of(
            range_of(final(primitives)@, start, count),
            range_of(old(primitives)@, start, count),
            axis,
        ),
{
    primitives[start..start + count].sort_by(|a, b| center_order(a, b, axis));
}

} // verus!
