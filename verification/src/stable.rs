//! What a stable sort by centroid leaves behind, and why that is one
//! sequence only.
use vstd::prelude::*;
use crate::bvh::BvhPrimitive;

verus! {

/// The place of a primitive's centroid along `axis` on the number line.
pub open spec fn key(p: BvhPrimitive, axis: u8) -> int {
    p.center.axis_spec(axis).rank()
}

/// No primitive stands before one with a smaller key.
pub open spec fn ascending(s: Seq<BvhPrimitive>, axis: u8) -> bool {
    forall|a: int, b: int| 0 <= a <= b < s.len() ==> key(s[a], axis) <= key(s[b], axis)
}

/// The primitives of `s` with the key `k`, in the order in which they stand
/// in `s`.
pub open spec fn with_key(s: Seq<BvhPrimitive>, axis: u8, k: int) -> Seq<BvhPrimitive> {
    s.filter(|p: BvhPrimitive| key(p, axis) == k)
}

/// `r` is `s` sorted by key, with the primitives of equal key in the order
/// that they had in `s`.
#[verifier::opaque]
pub open spec fn stable_sort_of(r: Seq<BvhPrimitive>, s: Seq<BvhPrimitive>, axis: u8) -> bool {
    &&& ascending(r, axis)
    &&& forall|k: int| #[trigger] with_key(r, axis, k) == with_key(s, axis, k)
}

proof fn lemma_with_key_last(s: Seq<BvhPrimitive>, axis: u8, k: int)
    ensures
        s.len() == 0 ==> with_key(s, axis, k).len() == 0,
        s.len() > 0 && key(s.last(), axis) == k ==> with_key(s, axis, k) == with_key(
            s.drop_last(),
            axis,
            k,
        ).push(s.last()),
        s.len() > 0 && key(s.last(), axis) != k ==> with_key(s, axis, k) == with_key(
            s.drop_last(),
            axis,
            k,
        ),
{
    reveal(Seq::filter);
}

/// The last primitive of a sorted sequence has a key no smaller than that of
/// any primitive with which the sequence shares a key class.
proof fn lemma_last_is_largest(r: Seq<BvhPrimitive>, s: Seq<BvhPrimitive>, axis: u8)
    requires
        ascending(r, axis),
        s.len() > 0,
        with_key(r, axis, key(s.last(), axis)) == with_key(s, axis, key(s.last(), axis)),
    ensures
        r.len() > 0,
        key(s.last(), axis) <= key(r.last(), axis),
{
    let k = key(s.last(), axis);
    let pred = |p: BvhPrimitive| key(p, axis) == k;
    lemma_with_key_last(s, axis, k);
    lemma_with_key_last(r, axis, k);
    let e = s.last();
    let fs = with_key(s, axis, k);
    assert(fs.last() == e);
    assert(with_key(r, axis, k)[fs.len() - 1] == e);
    assert(r.filter(pred).contains(e));
    r.lemma_filter_contains_rev(pred, e);
    let i = choose|i: int| 0 <= i < r.len() && r[i] == e;
    assert(key(r[i], axis) <= key(r[r.len() - 1], axis));
}

/// A sequence has one stable sort: two sorted sequences that agree in every
/// key class are the same sequence.
pub proof fn lemma_stable_unique(r1: Seq<BvhPrimitive>, r2: Seq<BvhPrimitive>, axis: u8)
    requires
        ascending(r1, axis),
        ascending(r2, axis),
        forall|k: int| #[trigger] with_key(r1, axis, k) == with_key(r2, axis, k),
    ensures
        r1 == r2,
    decreases r1.len(),
{
    if r1.len() == 0 {
        if r2.len() > 0 {
            lemma_last_is_largest(r1, r2, axis);
        }
        assert(r1 =~= r2);
    } else {
        lemma_last_is_largest(r2, r1, axis);
        lemma_last_is_largest(r1, r2, axis);
        let k1 = key(r1.last(), axis);
        let d1 = r1.drop_last();
        let d2 = r2.drop_last();
        lemma_with_key_last(r1, axis, k1);
        lemma_with_key_last(r2, axis, k1);
        let f1 = with_key(d1, axis, k1);
        let f2 = with_key(d2, axis, k1);
        assert(f1.push(r1.last()) == f2.push(r2.last()));
        assert(f1.push(r1.last()).last() == r1.last());
        assert(f2.push(r2.last()).last() == r2.last());
        assert(r1.last() == r2.last());
        assert(f1 =~= f1.push(r1.last()).drop_last());
        assert(f2 =~= f2.push(r2.last()).drop_last());
        assert forall|k: int| #[trigger] with_key(d1, axis, k) == with_key(d2, axis, k) by {
            lemma_with_key_last(r1, axis, k);
            lemma_with_key_last(r2, axis, k);
        }
        assert(ascending(d1, axis)) by {
            assert forall|a: int, b: int| 0 <= a <= b < d1.len() implies key(d1[a], axis) <= key(d1[b], axis) by {
                assert(key(r1[a], axis) <= key(r1[b], axis));
            }
        }
        assert(ascending(d2, axis)) by {
            assert forall|a: int, b: int| 0 <= a <= b < d2.len() implies key(d2[a], axis) <= key(d2[b], axis) by {
                assert(key(r2[a], axis) <= key(r2[b], axis));
            }
        }
        lemma_stable_unique(d1, d2, axis);
        assert(r1 =~= d1.push(r1.last()));
        assert(r2 =~= d2.push(r2.last()));
    }
}

/// A stable sort is in ascending order.
pub proof fn lemma_stable_sort_ascending(r: Seq<BvhPrimitive>, s: Seq<BvhPrimitive>, axis: u8)
    requires
        stable_sort_of(r, s, axis),
    ensures
        ascending(r, axis),
{
    reveal(stable_sort_of);
}

/// Whatever is a stable sort of `s` is the stable sort of `s`.
pub proof fn lemma_stable_sort_is_chosen(r: Seq<BvhPrimitive>, s: Seq<BvhPrimitive>, axis: u8)
    requires
        stable_sort_of(r, s, axis),
    ensures
        r == (choose|c: Seq<BvhPrimitive>| stable_sort_of(c, s, axis)),
{
    let c = choose|c: Seq<BvhPrimitive>| stable_sort_of(c, s, axis);
    reveal(stable_sort_of);
    assert forall|k: int| #[trigger] with_key(r, axis, k) == with_key(c, axis, k) by {
        assert(with_key(r, axis, k) == with_key(s, axis, k));
        assert(with_key(c, axis, k) == with_key(s, axis, k));
    }
    lemma_stable_unique(r, c, axis);
}

} // verus!
