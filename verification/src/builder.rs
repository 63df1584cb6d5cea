//! The builder of the hierarchy: median splits along the axis of greatest
//! extent of each box, and the function of the scene that it computes.
use vstd::prelude::*;
use vstd::multiset::Multiset;
use vstd::arithmetic::power2::{lemma2_to64, lemma_pow2_unfold, pow2};
use crate::aabb::{empty_box, Aabb};
use crate::bvh::{
    any_node, boxes_fit, halves_ordered, lemma_subtree_transfer, listed, pair_ordered, subtree_ok,
    Bvh, BvhNode, BvhPrimitive, MAX_HEIGHT,
};
use crate::order::sort_by_center;
use crate::stable::{
    ascending, key, lemma_stable_sort_ascending, lemma_stable_sort_is_chosen, stable_sort_of,
};
use crate::vec3::Vec3;

verus! {

/// The primitives at the `count` places from `start` on.
pub open spec fn range_of(s: Seq<BvhPrimitive>, start: usize, count: usize) -> Seq<BvhPrimitive> {
    s.subrange(start as int, start + count)
}

/// The primitives at the `count` places from `start` on, each as often as it
/// stands there.
pub open spec fn range_items(s: Seq<BvhPrimitive>, start: usize, count: usize) -> Multiset<
    BvhPrimitive,
> {
    range_of(s, start, count).to_multiset()
}

/// The node that a slot of the node array holds until it is built.
pub open spec fn blank_node() -> BvhNode {
    BvhNode { aabb: empty_box(), left_first: 0, count: 0 }
}

/// `extent` is the extent that `extent_of` gives, for every box.
pub open spec fn follows<F: Fn(Aabb) -> Vec3>(extent_of: F, extent: spec_fn(Aabb) -> Vec3) -> bool {
    forall|b: Aabb, e: Vec3| #[trigger] extent_of.ensures((b,), e) ==> e == extent(b)
}

/// The axis of greatest extent: `x` (0) where the extent along `x` is above
/// both others, else `y` (1) where the extent along `y` is above that along
/// `z`, else `z` (2). An extent that is not a number is above nothing.
pub open spec fn widest_axis_spec(extent: Vec3) -> u8 {
    if extent.y.lt_spec(extent.x) && extent.z.lt_spec(extent.x) {
        0u8
    } else if extent.z.lt_spec(extent.y) {
        1u8
    } else {
        2u8
    }
}

/// The axis along which a range of primitives is sorted and halved, from
/// the extent of its box.
pub fn widest_axis(extent: Vec3) -> (axis: u8)
    ensures
        axis == widest_axis_spec(extent),
{
    if extent.y.lt(&extent.x) && extent.z.lt(&extent.x) {
        0
    } else if extent.z.lt(&extent.y) {
        1
    } else {
        2
    }
}

/// The union of the boxes of the primitives at the `count` places from
/// `start` on, joined one after the other to the empty box.
pub open spec fn range_box(prims: Seq<BvhPrimitive>, start: int, count: int) -> Aabb
    decreases count,
{
    if count <= 0 {
        empty_box()
    } else {
        range_box(prims, start, count - 1).union_spec(prims[start + count - 1].aabb)
    }
}

/// The stable sort of `s` by centroid along `axis`.
pub open spec fn sorted_by_center(s: Seq<BvhPrimitive>, axis: u8) -> Seq<BvhPrimitive> {
    choose|r: Seq<BvhPrimitive>| stable_sort_of(r, s, axis)
}

/// `prims` with the `count` places from `start` on sorted by centroid along
/// `axis`.
pub open spec fn with_sorted_range(prims: Seq<BvhPrimitive>, start: int, count: int, axis: u8) -> Seq<
    BvhPrimitive,
> {
    let sorted = sorted_by_center(prims.subrange(start, start + count), axis);
    Seq::new(
        prims.len(),
        |k: int|
            if start <= k < start + count {
                sorted[k - start]
            } else {
                prims[k]
            },
    )
}

/// `indices` with the `count` entries from `start` on naming the primitives
/// that stand at those places.
pub open spec fn with_leaf_indices(indices: Seq<usize>, prims: Seq<BvhPrimitive>, start: int, count: int) -> Seq<
    usize,
> {
    Seq::new(
        indices.len(),
        |k: int|
            if start <= k < start + count {
                prims[k].index
            } else {
                indices[k]
            },
    )
}

/// The node array, the index array and the order of the primitives once the
/// subtree of `node` is built over the `count` places from `start` on.
///
/// The node takes the union of the boxes in its range. A range of at most
/// two becomes a leaf, and its primitives' indices are written to the index
/// array. A longer range is sorted along the axis of greatest extent of its
/// box, two nodes are appended for its halves, and first the left and then
/// the right half is built.
#[verifier::opaque]
pub open spec fn split_spec(
    state: (Seq<BvhNode>, Seq<usize>, Seq<BvhPrimitive>),
    node: int,
    start: int,
    count: int,
    extent: spec_fn(Aabb) -> Vec3,
) -> (Seq<BvhNode>, Seq<usize>, Seq<BvhPrimitive>)
    decreases count,
{
    let (nodes, indices, prims) = state;
    let aabb = range_box(prims, start, count);
    if count <= 2 {
        (
            nodes.update(node, BvhNode { aabb, left_first: start as u32, count: count as u32 }),
            with_leaf_indices(indices, prims, start, count),
            prims,
        )
    } else {
        let left = nodes.len() as int;
        let opened = nodes.update(node, BvhNode { aabb, left_first: left as u32, count: 0 }).push(
            blank_node(),
        ).push(blank_node());
        let ordered = with_sorted_range(prims, start, count, widest_axis_spec(extent(aabb)));
        let halfway = split_spec((opened, indices, ordered), left, start, count / 2, extent);
        split_spec(halfway, left + 1, start + count / 2, count - count / 2, extent)
    }
}

/// The hierarchy over a scene with these boxes and box centres, as a node
/// array and an index array.
pub open spec fn build_spec(bounds: Seq<Aabb>, centers: Seq<Vec3>, extent: spec_fn(Aabb) -> Vec3) -> (
    Seq<BvhNode>,
    Seq<usize>,
) {
    let prims = Seq::new(
        bounds.len(),
        |k: int| BvhPrimitive { index: k as usize, aabb: bounds[k], center: centers[k] },
    );
    let built = split_spec(
        (seq![blank_node()], Seq::new(bounds.len(), |k: int| 0usize), prims),
        0,
        0,
        bounds.len() as int,
        extent,
    );
    (built.0, built.1)
}

/// `x` stands at one of the `count` places of `s` from `start` on.
spec fn occurs_in(s: Seq<BvhPrimitive>, start: int, count: int, x: BvhPrimitive) -> bool {
    exists|k: int| start <= k < start + count && k < s.len() && s[k] == x
}

/// The `count` places from `start` on hold the same primitives in `a` as in
/// `b`, in whatever order.
spec fn rearranged(a: Seq<BvhPrimitive>, b: Seq<BvhPrimitive>, start: int, count: int) -> bool {
    &&& a.len() == b.len()
    &&& 0 <= start
    &&& 0 <= count
    &&& start + count <= a.len()
    &&& forall|k: int| start <= k < start + count ==> occurs_in(b, start, count, #[trigger] a[k])
    &&& forall|k: int| start <= k < start + count ==> occurs_in(a, start, count, #[trigger] b[k])
}

/// Every primitive names an object of the scene and carries that object's
/// box.
spec fn drawn_from(prims: Seq<BvhPrimitive>, bounds: Seq<Aabb>, centers: Seq<Vec3>) -> bool {
    forall|k: int|
        0 <= k < prims.len() ==> {
            &&& 0 <= (#[trigger] prims[k]).index < bounds.len()
            &&& prims[k].index < centers.len()
            &&& prims[k].aabb == bounds[prims[k].index as int]
            &&& prims[k].center == centers[prims[k].index as int]
        }
}

proof fn lemma_split_leaf(
    state: (Seq<BvhNode>, Seq<usize>, Seq<BvhPrimitive>),
    node: int,
    start: int,
    count: int,
    extent: spec_fn(Aabb) -> Vec3,
)
    requires
        count <= 2,
    ensures
        split_spec(state, node, start, count, extent) == (
            state.0.update(
                node,
                BvhNode {
                    aabb: range_box(state.2, start, count),
                    left_first: start as u32,
                    count: count as u32,
                },
            ),
            with_leaf_indices(state.1, state.2, start, count),
            state.2,
        ),
{
    reveal(split_spec);
}

proof fn lemma_split_inner(
    state: (Seq<BvhNode>, Seq<usize>, Seq<BvhPrimitive>),
    node: int,
    start: int,
    count: int,
    extent: spec_fn(Aabb) -> Vec3,
)
    requires
        count > 2,
    ensures
        split_spec(state, node, start, count, extent) == ({
            let aabb = range_box(state.2, start, count);
            let left = state.0.len() as int;
            let opened = state.0.update(node, BvhNode { aabb, left_first: left as u32, count: 0 }).push(
                blank_node(),
            ).push(blank_node());
            let ordered = with_sorted_range(state.2, start, count, widest_axis_spec(extent(aabb)));
            split_spec(
                split_spec((opened, state.1, ordered), left, start, count / 2, extent),
                left + 1,
                start + count / 2,
                count - count / 2,
                extent,
            )
        }),
{
    reveal(split_spec);
}

/// A vector whose range was sorted in place is the vector with that range
/// sorted.
proof fn lemma_sorted_range(a: Seq<BvhPrimitive>, b: Seq<BvhPrimitive>, start: usize, count: usize, axis: u8)
    requires
        a.len() == b.len(),
        start + count <= a.len(),
        forall|k: int| 0 <= k < start || start + count <= k < a.len() ==> b[k] == a[k],
        stable_sort_of(range_of(b, start, count), range_of(a, start, count), axis),
    ensures
        b == with_sorted_range(a, start as int, count as int, axis),
{
    lemma_stable_sort_is_chosen(range_of(b, start, count), range_of(a, start, count), axis);
    assert forall|k: int| 0 <= k < b.len() implies b[k] == with_sorted_range(
        a,
        start as int,
        count as int,
        axis,
    )[k] by {
        if start <= k < start + count {
            assert(range_of(b, start, count)[k - start] == b[k]);
        }
    }
    assert(b =~= with_sorted_range(a, start as int, count as int, axis));
}

proof fn lemma_rearranged_by_items(a: Seq<BvhPrimitive>, b: Seq<BvhPrimitive>, start: usize, count: usize)
    requires
        a.len() == b.len(),
        start + count <= a.len(),
        range_items(a, start, count) == range_items(b, start, count),
    ensures
        rearranged(a, b, start as int, count as int),
{
    let sa = a.subrange(start as int, start + count);
    let sb = b.subrange(start as int, start + count);
    assert forall|k: int| start <= k < start + count implies occurs_in(
        b,
        start as int,
        count as int,
        #[trigger] a[k],
    ) by {
        assert(sa[k - start] == a[k]);
        assert(sa.contains(a[k]));
        vstd::seq_lib::to_multiset_contains(sa, a[k]);
        vstd::seq_lib::to_multiset_contains(sb, a[k]);
        assert(sb.contains(a[k]));
        let j = choose|j: int| 0 <= j < sb.len() && sb[j] == a[k];
        assert(b[j + start] == a[k]);
    }
    assert forall|k: int| start <= k < start + count implies occurs_in(
        a,
        start as int,
        count as int,
        #[trigger] b[k],
    ) by {
        assert(sb[k - start] == b[k]);
        assert(sb.contains(b[k]));
        vstd::seq_lib::to_multiset_contains(sa, b[k]);
        vstd::seq_lib::to_multiset_contains(sb, b[k]);
        assert(sa.contains(b[k]));
        let j = choose|j: int| 0 <= j < sa.len() && sa[j] == b[k];
        assert(a[j + start] == b[k]);
    }
}

/// Rearranging a part of a range that was rearranged leaves the range
/// rearranged.
proof fn lemma_rearranged_within(
    a: Seq<BvhPrimitive>,
    b: Seq<BvhPrimitive>,
    c: Seq<BvhPrimitive>,
    start: int,
    count: int,
    start2: int,
    count2: int,
)
    requires
        rearranged(b, a, start, count),
        rearranged(c, b, start2, count2),
        start <= start2,
        start2 + count2 <= start + count,
        forall|k: int| 0 <= k < start2 || start2 + count2 <= k < b.len() ==> c[k] == b[k],
    ensures
        rearranged(c, a, start, count),
{
    assert forall|k: int| start <= k < start + count implies occurs_in(a, start, count, #[trigger] c[k]) by {
        if start2 <= k < start2 + count2 {
            assert(occurs_in(b, start2, count2, c[k]));
            let j = choose|j: int| start2 <= j < start2 + count2 && j < b.len() && b[j] == c[k];
            assert(occurs_in(a, start, count, b[j]));
        } else {
            assert(occurs_in(a, start, count, b[k]));
        }
    }
    assert forall|k: int| start <= k < start + count implies occurs_in(c, start, count, #[trigger] a[k]) by {
        assert(occurs_in(b, start, count, a[k]));
        let j = choose|j: int| start <= j < start + count && j < b.len() && b[j] == a[k];
        if start2 <= j < start2 + count2 {
            assert(occurs_in(c, start2, count2, b[j]));
            let m = choose|m: int| start2 <= m < start2 + count2 && m < c.len() && c[m] == b[j];
            assert(c[m] == a[k]);
        } else {
            assert(c[j] == a[k]);
        }
    }
}

/// The `count` index entries from `start` on are halved along the axis of
/// greatest extent of the box `b`, as `extent_of` gives its extent.
pub open spec fn split_along<F: Fn(Aabb) -> Vec3>(
    extent_of: F,
    b: Aabb,
    centers: Seq<Vec3>,
    indices: Seq<usize>,
    start: int,
    count: int,
) -> bool {
    exists|e: Vec3| #[trigger]
        extent_of.ensures((b,), e) && halves_ordered(centers, indices, start, count, widest_axis_spec(e))
}

/// The condition that a built tree meets in its splits, as `subtree_ok`
/// takes it: every range of more than two is halved along the axis of
/// greatest extent of its node's box.
pub open spec fn splits_ordered<F: Fn(Aabb) -> Vec3>(
    nodes: Seq<BvhNode>,
    centers: Seq<Vec3>,
    indices: Seq<usize>,
    extent_of: F,
) -> spec_fn(int, int, int) -> bool {
    |i: int, s: int, c: int|
        c > 2 ==> 0 <= i < nodes.len() && split_along(extent_of, nodes[i].aabb, centers, indices, s, c)
}

/// A scene that the builder takes: a box and a centre for each object, few
/// enough objects for the nodes' 32-bit fields, and, where there are more
/// than two, so that they are sorted, centres that are numbers.
pub open spec fn buildable(bounds: Seq<Aabb>, centers: Seq<Vec3>) -> bool {
    &&& bounds.len() == centers.len()
    &&& 2 * bounds.len() < u32::MAX
    &&& bounds.len() > 2 ==> forall|k: int|
        0 <= k < centers.len() ==> (#[trigger] centers[k]).numeric()
}

impl Bvh {
    /// The node array and the index array are those that the builder gives
    /// for a scene with these boxes and box centres, and these extents of
    /// boxes.
    pub open spec fn built_from(&self, bounds: Seq<Aabb>, centers: Seq<Vec3>, extent: spec_fn(Aabb) -> Vec3) -> bool {
        (self.nodes@, self.prim_indices@) == build_spec(bounds, centers, extent)
    }

    /// Every node over more than two objects has them halved along the axis
    /// of greatest extent of its box: along it, no centre under the left
    /// child lies above a centre under the right child.
    pub open spec fn median_split<F: Fn(Aabb) -> Vec3>(&self, centers: Seq<Vec3>, extent_of: F) -> bool {
        subtree_ok(
            self.nodes@,
            splits_ordered(self.nodes@, centers, self.prim_indices@, extent_of),
            0,
            0,
            self.nodes@.len() as int,
            0,
            self.prim_indices@.len() as int,
            MAX_HEIGHT as nat,
        )
    }

    /// Builds the hierarchy over a scene of `bounds.len()` objects, from the
    /// box and the box centre of each. `extent_of` gives the extent of a box,
    /// upper corner less lower corner; a range of more than two objects is
    /// sorted along the axis of greatest extent of its box before it is
    /// halved. Where anything is sorted the centres must be numbers, so that
    /// sorting has an order to go by, and the node indices must fit the
    /// nodes' 32-bit fields.
    ///
    /// The result is a tree that `intersect` can walk, whose boxes enclose
    /// what they cover; and it is `build_spec` of the scene, for every
    /// function that gives the extents that `extent_of` gives.
    pub fn build<F: Fn(Aabb) -> Vec3 + Copy>(bounds: &Vec<Aabb>, centers: &Vec<Vec3>, extent_of: F) -> (bvh:
        Bvh)
        requires
            buildable(bounds@, centers@),
            forall|b: Aabb| extent_of.requires((b,)),
        ensures
            bvh.prim_indices.len() == bounds.len(),
            bvh.wf(),
            bvh.encloses_scene(bounds@),
            bvh.median_split(centers@, extent_of),
            forall|extent: spec_fn(Aabb) -> Vec3| #[trigger]
                follows(extent_of, extent) ==> bvh.built_from(bounds@, centers@, extent),
    {
        let n: usize = bounds.len();
        let mut primitives: Vec<BvhPrimitive> = Vec::new();
        let mut prim_indices: Vec<usize> = Vec::new();
        let mut i: usize = 0;
        while i < n
            invariant
                i <= n,
                n == bounds.len(),
                n == centers.len(),
                primitives.len() == i,
                prim_indices.len() == i,
                forall|k: int| 0 <= k < i ==> #[trigger] prim_indices@[k] == 0,
                forall|k: int|
                    0 <= k < i ==> (#[trigger] primitives@[k]) == (BvhPrimitive {
                        index: k as usize,
                        aabb: bounds@[k],
                        center: centers@[k],
                    }),
            decreases n - i,
        {
            primitives.push(BvhPrimitive { index: i, aabb: bounds[i], center: centers[i] });
            prim_indices.push(0);
            i += 1;
        }
        let mut nodes: Vec<BvhNode> = Vec::new();
        nodes.push(BvhNode { aabb: Aabb::empty(), left_first: 0, count: 0 });
        let ghost prims0 = primitives@;
        proof {
            lemma2_to64();
            assert(nodes@ =~= seq![blank_node()]);
            assert(prim_indices@ =~= Seq::new(bounds@.len(), |k: int| 0usize));
            assert(prims0 =~= Seq::new(
                bounds@.len(),
                |k: int| BvhPrimitive { index: k as usize, aabb: bounds@[k], center: centers@[k] },
            ));
        }
        Self::split(
            &mut nodes,
            &mut prim_indices,
            &mut primitives,
            0,
            0,
            n,
            extent_of,
            Ghost(MAX_HEIGHT as nat),
            Ghost(bounds@),
            Ghost(centers@),
        );
        let bvh = Bvh { nodes, prim_indices };
        proof {
            let f = boxes_fit(bvh.nodes@, bounds@, bvh.prim_indices@);
            let g = splits_ordered(bvh.nodes@, centers@, bvh.prim_indices@, extent_of);
            let len = bvh.nodes@.len() as int;
            lemma_subtree_transfer(
                bvh.nodes@, g, bvh.nodes@, g, 0, 1, len, 0, len, 0, n as int, MAX_HEIGHT as nat,
                MAX_HEIGHT as nat,
            );
            lemma_subtree_transfer(
                bvh.nodes@, f, bvh.nodes@, f, 0, 1, len, 0, len, 0, n as int, MAX_HEIGHT as nat,
                MAX_HEIGHT as nat,
            );
            lemma_subtree_transfer(
                bvh.nodes@, f, bvh.nodes@, any_node(), 0, 1, len, 0, len, 0,
                n as int, MAX_HEIGHT as nat, MAX_HEIGHT as nat,
            );
            assert forall|j: int| 0 <= j < n implies #[trigger] listed(bvh.prim_indices@, j) by {
                assert(occurs_in(primitives@, 0, n as int, prims0[j]));
                let p = choose|p: int| 0 <= p < n && p < primitives@.len() && primitives@[p] == prims0[j];
                assert(bvh.prim_indices@[p] == j);
            }
        }
        bvh
    }

    /// Builds the hierarchy as `build` does, for a scene that the builder
    /// takes, and gives nothing for any other.
    pub fn try_build<F: Fn(Aabb) -> Vec3 + Copy>(bounds: &Vec<Aabb>, centers: &Vec<Vec3>, extent_of: F) -> (r:
        Option<Bvh>)
        requires
            forall|b: Aabb| extent_of.requires((b,)),
        ensures
            r is Some <==> buildable(bounds@, centers@),
            r matches Some(bvh) ==> {
                &&& bvh.prim_indices.len() == bounds.len()
                &&& bvh.wf()
                &&& bvh.encloses_scene(bounds@)
                &&& bvh.median_split(centers@, extent_of)
                &&& forall|extent: spec_fn(Aabb) -> Vec3| #[trigger]
                    follows(extent_of, extent) ==> bvh.built_from(bounds@, centers@, extent)
            },
    {
        if bounds.len() != centers.len() || bounds.len() >= 0x8000_0000usize {
            return None;
        }
        if bounds.len() > 2 {
            let mut k: usize = 0;
            while k < centers.len()
                invariant
                    k <= centers.len(),
                    bounds.len() == centers.len(),
                    bounds.len() > 2,
                    forall|j: int| 0 <= j < k ==> (#[trigger] centers@[j]).numeric(),
                decreases centers.len() - k,
            {
                if !centers[k].is_numeric() {
                    return None;
                }
                k += 1;
            }
        }
        Some(Self::build(bounds, centers, extent_of))
    }

    /// Builds the subtree of the node `node_idx` over the primitives at the
    /// `count` places from `start` on: bounds them, and either records them
    /// as a leaf or sorts them along the axis of greatest extent of their
    /// box, halves them and builds a child over each half.
    fn split<F: Fn(Aabb) -> Vec3 + Copy>(
        nodes: &mut Vec<BvhNode>,
        global_indices: &mut Vec<usize>,
        primitives: &mut Vec<BvhPrimitive>,
        node_idx: usize,
        start: usize,
        count: usize,
        extent_of: F,
        Ghost(h): Ghost<nat>,
        Ghost(bounds): Ghost<Seq<Aabb>>,
        Ghost(centers): Ghost<Seq<Vec3>>,
    )
        requires
            node_idx < old(nodes).len(),
            start + count <= old(primitives).len(),
            old(primitives).len() == old(global_indices).len(),
            old(primitives).len() <= u32::MAX,
            old(nodes).len() + 2 * count <= u32::MAX,
            count <= pow2(h + 1),
            forall|b: Aabb| extent_of.requires((b,)),
            drawn_from(old(primitives)@, bounds, centers),
            count > 2 ==> forall|k: int|
                start <= k < start + count ==> (#[trigger] old(primitives)@[k]).center.numeric(),
        ensures
            final(nodes).len() >= old(nodes).len(),
            count <= 2 ==> final(nodes).len() == old(nodes).len(),
            count > 2 ==> final(nodes).len() + 2 <= old(nodes).len() + 2 * count,
            forall|k: int|
                0 <= k < old(nodes).len() && k != node_idx ==> final(nodes)@[k] == old(nodes)@[k],
            rearranged(final(primitives)@, old(primitives)@, start as int, count as int),
            forall|k: int|
                0 <= k < start || start + count <= k < old(primitives).len() ==> final(primitives)@[k]
                    == old(primitives)@[k],
            drawn_from(final(primitives)@, bounds, centers),
            final(global_indices).len() == old(global_indices).len(),
            forall|k: int|
                0 <= k < start || start + count <= k < old(global_indices).len()
                    ==> final(global_indices)@[k] == old(global_indices)@[k],
            forall|k: int|
                start <= k < start + count ==> final(global_indices)@[k] == final(primitives)@[k].index,
            subtree_ok(
                final(nodes)@,
                boxes_fit(final(nodes)@, bounds, final(global_indices)@),
                node_idx as int,
                old(nodes).len() as int,
                final(nodes).len() as int,
                start as int,
                count as int,
                h,
            ),
            subtree_ok(
                final(nodes)@,
                splits_ordered(final(nodes)@, centers, final(global_indices)@, extent_of),
                node_idx as int,
                old(nodes).len() as int,
                final(nodes).len() as int,
                start as int,
                count as int,
                h,
            ),
            forall|extent: spec_fn(Aabb) -> Vec3| #[trigger]
                follows(extent_of, extent) ==> (final(nodes)@, final(global_indices)@, final(primitives)@)
                    == split_spec(
                    (old(nodes)@, old(global_indices)@, old(primitives)@),
                    node_idx as int,
                    start as int,
                    count as int,
                    extent,
                ),
        decreases count,
    {
        let ghost prims0 = primitives@;
        let ghost nodes0 = nodes@;
        let ghost gi0 = global_indices@;
        let mut aabb = Aabb::empty();
        let mut i: usize = 0;
        while i < count
            invariant
                i <= count,
                start + count <= primitives.len(),
                primitives@ == prims0,
                aabb.numeric(),
                aabb == range_box(prims0, start as int, i as int),
                forall|k: int| start <= k < start + i ==> aabb.encloses(#[trigger] primitives@[k].aabb),
            decreases count - i,
        {
            aabb = aabb.union(&primitives[start + i].aabb);
            i += 1;
        }
        if count <= 2 {
            nodes.set(node_idx, BvhNode { aabb, left_first: start as u32, count: count as u32 });
            let mut i: usize = 0;
            while i < count
                invariant
                    i <= count,
                    start + count <= primitives.len(),
                    primitives@ == prims0,
                    global_indices.len() == gi0.len(),
                    gi0.len() == prims0.len(),
                    forall|k: int|
                        0 <= k < start || start + i <= k < gi0.len() ==> global_indices@[k] == gi0[k],
                    forall|k: int| start <= k < start + i ==> global_indices@[k] == primitives@[k].index,
                decreases count - i,
            {
                global_indices.set(start + i, primitives[start + i].index);
                i += 1;
            }
            proof {
                assert forall|k: int| start <= k < start + count implies occurs_in(
                    prims0,
                    start as int,
                    count as int,
                    #[trigger] prims0[k],
                ) by {}
                assert(global_indices@ =~= with_leaf_indices(gi0, prims0, start as int, count as int));
                assert forall|extent: spec_fn(Aabb) -> Vec3| #[trigger]
                    follows(extent_of, extent) implies (nodes@, global_indices@, primitives@) == split_spec(
                    (nodes0, gi0, prims0),
                    node_idx as int,
                    start as int,
                    count as int,
                    extent,
                ) by {
                    lemma_split_leaf((nodes0, gi0, prims0), node_idx as int, start as int, count as int, extent);
                }
            }
            return ;
        }
        proof {
            lemma2_to64();
            if h > 0 {
                lemma_pow2_unfold(h + 1);
            }
        }
        let size: Vec3 = extent_of(aabb);
        let picked: u8 = widest_axis(size);
        sort_by_center(primitives, start, count, picked);
        let ghost prims1 = primitives@;
        proof {
            lemma_sorted_range(prims0, prims1, start, count, picked);
            lemma_rearranged_by_items(prims1, prims0, start, count);
            lemma_drawn_kept(prims1, prims0, bounds, centers, start as int, count as int);
            lemma_stable_sort_ascending(range_of(prims1, start, count), range_of(prims0, start, count), picked);
            assert forall|k: int| start <= k < start + count implies (#[trigger] prims1[k]).center.numeric() by {
                assert(occurs_in(prims0, start as int, count as int, prims1[k]));
            }
        }
        let mid: usize = count / 2;
        let left_child_idx: usize = nodes.len();
        let right_child_idx: usize = left_child_idx + 1;
        nodes.set(node_idx, BvhNode { aabb, left_first: left_child_idx as u32, count: 0 });
        nodes.push(BvhNode { aabb: Aabb::empty(), left_first: 0, count: 0 });
        nodes.push(BvhNode { aabb: Aabb::empty(), left_first: 0, count: 0 });
        let ghost nodes1 = nodes@;
        Self::split(
            nodes,
            global_indices,
            primitives,
            left_child_idx,
            start,
            mid,
            extent_of,
            Ghost((h - 1) as nat),
            Ghost(bounds),
            Ghost(centers),
        );
        let ghost nodes2 = nodes@;
        let ghost prims2 = primitives@;
        let ghost gi2 = global_indices@;
        proof {
            lemma_rearranged_within(prims0, prims1, prims2, start as int, count as int, start as int, mid as int);
        }
        Self::split(
            nodes,
            global_indices,
            primitives,
            right_child_idx,
            start + mid,
            count - mid,
            extent_of,
            Ghost((h - 1) as nat),
            Ghost(bounds),
            Ghost(centers),
        );
        proof {
            let nodes3 = nodes@;
            let prims3 = primitives@;
            let gi3 = global_indices@;
            let f2 = boxes_fit(nodes2, bounds, gi2);
            let f3 = boxes_fit(nodes3, bounds, gi3);
            assert(nodes1 =~= nodes0.update(
                node_idx as int,
                BvhNode { aabb, left_first: left_child_idx as u32, count: 0 },
            ).push(blank_node()).push(blank_node()));
            assert forall|extent: spec_fn(Aabb) -> Vec3| #[trigger]
                follows(extent_of, extent) implies (nodes3, gi3, prims3) == split_spec(
                (nodes0, gi0, prims0),
                node_idx as int,
                start as int,
                count as int,
                extent,
            ) by {
                lemma_split_inner((nodes0, gi0, prims0), node_idx as int, start as int, count as int, extent);
                assert(picked == widest_axis_spec(extent(aabb)));
                assert((nodes2, gi2, prims2) == split_spec(
                    (nodes1, gi0, prims1),
                    left_child_idx as int,
                    start as int,
                    mid as int,
                    extent,
                ));
            }
            lemma_rearranged_within(
                prims0,
                prims2,
                prims3,
                start as int,
                count as int,
                start + mid,
                count - mid,
            );
            assert(nodes3[node_idx as int] == nodes1[node_idx as int]);
            assert forall|k: int| start <= k < start + count implies 0 <= k < gi3.len() && 0 <= (
            #[trigger] gi3[k]) < bounds.len() && aabb.encloses(bounds[gi3[k] as int]) by {
                assert(gi3[k] == prims3[k].index);
                assert(occurs_in(prims0, start as int, count as int, prims3[k]));
                let j = choose|j: int| start <= j < start + count && j < prims0.len() && prims0[j] == prims3[k];
                assert(aabb.encloses(prims0[j].aabb));
            }
            assert(f3(node_idx as int, start as int, count as int));
            let g2 = splits_ordered(nodes2, centers, gi2, extent_of);
            let g3 = splits_ordered(nodes3, centers, gi3, extent_of);
            lemma_halves_ordered(prims1, prims2, prims3, bounds, centers, gi3, start, count, picked);
            assert(split_along(extent_of, nodes3[node_idx as int].aabb, centers, gi3, start as int, count as int));
            assert(g3(node_idx as int, start as int, count as int));
            assert forall|k: int, s: int, c: int|
                (k == left_child_idx || left_child_idx + 2 <= k < nodes2.len()) && start <= s && s + c
                    <= start + mid && 0 <= c && g2(k, s, c) implies #[trigger] g3(k, s, c) by {
                lemma_order_kept(
                    nodes2, nodes3, centers, gi2, gi3, extent_of, k, s, c, start as int, start + mid,
                );
            }
            lemma_subtree_transfer(
                nodes2,
                g2,
                nodes3,
                g3,
                left_child_idx as int,
                left_child_idx + 2,
                nodes2.len() as int,
                nodes0.len() as int,
                nodes3.len() as int,
                start as int,
                mid as int,
                (h - 1) as nat,
                (h - 1) as nat,
            );
            lemma_subtree_transfer(
                nodes3,
                g3,
                nodes3,
                g3,
                right_child_idx as int,
                nodes2.len() as int,
                nodes3.len() as int,
                nodes0.len() as int,
                nodes3.len() as int,
                start + mid,
                count - mid,
                (h - 1) as nat,
                (h - 1) as nat,
            );
            lemma_subtree_transfer(
                nodes2,
                f2,
                nodes3,
                f3,
                left_child_idx as int,
                left_child_idx + 2,
                nodes2.len() as int,
                nodes0.len() as int,
                nodes3.len() as int,
                start as int,
                mid as int,
                (h - 1) as nat,
                (h - 1) as nat,
            );
            lemma_subtree_transfer(
                nodes3,
                f3,
                nodes3,
                f3,
                right_child_idx as int,
                nodes2.len() as int,
                nodes3.len() as int,
                nodes0.len() as int,
                nodes3.len() as int,
                start + mid,
                count - mid,
                (h - 1) as nat,
                (h - 1) as nat,
            );
        }
    }
}

/// Primitives that were only rearranged within a range still name the
/// objects whose boxes they carry.
proof fn lemma_drawn_kept(
    a: Seq<BvhPrimitive>,
    b: Seq<BvhPrimitive>,
    bounds: Seq<Aabb>,
    centers: Seq<Vec3>,
    start: int,
    count: int,
)
    requires
        rearranged(a, b, start, count),
        drawn_from(b, bounds, centers),
        forall|k: int| 0 <= k < start || start + count <= k < b.len() ==> a[k] == b[k],
    ensures
        drawn_from(a, bounds, centers),
{
    assert forall|k: int| 0 <= k < a.len() implies 0 <= (#[trigger] a[k]).index < bounds.len() && a[k].index
        < centers.len() && a[k].aabb == bounds[a[k].index as int] && a[k].center == centers[a[k].index as int] by {
        if start <= k < start + count {
            assert(occurs_in(b, start, count, a[k]));
        }
    }
}

/// Once a sorted range is halved and each half rearranged within itself,
/// no centre of the first half lies above one of the second.
proof fn lemma_halves_ordered(
    sorted: Seq<BvhPrimitive>,
    halfway: Seq<BvhPrimitive>,
    done: Seq<BvhPrimitive>,
    bounds: Seq<Aabb>,
    centers: Seq<Vec3>,
    indices: Seq<usize>,
    start: usize,
    count: usize,
    axis: u8,
)
    requires
        count > 2,
        start + count <= sorted.len(),
        indices.len() == done.len(),
        ascending(range_of(sorted, start, count), axis),
        forall|k: int| start <= k < start + count ==> (#[trigger] sorted[k]).center.numeric(),
        rearranged(halfway, sorted, start as int, count as int / 2),
        forall|k: int| 0 <= k < start || start + count / 2 <= k < sorted.len() ==> halfway[k] == sorted[k],
        rearranged(done, halfway, start + count / 2, count - count / 2),
        forall|k: int| 0 <= k < start + count / 2 || start + count <= k < halfway.len() ==> done[k] == halfway[k],
        forall|k: int| start <= k < start + count ==> indices[k] == done[k].index,
        drawn_from(done, bounds, centers),
    ensures
        halves_ordered(centers, indices, start as int, count as int, axis),
{
    let mid = count as int / 2;
    let sub = range_of(sorted, start, count);
    assert forall|a: int, b: int|
        start <= a < start + mid && start + mid <= b < start + count implies #[trigger] pair_ordered(
        centers,
        indices,
        a,
        b,
        axis,
    ) by {
        assert(done[a] == halfway[a]);
        assert(occurs_in(sorted, start as int, mid, halfway[a]));
        let a1 = choose|k: int| start <= k < start + mid && k < sorted.len() && sorted[k] == halfway[a];
        assert(occurs_in(halfway, start + mid, count - mid, done[b]));
        let b1 = choose|k: int| start + mid <= k < start + mid + (count - mid) && k < halfway.len() && halfway[k] == done[b];
        assert(halfway[b1] == sorted[b1]);
        assert(sub[a1 - start] == sorted[a1]);
        assert(sub[b1 - start] == sorted[b1]);
        assert(key(sub[a1 - start], axis) <= key(sub[b1 - start], axis));
        assert(sorted[a1].center.numeric());
        assert(sorted[b1].center.numeric());
        assert(done[a].center == centers[done[a].index as int]);
        assert(done[b].center == centers[done[b].index as int]);
    }
}

/// A split that is ordered stays ordered when its node and the index
/// entries of its range are kept.
proof fn lemma_order_kept<F: Fn(Aabb) -> Vec3>(
    n2: Seq<BvhNode>,
    n3: Seq<BvhNode>,
    centers: Seq<Vec3>,
    g2: Seq<usize>,
    g3: Seq<usize>,
    extent_of: F,
    k: int,
    s: int,
    c: int,
    lo: int,
    hi: int,
)
    requires
        splits_ordered(n2, centers, g2, extent_of)(k, s, c),
        0 <= k < n2.len(),
        k < n3.len(),
        n3[k] == n2[k],
        0 <= lo <= s,
        s + c <= hi <= g2.len(),
        0 <= c,
        g2.len() == g3.len(),
        forall|j: int| lo <= j < hi ==> g3[j] == g2[j],
    ensures
        splits_ordered(n3, centers, g3, extent_of)(k, s, c),
{
    if c > 2 {
        let e = choose|e: Vec3| #[trigger]
            extent_of.ensures((n2[k].aabb,), e) && halves_ordered(centers, g2, s, c, widest_axis_spec(e));
        let axis = widest_axis_spec(e);
        assert forall|a: int, b: int|
            s <= a < s + c / 2 && s + c / 2 <= b < s + c implies #[trigger] pair_ordered(
            centers,
            g3,
            a,
            b,
            axis,
        ) by {
            assert(pair_ordered(centers, g2, a, b, axis));
            assert(g3[a] == g2[a]);
            assert(g3[b] == g2[b]);
        }
        assert(halves_ordered(centers, g3, s, c, axis));
        assert(split_along(extent_of, n3[k].aabb, centers, g3, s, c));
    }
}

/// Building is a function of the scene: two hierarchies built over the same
/// boxes and centres, with the same extents of boxes, have the same node array
/// and the same index array.
pub proof fn lemma_build_deterministic(
    a: Bvh,
    b: Bvh,
    bounds: Seq<Aabb>,
    centers: Seq<Vec3>,
    extent: spec_fn(Aabb) -> Vec3,
)
    requires
        a.built_from(bounds, centers, extent),
        b.built_from(bounds, centers, extent),
    ensures
        a.nodes@ == b.nodes@,
        a.prim_indices@ == b.prim_indices@,
{
}

} // verus!
