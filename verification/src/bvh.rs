//! The bounding-volume hierarchy: a binary tree of boxes over the scene's
//! primitives, stored as a flat array of nodes.
use vstd::prelude::*;
use crate::aabb::Aabb;
use crate::vec3::Vec3;

verus! {

/// One node of the tree. With `count > 0` it is a leaf that owns the
/// `count` entries of the index array from `left_first` on; with
/// `count == 0` its two children are the nodes `left_first` and
/// `left_first + 1`.
#[derive(Clone, Copy, Debug)]
pub struct BvhNode {
    pub aabb: Aabb,
    pub left_first: u32,
    pub count: u32,
}

/// The tree as two arrays: the nodes, root first, and the scene indices of
/// the primitives in the order in which the leaves own them.
pub struct Bvh {
    pub nodes: Vec<BvhNode>,
    pub prim_indices: Vec<usize>,
}

/// A primitive as the builder sees it: its index in the scene, its box and
/// the centre of that box.
#[derive(Clone, Copy, Debug)]
pub struct BvhPrimitive {
    pub index: usize,
    pub aabb: Aabb,
    pub center: Vec3,
}

/// The deepest tree that a traversal can walk with its fixed stack.
pub const MAX_HEIGHT: usize = 63;

/// The node `i` roots a median-split tree over the `count` index entries
/// from `start` on, no higher than `h`, whose descendants all lie in the node
/// range `lo..hi`, and `fits(node, start, count)` holds of every node of it
/// with the entries it covers.
///
/// A range of at most two entries is a leaf. A longer one is split into its
/// first `count / 2` entries and the rest.
pub open spec fn subtree_ok(
    nodes: Seq<BvhNode>,
    fits: spec_fn(int, int, int) -> bool,
    i: int,
    lo: int,
    hi: int,
    start: int,
    count: int,
    h: nat,
) -> bool
    decreases h,
{
    &&& 0 <= i < nodes.len()
    &&& fits(i, start, count)
    &&& if count <= 2 {
        nodes[i].count == count && nodes[i].left_first == start
    } else {
        let l = nodes[i].left_first as int;
        &&& h > 0
        &&& nodes[i].count == 0
        &&& lo <= l
        &&& l + 1 < hi
        &&& hi <= nodes.len()
        &&& subtree_ok(nodes, fits, l, lo, hi, start, count / 2, (h - 1) as nat)
        &&& subtree_ok(
            nodes,
            fits,
            l + 1,
            lo,
            hi,
            start + count / 2,
            count - count / 2,
            (h - 1) as nat,
        )
    }
}

/// A subtree stays what it is when the nodes it is made of are kept, the
/// node range and the height bound are widened, and the condition asked of
/// its nodes is weakened.
pub proof fn lemma_subtree_transfer(
    n1: Seq<BvhNode>,
    f1: spec_fn(int, int, int) -> bool,
    n2: Seq<BvhNode>,
    f2: spec_fn(int, int, int) -> bool,
    i: int,
    lo: int,
    hi: int,
    lo2: int,
    hi2: int,
    start: int,
    count: int,
    h: nat,
    h2: nat,
)
    requires
        subtree_ok(n1, f1, i, lo, hi, start, count, h),
        0 <= lo2 <= lo,
        hi <= hi2 <= n2.len(),
        h <= h2,
        0 <= i < n2.len(),
        n2[i] == n1[i],
        forall|k: int| lo <= k < hi && k < n1.len() ==> n2[k] == n1[k],
        forall|k: int, s: int, c: int|
            (k == i || lo <= k < hi) && start <= s && s + c <= start + count && 0 <= c && f1(
                k,
                s,
                c,
            ) ==> #[trigger] f2(k, s, c),
        0 <= count,
    ensures
        subtree_ok(n2, f2, i, lo2, hi2, start, count, h2),
    decreases h,
{
    if count > 2 {
        let l = n1[i].left_first as int;
        lemma_subtree_transfer(
            n1, f1, n2, f2, l, lo, hi, lo2, hi2, start, count / 2, (h - 1) as nat, (h2 - 1) as nat,
        );
        lemma_subtree_transfer(
            n1, f1, n2, f2, l + 1, lo, hi, lo2, hi2, start + count / 2, count - count / 2,
            (h - 1) as nat, (h2 - 1) as nat,
        );
    }
}

/// `b` encloses the box of every object that the `count` index entries from
/// `start` on name.
pub open spec fn box_fits(b: Aabb, bounds: Seq<Aabb>, indices: Seq<usize>, start: int, count: int) -> bool {
    forall|k: int|
        start <= k < start + count ==> 0 <= k < indices.len() && 0 <= (#[trigger] indices[k])
            < bounds.len() && b.encloses(bounds[indices[k] as int])
}

/// Along `axis`, the centre of the object that the index entry `a` names is
/// not above the centre of the object that the entry `b` names.
pub open spec fn pair_ordered(centers: Seq<Vec3>, indices: Seq<usize>, a: int, b: int, axis: u8) -> bool {
    &&& 0 <= a < indices.len()
    &&& 0 <= b < indices.len()
    &&& 0 <= indices[a] < centers.len()
    &&& 0 <= indices[b] < centers.len()
    &&& centers[indices[a] as int].axis_spec(axis).le_spec(centers[indices[b] as int].axis_spec(axis))
}

/// Along `axis`, no object among the first `count / 2` of the `count` index
/// entries from `start` on has its centre above that of an object among the
/// rest.
pub open spec fn halves_ordered(centers: Seq<Vec3>, indices: Seq<usize>, start: int, count: int, axis: u8) -> bool {
    forall|a: int, b: int|
        start <= a < start + count / 2 && start + count / 2 <= b < start + count
            ==> #[trigger] pair_ordered(centers, indices, a, b, axis)
}

/// The condition that every node meets: `subtree_ok` with it speaks of the
/// shape of the tree alone.
pub open spec fn any_node() -> spec_fn(int, int, int) -> bool {
    |i: int, s: int, c: int| true
}

/// The object `j` is named by an entry of the index array.
pub open spec fn listed(indices: Seq<usize>, j: int) -> bool {
    exists|p: int| 0 <= p < indices.len() && #[trigger] indices[p] == j
}

/// The condition that a built tree meets in its boxes, as `subtree_ok` takes it.
pub open spec fn boxes_fit(nodes: Seq<BvhNode>, bounds: Seq<Aabb>, indices: Seq<usize>) -> spec_fn(
    int,
    int,
    int,
) -> bool {
    |i: int, s: int, c: int| 0 <= i < nodes.len() && box_fits(nodes[i].aabb, bounds, indices, s, c)
}

impl Bvh {
    /// The tree is one that a traversal can walk: the index array is a
    /// rearrangement of the object indices `0..n`, and the root is a
    /// median-split tree over all of it, no higher than `MAX_HEIGHT`.
    pub open spec fn wf(&self) -> bool {
        let n = self.prim_indices@.len();
        &&& self.nodes@.len() >= 1
        &&& forall|p: int| 0 <= p < n ==> 0 <= #[trigger] self.prim_indices@[p] < n
        &&& forall|j: int| 0 <= j < n ==> #[trigger] listed(self.prim_indices@, j)
        &&& subtree_ok(
            self.nodes@,
            any_node(),
            0,
            0,
            self.nodes@.len() as int,
            0,
            n as int,
            MAX_HEIGHT as nat,
        )
    }

    /// The box of every node encloses the box of every object that the node
    /// covers, where `bounds` gives the objects' boxes.
    pub open spec fn encloses_scene(&self, bounds: Seq<Aabb>) -> bool {
        subtree_ok(
            self.nodes@,
            boxes_fit(self.nodes@, bounds, self.prim_indices@),
            0,
            0,
            self.nodes@.len() as int,
            0,
            self.prim_indices@.len() as int,
            MAX_HEIGHT as nat,
        )
    }
}

} // verus!
