//! The nearest-hit query: a walk of the hierarchy with an explicit stack,
//! nearer child first, that skips every subtree whose box the ray enters no
//! nearer than the best hit so far.
use vstd::prelude::*;
use crate::aabb::Aabb;
use crate::bvh::{
    any_node, boxes_fit, lemma_subtree_transfer, listed, subtree_ok, Bvh, BvhNode, MAX_HEIGHT,
};
use crate::nearest::{in_reach, is_first_nearest, is_nearest, lemma_nearest_agree, tabled};
use crate::scalar::{Scalar, MAX_BITS};

verus! {

/// The number of nodes that a walk can hold back at once.
pub const STACK_SIZE: usize = 64;

/// The box of node `i` is entered no later than any object among the
/// `count` index entries from `start` on is hit in reach.
pub open spec fn box_first(
    indices: Seq<usize>,
    dists: Seq<Scalar>,
    hits: Seq<Option<Scalar>>,
    i: int,
    start: int,
    count: int,
) -> bool {
    forall|p: int|
        start <= p < start + count && 0 <= p < indices.len() && 0 <= i < dists.len() && 0
            <= indices[p] < hits.len() ==> ((#[trigger] hits[indices[p] as int]) matches Some(t)
            ==> in_reach(t) ==> dists[i].le_spec(t))
}

/// `box_first` as a condition on nodes.
pub open spec fn boxes_first(indices: Seq<usize>, dists: Seq<Scalar>, hits: Seq<Option<Scalar>>) -> spec_fn(
    int,
    int,
    int,
) -> bool {
    |i: int, s: int, c: int| box_first(indices, dists, hits, i, s, c)
}

/// The object at place `p` of the index array is hit nearer than `closest`.
spec fn pending(indices: Seq<usize>, hits: Seq<Option<Scalar>>, p: int, closest: Scalar) -> bool {
    hits[indices[p] as int] matches Some(t) && t.lt_spec(closest)
}

/// No object at the `count` places from `start` on is hit nearer than
/// `closest`.
spec fn range_clear(
    indices: Seq<usize>,
    hits: Seq<Option<Scalar>>,
    start: int,
    count: int,
    closest: Scalar,
) -> bool {
    forall|p: int| start <= p < start + count ==> !#[trigger] pending(indices, hits, p, closest)
}

/// Place `p` lies in one of the first `live` ranges.
spec fn held(starts: Seq<int>, counts: Seq<int>, live: int, p: int) -> bool {
    exists|k: int| 0 <= k < live && starts[k] <= p < #[trigger] starts[k] + counts[k]
}

/// The `k`-th node held back is a subtree over the range noted for it, low
/// enough that the nodes held back while it is walked fit on the stack, and
/// `f` holds of its nodes.
spec fn entry_ok(
    nodes: Seq<BvhNode>,
    f: spec_fn(int, int, int) -> bool,
    node: int,
    start: int,
    count: int,
    height: int,
    k: int,
    n: int,
) -> bool {
    &&& subtree_ok(nodes, f, node, 0, nodes.len() as int, start, count, height as nat)
    &&& count >= 1
    &&& start >= 0
    &&& start + count <= n
    &&& height >= 0
    &&& k + height <= MAX_HEIGHT
}

/// An upper bound of the nodes under ranges of these lengths.
spec fn weight(counts: Seq<int>) -> int
    decreases counts.len(),
{
    if counts.len() == 0 {
        0
    } else {
        weight(counts.drop_last()) + 2 * counts.last() - 1
    }
}

proof fn lemma_weight_push(counts: Seq<int>, c: int)
    ensures
        weight(counts.push(c)) == weight(counts) + 2 * c - 1,
{
    assert(counts.push(c).drop_last() =~= counts);
}

proof fn lemma_weight_floor(counts: Seq<int>)
    requires
        forall|k: int| 0 <= k < counts.len() ==> counts[k] >= 1,
    ensures
        weight(counts) >= 0,
    decreases counts.len(),
{
    if counts.len() > 0 {
        lemma_weight_floor(counts.drop_last());
    }
}

impl Bvh {
    /// Every box is entered before anything in it is hit: the condition on
    /// the boxes' entry distances `dists` and the objects' hit distances
    /// `hits` on which skipping a subtree is safe.
    pub open spec fn boxes_lead(&self, dists: Seq<Scalar>, hits: Seq<Option<Scalar>>) -> bool {
        subtree_ok(
            self.nodes@,
            boxes_first(self.prim_indices@, dists, hits),
            0,
            0,
            self.nodes@.len() as int,
            0,
            self.prim_indices@.len() as int,
            MAX_HEIGHT as nat,
        )
    }

    /// `dists` holds what `box_dist` answers for the nodes and `hits` what
    /// `hit` answers for the objects, and every box is entered before
    /// anything in it is hit.
    pub open spec fn consulted<B: Fn(usize) -> Scalar, H: Fn(usize) -> Option<Scalar>>(
        &self,
        box_dist: B,
        hit: H,
        dists: Seq<Scalar>,
        hits: Seq<Option<Scalar>>,
    ) -> bool {
        &&& dists.len() == self.nodes@.len()
        &&& hits.len() == self.prim_indices@.len()
        &&& tabled(box_dist, dists)
        &&& tabled(hit, hits)
        &&& self.boxes_lead(dists, hits)
    }

    /// What a walk knows of such tables while `live` nodes are held back:
    /// their boxes lead, and every object that is hit nearer than `closest`
    /// lies under one of them.
    spec fn walking(
        &self,
        dists: Seq<Scalar>,
        hits: Seq<Option<Scalar>>,
        stack: Seq<usize>,
        starts: Seq<int>,
        counts: Seq<int>,
        heights: Seq<int>,
        live: int,
        closest: Scalar,
        done: bool,
    ) -> bool {
        let n = self.prim_indices@.len() as int;
        &&& forall|k: int|
            0 <= k < live ==> #[trigger] entry_ok(
                self.nodes@,
                boxes_first(self.prim_indices@, dists, hits),
                stack[k] as int,
                starts[k],
                counts[k],
                heights[k],
                k,
                n,
            )
        &&& !done ==> forall|p: int|
            0 <= p < n && #[trigger] pending(self.prim_indices@, hits, p, closest) ==> held(
                starts,
                counts,
                live,
                p,
            )
        &&& done ==> range_clear(self.prim_indices@, hits, 0, n, closest)
    }

    /// The nearest hit of a ray among the objects of the scene. `box_dist`
    /// gives the distance at which the ray enters the box of a node, the
    /// largest finite scalar where it misses the box; `hit` gives the distance
    /// at which it hits an object, if it does.
    ///
    /// What is returned is an answer of `hit`, in reach. Where every box is
    /// entered before anything in it is hit, it is a nearest hit of the table
    /// of those answers, and nothing is returned only if nothing is hit.
    pub fn intersect<B: Fn(usize) -> Scalar, H: Fn(usize) -> Option<Scalar>>(
        &self,
        box_dist: B,
        hit: H,
    ) -> (r: Option<(usize, Scalar)>)
        requires
            self.wf(),
            forall|i: usize| i < self.nodes.len() ==> box_dist.requires((i,)),
            forall|j: usize| j < self.prim_indices.len() ==> hit.requires((j,)),
        ensures
            r matches Some((j, t)) ==> j < self.prim_indices.len() && hit.ensures((j,), Some(t))
                && in_reach(t),
            forall|dists: Seq<Scalar>, hits: Seq<Option<Scalar>>| #[trigger]
                self.consulted(box_dist, hit, dists, hits) ==> is_nearest(hits, r),
    {
        let n: usize = self.prim_indices.len();
        if n == 0 {
            return None;
        }
        let ghost len = self.nodes@.len() as int;
        let ghost pi = self.prim_indices@;
        let mut closest_t = Scalar::largest();
        let mut best: Option<(usize, Scalar)> = None;
        let mut stack: [usize; 64] = [0; 64];
        let mut stack_ptr: usize = 0;
        let mut done: bool = false;
        let ghost mut starts: Seq<int> = seq![0int];
        let ghost mut counts: Seq<int> = seq![n as int];
        let ghost mut heights: Seq<int> = seq![MAX_HEIGHT as int];
        proof {
            assert(counts.drop_last() =~= Seq::<int>::empty());
            assert forall|dists: Seq<Scalar>, hits: Seq<Option<Scalar>>| #[trigger]
                self.consulted(box_dist, hit, dists, hits) implies self.walking(
                dists,
                hits,
                stack@,
                starts,
                counts,
                heights,
                1,
                closest_t,
                false,
            ) by {
                assert forall|p: int|
                    0 <= p < n && #[trigger] pending(pi, hits, p, closest_t) implies held(
                    starts,
                    counts,
                    1,
                    p,
                ) by {
                    assert(starts[0] <= p < starts[0] + counts[0]);
                }
            }
        }
        while !done
            invariant
                n == self.prim_indices.len(),
                n > 0,
                len == self.nodes@.len(),
                pi == self.prim_indices@,
                self.wf(),
                forall|i: usize| i < self.nodes.len() ==> box_dist.requires((i,)),
                forall|j: usize| j < self.prim_indices.len() ==> hit.requires((j,)),
                stack_ptr < STACK_SIZE,
                starts.len() == stack_ptr + 1,
                counts.len() == stack_ptr + 1,
                heights.len() == stack_ptr + 1,
                forall|k: int|
                    0 <= k <= stack_ptr ==> #[trigger] entry_ok(
                        self.nodes@,
                        any_node(),
                        stack@[k] as int,
                        starts[k],
                        counts[k],
                        heights[k],
                        k,
                        n as int,
                    ),
                forall|k: int| 0 <= k <= stack_ptr ==> #[trigger] counts[k] >= 1,
                !closest_t.is_nan(),
                closest_t.rank() <= MAX_BITS,
                best is None ==> closest_t.bits == MAX_BITS,
                best matches Some((j, t)) ==> t == closest_t && j < n && hit.ensures((j,), Some(t))
                    && in_reach(t),
                forall|dists: Seq<Scalar>, hits: Seq<Option<Scalar>>| #[trigger]
                    self.consulted(box_dist, hit, dists, hits) ==> self.walking(
                        dists,
                        hits,
                        stack@,
                        starts,
                        counts,
                        heights,
                        stack_ptr + 1,
                        closest_t,
                        done,
                    ),
            decreases weight(counts) + (if done { 0int } else { 1int }),
        {
            let ghost top = stack_ptr as int;
            let ghost s0 = starts[top];
            let ghost c0 = counts[top];
            let ghost h0 = heights[top];
            let ghost mid = c0 / 2;
            let ghost old_counts = counts;
            let ghost old_starts = starts;
            let ghost old_heights = heights;
            let ghost old_stack = stack@;
            let ghost old_closest = closest_t;
            let node_idx: usize = stack[stack_ptr];
            assert(entry_ok(self.nodes@, any_node(), stack@[top] as int, s0, c0, h0, top, n as int));
            let node: BvhNode = self.nodes[node_idx];
            let dist_box = box_dist(node_idx);
            proof {
                lemma_weight_floor(counts);
                lemma_weight_floor(counts.drop_last());
                assert(old_counts =~= old_counts.drop_last().push(c0));
                lemma_weight_push(old_counts.drop_last(), c0);
            }
            // Set where children were put in the place of the node on top.
            let mut pushed: bool = false;
            if dist_box.lt(&closest_t) {
                if node.count > 0 {
                    let first: usize = node.left_first as usize;
                    let cnt: usize = node.count as usize;
                    let mut i: usize = 0;
                    while i < cnt
                        invariant
                            i <= cnt,
                            cnt == c0,
                            first == s0,
                            s0 >= 0,
                            s0 + c0 <= n,
                            n == self.prim_indices.len(),
                            pi == self.prim_indices@,
                            self.wf(),
                            forall|j: usize| j < self.prim_indices.len() ==> hit.requires((j,)),
                            !closest_t.is_nan(),
                            closest_t.rank() <= MAX_BITS,
                            closest_t.rank() <= old_closest.rank(),
                            !old_closest.is_nan(),
                            best is None ==> closest_t.bits == MAX_BITS,
                            best matches Some((j, t)) ==> t == closest_t && j < n && hit.ensures(
                                (j,),
                                Some(t),
                            ) && in_reach(t),
                            forall|dists: Seq<Scalar>, hits: Seq<Option<Scalar>>| #[trigger]
                                self.consulted(box_dist, hit, dists, hits) ==> range_clear(
                                    pi,
                                    hits,
                                    s0,
                                    i as int,
                                    closest_t,
                                ),
                        decreases cnt - i,
                    {
                        let obj_idx: usize = self.prim_indices[first + i];
                        let h = hit(obj_idx);
                        let ghost before = closest_t;
                        if let Some(t) = h {
                            if t.lt(&closest_t) {
                                closest_t = t;
                                best = Some((obj_idx, t));
                            }
                        }
                        proof {
                            assert forall|dists: Seq<Scalar>, hits: Seq<Option<Scalar>>| #[trigger]
                                self.consulted(box_dist, hit, dists, hits) implies range_clear(
                                pi,
                                hits,
                                s0,
                                i + 1,
                                closest_t,
                            ) by {
                                assert(range_clear(pi, hits, s0, i as int, before));
                                assert(hits[obj_idx as int] == h);
                                assert forall|p: int| s0 <= p < s0 + i + 1 implies !#[trigger] pending(
                                    pi,
                                    hits,
                                    p,
                                    closest_t,
                                ) by {
                                    if p < s0 + i {
                                        assert(!pending(pi, hits, p, before));
                                    }
                                }
                            }
                        }
                        i += 1;
                    }
                } else {
                    assert(c0 > 2);
                    assert(node.left_first + 1 < self.nodes.len());
                    let left_idx: usize = node.left_first as usize;
                    let right_idx: usize = left_idx + 1;
                    let dist_l = box_dist(left_idx);
                    let dist_r = box_dist(right_idx);
                    let missed = Scalar::largest();
                    let see_l: bool = !dist_l.same(&missed);
                    let see_r: bool = !dist_r.same(&missed);
                    proof {
                        assert(subtree_ok(self.nodes@, any_node(), left_idx as int, 0, len, s0, mid, (h0 - 1) as nat));
                        assert(subtree_ok(
                            self.nodes@,
                            any_node(),
                            right_idx as int,
                            0,
                            len,
                            s0 + mid,
                            c0 - mid,
                            (h0 - 1) as nat,
                        ));
                        // What is known of a child that the ray does not reach.
                        assert forall|dists: Seq<Scalar>, hits: Seq<Option<Scalar>>| #[trigger]
                            self.consulted(box_dist, hit, dists, hits) implies {
                            &&& entry_ok(
                                self.nodes@,
                                boxes_first(pi, dists, hits),
                                left_idx as int,
                                s0,
                                mid,
                                h0 - 1,
                                top,
                                n as int,
                            )
                            &&& entry_ok(
                                self.nodes@,
                                boxes_first(pi, dists, hits),
                                right_idx as int,
                                s0 + mid,
                                c0 - mid,
                                h0 - 1,
                                top + 1,
                                n as int,
                            )
                            &&& !see_l ==> range_clear(pi, hits, s0, mid, closest_t)
                            &&& !see_r ==> range_clear(pi, hits, s0 + mid, c0 - mid, closest_t)
                        } by {
                            assert(self.walking(
                                dists,
                                hits,
                                old_stack,
                                old_starts,
                                old_counts,
                                old_heights,
                                top + 1,
                                old_closest,
                                false,
                            ));
                            let f = boxes_first(pi, dists, hits);
                            assert(entry_ok(self.nodes@, f, old_stack[top] as int, s0, c0, h0, top, n as int));
                            assert(subtree_ok(self.nodes@, f, left_idx as int, 0, len, s0, mid, (h0 - 1) as nat));
                            assert(subtree_ok(
                                self.nodes@,
                                f,
                                right_idx as int,
                                0,
                                len,
                                s0 + mid,
                                c0 - mid,
                                (h0 - 1) as nat,
                            ));
                            assert(f(left_idx as int, s0, mid));
                            assert(f(right_idx as int, s0 + mid, c0 - mid));
                            assert(dists[left_idx as int] == dist_l);
                            assert(dists[right_idx as int] == dist_r);
                        }
                    }
                    if see_l && see_r {
                        if dist_l.lt(&dist_r) {
                            stack[stack_ptr] = right_idx;
                            stack_ptr += 1;
                            stack[stack_ptr] = left_idx;
                            proof {
                                starts = starts.drop_last().push(s0 + mid).push(s0);
                                counts = counts.drop_last().push(c0 - mid).push(mid);
                            }
                        } else {
                            stack[stack_ptr] = left_idx;
                            stack_ptr += 1;
                            stack[stack_ptr] = right_idx;
                            proof {
                                starts = starts.drop_last().push(s0).push(s0 + mid);
                                counts = counts.drop_last().push(mid).push(c0 - mid);
                            }
                        }
                        pushed = true;
                        proof {
                            heights = heights.drop_last().push(h0 - 1).push(h0 - 1);
                            lemma_weight_push(old_counts.drop_last(), counts[top]);
                            lemma_weight_push(old_counts.drop_last().push(counts[top]), counts[top + 1]);
                        }
                    } else if see_l || see_r {
                        if see_l {
                            stack[stack_ptr] = left_idx;
                            proof {
                                starts = starts.drop_last().push(s0);
                                counts = counts.drop_last().push(mid);
                            }
                        } else {
                            stack[stack_ptr] = right_idx;
                            proof {
                                starts = starts.drop_last().push(s0 + mid);
                                counts = counts.drop_last().push(c0 - mid);
                            }
                        }
                        pushed = true;
                        proof {
                            heights = heights.drop_last().push(h0 - 1);
                            lemma_weight_push(old_counts.drop_last(), counts[top]);
                        }
                    }
                    proof {
                        if pushed {
                            assert forall|k: int| 0 <= k <= stack_ptr implies #[trigger] entry_ok(
                                self.nodes@,
                                any_node(),
                                stack@[k] as int,
                                starts[k],
                                counts[k],
                                heights[k],
                                k,
                                n as int,
                            ) by {
                                if k < top {
                                    assert(entry_ok(
                                        self.nodes@,
                                        any_node(),
                                        old_stack[k] as int,
                                        old_starts[k],
                                        old_counts[k],
                                        old_heights[k],
                                        k,
                                        n as int,
                                    ));
                                }
                            }
                            assert forall|dists: Seq<Scalar>, hits: Seq<Option<Scalar>>| #[trigger]
                                self.consulted(box_dist, hit, dists, hits) implies self.walking(
                                dists,
                                hits,
                                stack@,
                                starts,
                                counts,
                                heights,
                                stack_ptr + 1,
                                closest_t,
                                false,
                            ) by {
                                let f = boxes_first(pi, dists, hits);
                                assert(self.walking(
                                    dists,
                                    hits,
                                    old_stack,
                                    old_starts,
                                    old_counts,
                                    old_heights,
                                    top + 1,
                                    old_closest,
                                    false,
                                ));
                                assert forall|k: int| 0 <= k < stack_ptr + 1 implies #[trigger] entry_ok(
                                    self.nodes@,
                                    f,
                                    stack@[k] as int,
                                    starts[k],
                                    counts[k],
                                    heights[k],
                                    k,
                                    n as int,
                                ) by {
                                    if k < top {
                                        assert(entry_ok(
                                            self.nodes@,
                                            f,
                                            old_stack[k] as int,
                                            old_starts[k],
                                            old_counts[k],
                                            old_heights[k],
                                            k,
                                            n as int,
                                        ));
                                    }
                                }
                                assert forall|p: int|
                                    0 <= p < n && #[trigger] pending(pi, hits, p, closest_t) implies held(
                                    starts,
                                    counts,
                                    stack_ptr + 1,
                                    p,
                                ) by {
                                    assert(held(old_starts, old_counts, top + 1, p));
                                    let k = choose|k: int|
                                        0 <= k < top + 1 && old_starts[k] <= p < #[trigger] old_starts[k]
                                            + old_counts[k];
                                    if k < top {
                                        assert(starts[k] <= p < starts[k] + counts[k]);
                                    } else if starts[top] <= p < starts[top] + counts[top] {
                                    } else if top < stack_ptr {
                                        assert(starts[top + 1] <= p < starts[top + 1] + counts[top + 1]);
                                    } else {
                                        assert(false);
                                    }
                                }
                            }
                        }
                    }
                }
            }
            if !pushed {
                proof {
                    assert(stack@ == old_stack);
                    assert(closest_t.rank() <= old_closest.rank());
                    assert forall|dists: Seq<Scalar>, hits: Seq<Option<Scalar>>| #[trigger]
                        self.consulted(box_dist, hit, dists, hits) implies self.walking(
                        dists,
                        hits,
                        old_stack,
                        old_starts.drop_last(),
                        old_counts.drop_last(),
                        old_heights.drop_last(),
                        top,
                        closest_t,
                        false,
                    ) && (top == 0 ==> range_clear(pi, hits, 0, n as int, closest_t)) by {
                        let f = boxes_first(pi, dists, hits);
                        assert(self.walking(
                            dists,
                            hits,
                            old_stack,
                            old_starts,
                            old_counts,
                            old_heights,
                            top + 1,
                            old_closest,
                            false,
                        ));
                        assert(entry_ok(self.nodes@, f, old_stack[top] as int, s0, c0, h0, top, n as int));
                        assert(f(node_idx as int, s0, c0));
                        assert(dists[node_idx as int] == dist_box);
                        assert(range_clear(pi, hits, s0, c0, closest_t));
                        assert forall|k: int| 0 <= k < top implies #[trigger] entry_ok(
                            self.nodes@,
                            f,
                            old_stack[k] as int,
                            old_starts.drop_last()[k],
                            old_counts.drop_last()[k],
                            old_heights.drop_last()[k],
                            k,
                            n as int,
                        ) by {
                            assert(entry_ok(
                                self.nodes@,
                                f,
                                old_stack[k] as int,
                                old_starts[k],
                                old_counts[k],
                                old_heights[k],
                                k,
                                n as int,
                            ));
                        }
                        assert forall|p: int|
                            0 <= p < n && #[trigger] pending(pi, hits, p, closest_t) implies held(
                            old_starts.drop_last(),
                            old_counts.drop_last(),
                            top,
                            p,
                        ) by {
                            assert(pending(pi, hits, p, old_closest));
                            assert(held(old_starts, old_counts, top + 1, p));
                            let k = choose|k: int|
                                0 <= k < top + 1 && old_starts[k] <= p < #[trigger] old_starts[k]
                                    + old_counts[k];
                            assert(k < top);
                            assert(old_starts.drop_last()[k] <= p < old_starts.drop_last()[k]
                                + old_counts.drop_last()[k]);
                        }
                    }
                }
                if stack_ptr == 0 {
                    done = true;
                } else {
                    stack_ptr -= 1;
                    proof {
                        starts = starts.drop_last();
                        counts = counts.drop_last();
                        heights = heights.drop_last();
                        assert forall|k: int| 0 <= k <= stack_ptr implies #[trigger] entry_ok(
                            self.nodes@,
                            any_node(),
                            stack@[k] as int,
                            starts[k],
                            counts[k],
                            heights[k],
                            k,
                            n as int,
                        ) by {
                            assert(entry_ok(
                                self.nodes@,
                                any_node(),
                                old_stack[k] as int,
                                old_starts[k],
                                old_counts[k],
                                old_heights[k],
                                k,
                                n as int,
                            ));
                        }
                    }
                }
            }
        }
        proof {
            assert forall|dists: Seq<Scalar>, hits: Seq<Option<Scalar>>| #[trigger]
                self.consulted(box_dist, hit, dists, hits) implies is_nearest(hits, best) by {
                assert(self.walking(dists, hits, stack@, starts, counts, heights, stack_ptr + 1, closest_t, true));
                assert forall|j: int| 0 <= j < hits.len() implies !((#[trigger] hits[j]) matches Some(u)
                    && u.lt_spec(closest_t)) by {
                    assert(listed(pi, j));
                    let p = choose|p: int| 0 <= p < pi.len() && #[trigger] pi[p] == j;
                    assert(!pending(pi, hits, p, closest_t));
                }
            }
        }
        best
    }
}

/// A ray enters a box that encloses an object's box no later than it hits
/// the object: what the entry distances `dists` of the node boxes and the
/// hit distances `hits` of the objects owe to each other, pair by pair.
pub open spec fn entries_precede_hits(
    nodes: Seq<BvhNode>,
    bounds: Seq<Aabb>,
    dists: Seq<Scalar>,
    hits: Seq<Option<Scalar>>,
) -> bool {
    forall|i: int, j: int|
        0 <= i < nodes.len() && 0 <= j < bounds.len() && j < hits.len() && i < dists.len()
            && #[trigger] nodes[i].aabb.encloses(bounds[j]) ==> ((#[trigger] hits[j]) matches Some(t)
            ==> in_reach(t) ==> dists[i].le_spec(t))
}

/// In a tree whose boxes enclose what they cover, every box is entered
/// before anything in it is hit, as soon as that holds of each box and
/// object by themselves.
pub proof fn lemma_enclosing_boxes_lead(
    bvh: Bvh,
    bounds: Seq<Aabb>,
    dists: Seq<Scalar>,
    hits: Seq<Option<Scalar>>,
)
    requires
        bvh.encloses_scene(bounds),
        bounds.len() == bvh.prim_indices@.len(),
        hits.len() == bounds.len(),
        dists.len() == bvh.nodes@.len(),
        entries_precede_hits(bvh.nodes@, bounds, dists, hits),
    ensures
        bvh.boxes_lead(dists, hits),
{
    let f1 = boxes_fit(bvh.nodes@, bounds, bvh.prim_indices@);
    let f2 = boxes_first(bvh.prim_indices@, dists, hits);
    let len = bvh.nodes@.len() as int;
    let n = bvh.prim_indices@.len() as int;
    assert forall|k: int, s: int, c: int|
        (k == 0 || 0 <= k < len) && 0 <= s && s + c <= n && 0 <= c && f1(k, s, c) implies #[trigger] f2(
        k,
        s,
        c,
    ) by {
        assert forall|p: int|
            s <= p < s + c && 0 <= p < bvh.prim_indices@.len() && 0 <= k < dists.len() && 0
                <= bvh.prim_indices@[p] < hits.len() implies ((#[trigger] hits[bvh.prim_indices@[p] as int])
            matches Some(t) ==> in_reach(t) ==> dists[k].le_spec(t)) by {
            let j = bvh.prim_indices@[p] as int;
            assert(bvh.nodes@[k].aabb.encloses(bounds[j]));
        }
    }
    lemma_subtree_transfer(
        bvh.nodes@, f1, bvh.nodes@, f2, 0, 0, len, 0, len, 0, n, MAX_HEIGHT as nat, MAX_HEIGHT as nat,
    );
}

/// A walk of the tree finds what a scan of all objects finds: in a tree
/// whose boxes enclose what they cover, where each box is entered no later
/// than an object whose box it encloses is hit, what `intersect` returns and
/// what `get_closest_intersection` returns agree on whether anything is hit,
/// and on the distance.
pub proof fn lemma_walk_matches_scan<B: Fn(usize) -> Scalar, H: Fn(usize) -> Option<Scalar>>(
    bvh: Bvh,
    bounds: Seq<Aabb>,
    box_dist: B,
    hit: H,
    dists: Seq<Scalar>,
    hits: Seq<Option<Scalar>>,
    walked: Option<(usize, Scalar)>,
    scanned: Option<(usize, Scalar)>,
)
    requires
        bvh.encloses_scene(bounds),
        bounds.len() == bvh.prim_indices@.len(),
        hits.len() == bounds.len(),
        dists.len() == bvh.nodes@.len(),
        tabled(box_dist, dists),
        tabled(hit, hits),
        entries_precede_hits(bvh.nodes@, bounds, dists, hits),
        bvh.consulted(box_dist, hit, dists, hits) ==> is_nearest(hits, walked),
        is_first_nearest(hits, scanned),
    ensures
        walked is Some <==> scanned is Some,
        (walked, scanned) matches (Some((i, t)), Some((j, u))) ==> t.same_spec(u),
{
    lemma_enclosing_boxes_lead(bvh, bounds, dists, hits);
    lemma_nearest_agree(hits, walked, scanned);
}

} // verus!
