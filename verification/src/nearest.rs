//! Nearest hits: what a ray hits first among the objects of a scene.
//!
//! The library does not compute where a ray meets an object. It is handed a
//! function that does, and asks it object by object; its contracts speak of
//! the table of that function's answers.
use vstd::prelude::*;
use crate::scalar::{Scalar, MAX_BITS};

verus! {

/// `table` holds, for each argument below its length, the one answer that
/// `f` can give.
pub open spec fn tabled<R, G: Fn(usize) -> R>(f: G, table: Seq<R>) -> bool {
    forall|j: usize, r: R| j < table.len() && #[trigger] f.ensures((j,), r) ==> r == table[j as int]
}

/// A distance at which a hit counts: a number below the largest finite
/// scalar.
pub open spec fn in_reach(t: Scalar) -> bool {
    t.lt_spec(Scalar { bits: MAX_BITS })
}

/// `r` is a nearest hit of the table `hits`, which holds for each object the
/// distance at which the ray hits it, if it does: `None` where no object is
/// hit in reach, and otherwise an object with its distance such that no
/// object is hit nearer.
pub open spec fn is_nearest(hits: Seq<Option<Scalar>>, r: Option<(usize, Scalar)>) -> bool {
    match r {
        None => forall|j: int|
            0 <= j < hits.len() ==> !((#[trigger] hits[j]) matches Some(t) && in_reach(t)),
        Some((i, t)) => {
            &&& i < hits.len()
            &&& hits[i as int] == Some(t)
            &&& in_reach(t)
            &&& forall|j: int|
                0 <= j < hits.len() ==> !((#[trigger] hits[j]) matches Some(u) && u.lt_spec(t))
        },
    }
}

/// `r` is the nearest hit of the table that a scan in order finds: a nearest
/// hit before which no object is hit as near.
pub open spec fn is_first_nearest(hits: Seq<Option<Scalar>>, r: Option<(usize, Scalar)>) -> bool {
    &&& is_nearest(hits, r)
    &&& r matches Some((i, t)) ==> forall|j: int|
        0 <= j < i ==> !((#[trigger] hits[j]) matches Some(u) && u.le_spec(t))
}

/// What a scan knows of a table once it has asked for the objects below `j`.
spec fn scanned(
    hits: Seq<Option<Scalar>>,
    j: int,
    best: Option<(usize, Scalar)>,
    closest: Scalar,
) -> bool {
    &&& best matches Some((i, t)) ==> hits[i as int] == Some(t) && forall|k: int|
        0 <= k < i ==> !((#[trigger] hits[k]) matches Some(u) && u.le_spec(t))
    &&& forall|k: int| 0 <= k < j ==> !((#[trigger] hits[k]) matches Some(u) && u.lt_spec(closest))
}

/// The nearest hit among the objects `0..n`, found by asking `hit` for each
/// in turn; of several objects hit at the nearest distance it is the first.
///
/// What is returned is an answer of `hit`, in reach. Of every table that
/// holds the answers of `hit`, it is the first nearest hit.
pub fn get_closest_intersection<H: Fn(usize) -> Option<Scalar>>(n: usize, hit: H) -> (r: Option<
    (usize, Scalar),
>)
    requires
        forall|j: usize| j < n ==> hit.requires((j,)),
    ensures
        r matches Some((i, t)) ==> i < n && hit.ensures((i,), Some(t)) && in_reach(t),
        forall|hits: Seq<Option<Scalar>>|
            hits.len() == n && #[trigger] tabled(hit, hits) ==> is_first_nearest(hits, r),
{
    let mut closest_t = Scalar::largest();
    let mut best: Option<(usize, Scalar)> = None;
    let mut j: usize = 0;
    while j < n
        invariant
            j <= n,
            forall|j: usize| j < n ==> hit.requires((j,)),
            !closest_t.is_nan(),
            best is None ==> closest_t.bits == MAX_BITS,
            best matches Some((i, t)) ==> i < j && t == closest_t && hit.ensures((i,), Some(t))
                && in_reach(t),
            forall|hits: Seq<Option<Scalar>>|
                hits.len() == n && #[trigger] tabled(hit, hits) ==> scanned(
                    hits,
                    j as int,
                    best,
                    closest_t,
                ),
        decreases n - j,
    {
        let h = hit(j);
        let ghost before = closest_t;
        let ghost had = best;
        if let Some(t) = h {
            if t.lt(&closest_t) {
                closest_t = t;
                best = Some((j, t));
            }
        }
        proof {
            assert forall|hits: Seq<Option<Scalar>>|
                hits.len() == n && #[trigger] tabled(hit, hits) implies scanned(
                hits,
                j + 1,
                best,
                closest_t,
            ) by {
                assert(scanned(hits, j as int, had, before));
                assert(hits[j as int] == h);
            }
        }
        j += 1;
    }
    best
}

/// Two nearest hits of one table agree on whether anything is hit, and on
/// the distance: whatever order a search visits the objects in, it finds the
/// same nearest distance as the search that asks every object in turn.
pub proof fn lemma_nearest_agree(
    hits: Seq<Option<Scalar>>,
    a: Option<(usize, Scalar)>,
    b: Option<(usize, Scalar)>,
)
    requires
        is_nearest(hits, a),
        is_nearest(hits, b),
    ensures
        a is Some <==> b is Some,
        (a, b) matches (Some((i, t)), Some((j, u))) ==> t.same_spec(u),
{
    if let Some((i, t)) = a {
        assert(hits[i as int] == Some(t));
    }
    if let Some((j, u)) = b {
        assert(hits[j as int] == Some(u));
    }
}

/// Every answer of the table `a` stands in the table `b` too.
pub open spec fn answers_within(a: Seq<Option<Scalar>>, b: Seq<Option<Scalar>>) -> bool {
    forall|j: int| 0 <= j < a.len() ==> exists|k: int| 0 <= k < b.len() && b[k] == #[trigger] a[j]
}

/// The nearest hit does not depend on the order of the objects: nearest hits
/// of two tables that hold the same answers agree on whether anything is
/// hit, and on the distance.
pub proof fn lemma_nearest_of_rearranged(
    h1: Seq<Option<Scalar>>,
    h2: Seq<Option<Scalar>>,
    r1: Option<(usize, Scalar)>,
    r2: Option<(usize, Scalar)>,
)
    requires
        answers_within(h1, h2),
        answers_within(h2, h1),
        is_nearest(h1, r1),
        is_nearest(h2, r2),
    ensures
        r1 is Some <==> r2 is Some,
        (r1, r2) matches (Some((i, t)), Some((j, u))) ==> t.same_spec(u),
{
    if let Some((i, t)) = r1 {
        assert(h1[i as int] == Some(t));
        let k = choose|k: int| 0 <= k < h2.len() && h2[k] == h1[i as int];
        assert(h2[k] == Some(t));
    }
    if let Some((j, u)) = r2 {
        assert(h2[j as int] == Some(u));
        let k = choose|k: int| 0 <= k < h1.len() && h1[k] == h2[j as int];
        assert(h1[k] == Some(u));
    }
}

} // verus!
