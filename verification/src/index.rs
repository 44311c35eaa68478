//! The spatial index: a k-d tree over the fitted feature vectors.
//!
//! The tree itself is kiddo's fixed-point `KdTree`. This module declares the
//! type, names what a tree holds, and states what each operation used by the
//! classifier does. None of these statements is proved here; everything else
//! in the crate is proved from them. Which of several equally distant points a
//! query lists first, or takes at all, is left open here.

use vstd::prelude::*;
use crate::crowding::splittable;
use crate::distance_metric::Metric;
use crate::knn::DIMENSIONS;
use crate::neighbours::{is_nearest, is_within};

verus! {

/// Leaf capacity of the tree.
pub const BUCKET_SIZE: usize = 32;

/// Largest number of points of a tree that may share one coordinate value on
/// one axis: half a leaf.
pub const MAX_SHARED: usize = 16;

/// Largest number of points a tree is asked to hold.
pub const MAX_POINTS: usize = 0x7fff_ffff;

/// Largest threshold a range query accepts.
pub const MAX_THRESHOLD: u128 = 0x7fff_ffff_ffff_ffff_ffff_ffff_ffff_ffff;

/// kiddo's fixed-point k-d tree, as an opaque value.
#[verifier::external_type_specification]
#[verifier::external_body]
#[verifier::reject_recursive_types(A)]
#[verifier::reject_recursive_types(T)]
#[verifier::reject_recursive_types(IDX)]
pub struct ExKdTree<A: Copy + Default, T: Copy + Default, const K: usize, const B: usize, IDX>(
    kiddo::fixed::kdtree::KdTree<A, T, K, B, IDX>,
);

/// The 128-bit signed fixed-point number of the `fixed` crate, the tree's
/// coordinate type, as an opaque value.
#[verifier::external_type_specification]
#[verifier::external_body]
#[verifier::reject_recursive_types(Frac)]
pub struct ExFixedI128<Frac>(fixed::FixedI128<Frac>);

/// The type-level zero that gives the coordinates no fractional bits.
#[verifier::external_type_specification]
#[verifier::external_body]
pub struct ExUTerm(fixed::types::extra::U0);

/// The tree type used by the classifier: 128-bit integer coordinates, sample
/// positions as payload.
pub type PointTree = kiddo::fixed::kdtree::KdTree<
    fixed::FixedI128<fixed::types::extra::U0>,
    usize,
    DIMENSIONS,
    BUCKET_SIZE,
    u32,
>;

/// Whether the tree was filled in order: whether its points are stored under
/// the identifiers 0, 1, 2 and so on, in the order in which they were added.
pub uninterp spec fn filled_in_order(tree: PointTree) -> bool;

/// The points of a tree that was filled in order, each at the position it is
/// stored under.
pub uninterp spec fn indexed_points(tree: PointTree) -> Seq<Seq<i32>>;

/// `KdTree::with_capacity`: the new tree holds no point. The call asserts that
/// the capacity fits the tree's 32-bit node indices, which any `capacity` up
/// to `u32::MAX` does.
#[verifier::external_body]
pub(crate) fn tree_with_capacity(capacity: usize) -> (tree: PointTree)
    requires
        capacity <= u32::MAX,
    ensures
        filled_in_order(tree),
        indexed_points(tree) == Seq::<Seq<i32>>::empty(),
{
    kiddo::fixed::kdtree::KdTree::with_capacity(capacity)
}

/// `KdTree::add`: stores `point` under `id`, after the points already held.
/// With `id` the number of points held, the tree stays filled in order. The
/// node indices of the tree are 32 bits wide, which bounds `id`. When the call
/// must split a full leaf, it cuts the leaf at its middle point on one axis and
/// moves the cut down past points equal to it. With at most half a leaf's
/// points on any one value, the cut stays above the first point, every point
/// lands on its side of the recorded value, and the call does not panic; the
/// precondition on the points already held asks for that.
#[verifier::external_body]
pub(crate) fn tree_add(tree: &mut PointTree, point: &[i32; DIMENSIONS], id: usize)
    requires
        filled_in_order(*old(tree)),
        id == indexed_points(*old(tree)).len(),
        id < MAX_POINTS,
        splittable(indexed_points(*old(tree))),
    ensures
        filled_in_order(*final(tree)),
        indexed_points(*final(tree)) == indexed_points(*old(tree)).push(point@),
{
    let at = point.map(|c| fixed::FixedI128::<fixed::types::extra::U0>::from_num(c));
    tree.add(&at, id);
}

/// `KdTree::nearest_n` with kiddo's `Manhattan`: at least `qty` points (all of
/// them if the tree holds fewer), nearest first, none left out that is closer
/// than one returned. The search skips a subtree when the value its leaf was
/// split at lies too far off; it misses no point because, with no value shared
/// by more than half a leaf's points, every split left each point on its side.
/// How many more than `qty` come back depends on the room the call's heap was
/// given, so only a lower bound is stated. The call panics for `qty == 0`, and
/// reserves room for `qty` results before it searches.
#[verifier::external_body]
pub(crate) fn tree_nearest_manhattan(
    tree: &PointTree,
    query: &[i32; DIMENSIONS],
    qty: usize,
) -> (found: Vec<(u128, usize)>)
    requires
        filled_in_order(*tree),
        splittable(indexed_points(*tree)),
        1 <= qty <= MAX_POINTS,
    ensures
        is_nearest(indexed_points(*tree), Metric::Manhattan, query@, found@),
        found@.len() >= qty || found@.len() == indexed_points(*tree).len(),
{
    let at = query.map(|c| fixed::FixedI128::<fixed::types::extra::U0>::from_num(c));
    let hits = tree.nearest_n::<kiddo::fixed::distance::Manhattan>(&at, qty);
    hits.into_iter().map(|hit| (hit.distance.to_num::<u128>(), hit.item)).collect()
}

/// `KdTree::nearest_n` with kiddo's `SquaredEuclidean`: as for Manhattan, with
/// distances that are sums of squares.
#[verifier::external_body]
pub(crate) fn tree_nearest_squared_euclidean(
    tree: &PointTree,
    query: &[i32; DIMENSIONS],
    qty: usize,
) -> (found: Vec<(u128, usize)>)
    requires
        filled_in_order(*tree),
        splittable(indexed_points(*tree)),
        1 <= qty <= MAX_POINTS,
    ensures
        is_nearest(indexed_points(*tree), Metric::SquaredEuclidean, query@, found@),
        found@.len() >= qty || found@.len() == indexed_points(*tree).len(),
{
    let at = query.map(|c| fixed::FixedI128::<fixed::types::extra::U0>::from_num(c));
    let hits = tree.nearest_n::<kiddo::fixed::distance::SquaredEuclidean>(&at, qty);
    hits.into_iter().map(|hit| (hit.distance.to_num::<u128>(), hit.item)).collect()
}

/// `KdTree::within` with kiddo's `Manhattan`: exactly the points whose
/// distance is strictly below `threshold`, nearest first. The search prunes as
/// `nearest_n` does, and misses no point for the same reason.
#[verifier::external_body]
pub(crate) fn tree_within_manhattan(
    tree: &PointTree,
    query: &[i32; DIMENSIONS],
    threshold: u128,
) -> (found: Vec<(u128, usize)>)
    requires
        filled_in_order(*tree),
        splittable(indexed_points(*tree)),
        threshold <= MAX_THRESHOLD,
    ensures
        is_within(indexed_points(*tree), Metric::Manhattan, query@, threshold as int, found@),
{
    let at = query.map(|c| fixed::FixedI128::<fixed::types::extra::U0>::from_num(c));
    let limit = fixed::FixedI128::<fixed::types::extra::U0>::from_num(threshold);
    let hits = tree.within::<kiddo::fixed::distance::Manhattan>(&at, limit);
    hits.into_iter().map(|hit| (hit.distance.to_num::<u128>(), hit.item)).collect()
}

/// `KdTree::within` with kiddo's `SquaredEuclidean`: exactly the points whose
/// squared distance is strictly below `threshold`, nearest first.
#[verifier::external_body]
pub(crate) fn tree_within_squared_euclidean(
    tree: &PointTree,
    query: &[i32; DIMENSIONS],
    threshold: u128,
) -> (found: Vec<(u128, usize)>)
    requires
        filled_in_order(*tree),
        splittable(indexed_points(*tree)),
        threshold <= MAX_THRESHOLD,
    ensures
        is_within(
            indexed_points(*tree),
            Metric::SquaredEuclidean,
            query@,
            threshold as int,
            found@,
        ),
{
    let at = query.map(|c| fixed::FixedI128::<fixed::types::extra::U0>::from_num(c));
    let limit = fixed::FixedI128::<fixed::types::extra::U0>::from_num(threshold);
    let hits = tree.within::<kiddo::fixed::distance::SquaredEuclidean>(&at, limit);
    hits.into_iter().map(|hit| (hit.distance.to_num::<u128>(), hit.item)).collect()
}

} // verus!
