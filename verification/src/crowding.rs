//! Crowded axes: datasets in which too many samples share one coordinate.
//!
//! The index stores its points in leaves of a fixed size and splits a full leaf
//! in the middle, between two coordinate values of one axis. Where more than
//! half a leaf's points share the smallest coordinate on that axis, the split
//! leaves points on the wrong side of the value it records, and queries that
//! prune by that value miss them; where all of them share it, the split fails
//! altogether. So a dataset is indexed only if no coordinate value is shared,
//! on any one axis, by more than half a leaf's worth of samples. A dataset that
//! is not indexed is scanned instead.

use std::collections::HashMap;
use vstd::prelude::*;
use crate::distance_metric::Metric;
use crate::index::MAX_SHARED;
use crate::knn::{features_of, Data, DIMENSIONS};

verus! {

/// How many of the first `n` points have `value` as their coordinate on `axis`.
pub open spec fn axis_count(points: Seq<Seq<i32>>, axis: int, value: int, n: int) -> int
    decreases n,
{
    if n <= 0 {
        0
    } else {
        axis_count(points, axis, value, n - 1) + if points[n - 1][axis] == value {
            1int
        } else {
            0int
        }
    }
}

/// No coordinate value is shared, on any one axis, by more points than half a
/// leaf holds. A tree splits every full leaf of such points between two
/// coordinate values, with each point on its side of the value recorded; points
/// that have that very value may lie on either side.
pub open spec fn splittable(points: Seq<Seq<i32>>) -> bool {
    forall|axis: int, value: int|
        0 <= axis < DIMENSIONS ==> #[trigger] axis_count(points, axis, value, points.len() as int)
            <= MAX_SHARED
}

/// Whether the index answers the queries over `points` under `metric`: it does
/// for the two metrics it offers, if it can hold the points. All other queries
/// are answered by scanning.
pub open spec fn index_serves(metric: Metric, points: Seq<Seq<i32>>) -> bool {
    metric != Metric::Chebyshev && splittable(points)
}

/// A count over a prefix is between zero and the length of the prefix, and
/// grows with the prefix.
pub proof fn lemma_axis_count_bounds(points: Seq<Seq<i32>>, axis: int, value: int, m: int, n: int)
    requires
        0 <= m <= n,
    ensures
        0 <= axis_count(points, axis, value, m) <= m,
        axis_count(points, axis, value, m) <= axis_count(points, axis, value, n),
    decreases n,
{
    if m > 0 {
        lemma_axis_count_bounds(points, axis, value, m - 1, m - 1);
    }
    if n > m {
        lemma_axis_count_bounds(points, axis, value, m, n - 1);
    }
}

/// A value that no point has on an axis is counted zero times.
pub proof fn lemma_axis_count_absent(points: Seq<Seq<i32>>, axis: int, value: int, n: int)
    requires
        0 <= n <= points.len(),
        forall|i: int| 0 <= i < n ==> (#[trigger] points[i])[axis] != value,
    ensures
        axis_count(points, axis, value, n) == 0,
    decreases n,
{
    if n > 0 {
        lemma_axis_count_absent(points, axis, value, n - 1);
    }
}

/// Counting over a prefix of the points is counting over the points.
pub proof fn lemma_axis_count_prefix(
    points: Seq<Seq<i32>>,
    axis: int,
    value: int,
    cut: int,
    n: int,
)
    requires
        0 <= n <= cut <= points.len(),
    ensures
        axis_count(points.subrange(0, cut), axis, value, n) == axis_count(points, axis, value, n),
    decreases n,
{
    if n > 0 {
        lemma_axis_count_prefix(points, axis, value, cut, n - 1);
    }
}

/// Every prefix of a splittable sequence of points is splittable.
pub proof fn lemma_prefix_splittable(points: Seq<Seq<i32>>, cut: int)
    requires
        0 <= cut <= points.len(),
        splittable(points),
    ensures
        splittable(points.subrange(0, cut)),
{
    let prefix = points.subrange(0, cut);
    assert forall|axis: int, value: int| 0 <= axis < DIMENSIONS implies #[trigger] axis_count(
        prefix,
        axis,
        value,
        prefix.len() as int,
    ) <= MAX_SHARED by {
        lemma_axis_count_prefix(points, axis, value, cut, cut);
        lemma_axis_count_bounds(points, axis, value, cut, points.len() as int);
        assert(axis_count(points, axis, value, points.len() as int) <= MAX_SHARED);
    }
}

/// Whether some coordinate value on `axis` is shared by more of the points
/// than half a leaf holds.
pub open spec fn crowded_on(points: Seq<Seq<i32>>, axis: int) -> bool {
    exists|value: int| #[trigger]
        axis_count(points, axis, value, points.len() as int) > MAX_SHARED
}

/// Decides whether some coordinate value on `axis` is shared by more samples
/// than half a leaf holds, by tallying the values in one pass.
fn axis_is_crowded(data: &Vec<Data>, axis: usize) -> (crowded: bool)
    requires
        axis < DIMENSIONS,
    ensures
        crowded == crowded_on(features_of(data@), axis as int),
{
    broadcast use vstd::std_specs::hash::group_hash_axioms;

    let ghost points = features_of(data@);
    let mut tally: HashMap<i32, usize> = HashMap::new();
    let mut i: usize = 0;
    while i < data.len()
        invariant
            i <= data@.len(),
            axis < DIMENSIONS,
            points == features_of(data@),
            forall|value: i32| #[trigger]
                axis_count(points, axis as int, value as int, i as int) == (if tally@.contains_key(
                    value,
                ) {
                    tally@[value] as int
                } else {
                    0
                }),
            forall|value: i32| #[trigger]
                axis_count(points, axis as int, value as int, i as int) <= MAX_SHARED,
        decreases data@.len() - i,
    {
        let value: i32 = data[i].features[axis];
        let seen: usize = match tally.get(&value) {
            Some(count) => *count,
            None => 0,
        };
        assert(seen as int == axis_count(points, axis as int, value as int, i as int));
        let count: usize = seen + 1;
        if count > MAX_SHARED {
            proof {
                lemma_axis_count_bounds(
                    points,
                    axis as int,
                    value as int,
                    i as int + 1,
                    points.len() as int,
                );
            }
            return true;
        }
        let ghost before = tally@;
        tally.insert(value, count);
        proof {
            assert forall|other: i32| #[trigger]
                axis_count(points, axis as int, other as int, i as int + 1) == (
                if tally@.contains_key(other) {
                    tally@[other] as int
                } else {
                    0
                }) && axis_count(points, axis as int, other as int, i as int + 1)
                    <= MAX_SHARED by {
                let earlier = axis_count(points, axis as int, other as int, i as int);
                assert(earlier == (if before.contains_key(other) {
                    before[other] as int
                } else {
                    0
                }));
                assert(earlier <= MAX_SHARED);
                assert(points[i as int][axis as int] == value);
            }
        }
        i += 1;
    }
    proof {
        assert forall|value: int| #[trigger]
            axis_count(points, axis as int, value, points.len() as int) <= MAX_SHARED by {
            if i32::MIN <= value <= i32::MAX {
                assert(axis_count(points, axis as int, (value as i32) as int, i as int)
                    <= MAX_SHARED);
            } else {
                lemma_axis_count_absent(points, axis as int, value, points.len() as int);
            }
        }
    }
    false
}

/// Decides whether the index can hold a dataset: whether, on every axis, each
/// coordinate value is shared by at most as many samples as half a leaf holds.
pub fn can_index(data: &Vec<Data>) -> (accepted: bool)
    ensures
        accepted == splittable(features_of(data@)),
{
    let ghost points = features_of(data@);
    if data.len() <= MAX_SHARED {
        proof {
            assert forall|axis: int, value: int| 0 <= axis < DIMENSIONS implies #[trigger] axis_count(
                points,
                axis,
                value,
                points.len() as int,
            ) <= MAX_SHARED by {
                lemma_axis_count_bounds(
                    points,
                    axis,
                    value,
                    points.len() as int,
                    points.len() as int,
                );
            }
        }
        return true;
    }
    let mut axis: usize = 0;
    while axis < DIMENSIONS
        invariant
            axis <= DIMENSIONS,
            points == features_of(data@),
            forall|a: int| 0 <= a < axis ==> !crowded_on(points, a),
        decreases DIMENSIONS - axis,
    {
        if axis_is_crowded(data, axis) {
            let ghost value = choose|value: int| #[trigger]
                axis_count(points, axis as int, value, points.len() as int) > MAX_SHARED;
            assert(axis_count(points, axis as int, value, points.len() as int) > MAX_SHARED);
            return false;
        }
        axis += 1;
    }
    proof {
        assert forall|a: int, value: int| 0 <= a < DIMENSIONS implies #[trigger] axis_count(
            points,
            a,
            value,
            points.len() as int,
        ) <= MAX_SHARED by {
            assert(!crowded_on(points, a));
        }
    }
    true
}

} // verus!
