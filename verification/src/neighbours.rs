//! What it means for a list of `(distance, position)` pairs to answer a
//! neighbour query over a sequence of points.
//!
//! Distances are always in the metric's own space: for the squared Euclidean
//! metric they are squared magnitudes, and thresholds are compared in that
//! same space.

use vstd::prelude::*;
use crate::distance_metric::{lemma_distance_bounded, lemma_distance_nonnegative, Metric};
use crate::knn::{features_of, Data, DIMENSIONS};

verus! {

/// Every pair names a stored point and carries that point's distance from the
/// query.
pub open spec fn measured(
    points: Seq<Seq<i32>>,
    metric: Metric,
    query: Seq<i32>,
    found: Seq<(u128, usize)>,
) -> bool {
    forall|j: int|
        0 <= j < found.len() ==> (#[trigger] found[j]).1 < points.len() && found[j].0 as int
            == metric.distance(query, points[found[j].1 as int])
}

/// No position occurs twice.
pub open spec fn distinct_positions(found: Seq<(u128, usize)>) -> bool {
    forall|i: int, j: int|
        0 <= i < j < found.len() ==> (#[trigger] found[i]).1 != (#[trigger] found[j]).1
}

/// Distances never decrease along the list.
pub open spec fn ascending(found: Seq<(u128, usize)>) -> bool {
    forall|i: int, j: int|
        0 <= i <= j < found.len() ==> (#[trigger] found[i]).0 <= (#[trigger] found[j]).0
}

/// Distances strictly increase along the list.
pub open spec fn strictly_ascending(found: Seq<(u128, usize)>) -> bool {
    forall|i: int, j: int|
        0 <= i < j < found.len() ==> (#[trigger] found[i]).0 < (#[trigger] found[j]).0
}

/// The list mentions position `id`.
pub open spec fn mentions(found: Seq<(u128, usize)>, id: int) -> bool {
    exists|j: int| 0 <= j < found.len() && (#[trigger] found[j]).1 == id
}

/// `found` is a well-formed answer: measured, without repeats, ascending, and
/// no longer than the point set.
pub open spec fn is_answer(
    points: Seq<Seq<i32>>,
    metric: Metric,
    query: Seq<i32>,
    found: Seq<(u128, usize)>,
) -> bool {
    &&& measured(points, metric, query, found)
    &&& distinct_positions(found)
    &&& ascending(found)
    &&& found.len() <= points.len()
}

/// `found` answers a range query: it holds exactly the points whose distance
/// from the query is strictly below `threshold`.
pub open spec fn is_within(
    points: Seq<Seq<i32>>,
    metric: Metric,
    query: Seq<i32>,
    threshold: int,
    found: Seq<(u128, usize)>,
) -> bool {
    &&& is_answer(points, metric, query, found)
    &&& forall|j: int| 0 <= j < found.len() ==> (#[trigger] found[j]).0 < threshold
    &&& forall|id: int|
        0 <= id < points.len() && #[trigger] metric.distance(query, points[id]) < threshold
            ==> mentions(found, id)
}

/// `found` answers a nearest-neighbour query: no point left out is closer
/// than a point taken.
pub open spec fn is_nearest(
    points: Seq<Seq<i32>>,
    metric: Metric,
    query: Seq<i32>,
    found: Seq<(u128, usize)>,
) -> bool {
    &&& is_answer(points, metric, query, found)
    &&& forall|id: int, j: int|
        0 <= id < points.len() && 0 <= j < found.len() && !mentions(found, id) ==> (
        #[trigger] found[j]).0 <= #[trigger] metric.distance(query, points[id])
}

/// Where a pair at `distance` is placed in an ascending list: after every pair
/// that is not farther than it.
pub open spec fn insertion_point(found: Seq<(u128, usize)>, distance: u128) -> int
    decreases found.len(),
{
    if found.len() == 0 || found.last().0 <= distance {
        found.len() as int
    } else {
        insertion_point(found.drop_last(), distance)
    }
}

/// The list with `pair` placed at its insertion point.
pub open spec fn placed(found: Seq<(u128, usize)>, pair: (u128, usize)) -> Seq<(u128, usize)> {
    found.insert(insertion_point(found, pair.0), pair)
}

/// The answer to a range query over the first `n` points, found by visiting
/// them in order: pairs ascend by distance, and by position among equals.
pub open spec fn scan_within(
    points: Seq<Seq<i32>>,
    metric: Metric,
    query: Seq<i32>,
    threshold: u128,
    n: int,
) -> Seq<(u128, usize)>
    decreases n,
{
    if n <= 0 {
        Seq::empty()
    } else {
        let before = scan_within(points, metric, query, threshold, n - 1);
        let distance = metric.distance(query, points[n - 1]);
        if distance < threshold {
            placed(before, (distance as u128, (n - 1) as usize))
        } else {
            before
        }
    }
}

/// The answer to a nearest-neighbour query for `qty` points over the first `n`
/// points, found by visiting them in order: among equally distant points the
/// earlier one is preferred.
pub open spec fn scan_nearest(
    points: Seq<Seq<i32>>,
    metric: Metric,
    query: Seq<i32>,
    qty: usize,
    n: int,
) -> Seq<(u128, usize)>
    decreases n,
{
    if n <= 0 {
        Seq::empty()
    } else {
        let before = scan_nearest(points, metric, query, qty, n - 1);
        let distance = metric.distance(query, points[n - 1]);
        let grown = placed(before, (distance as u128, (n - 1) as usize));
        if grown.len() > qty {
            grown.drop_last()
        } else {
            grown
        }
    }
}

/// Every position in the list is below `n`.
pub open spec fn positions_below(found: Seq<(u128, usize)>, n: int) -> bool {
    forall|j: int| 0 <= j < found.len() ==> (#[trigger] found[j]).1 < n
}

/// The insertion point lies in the list, has nothing farther before it and
/// only farther pairs from it on.
pub proof fn lemma_insertion_point(found: Seq<(u128, usize)>, distance: u128)
    requires
        ascending(found),
    ensures
        0 <= insertion_point(found, distance) <= found.len(),
        forall|j: int|
            0 <= j < insertion_point(found, distance) ==> (#[trigger] found[j]).0 <= distance,
        forall|j: int|
            insertion_point(found, distance) <= j < found.len() ==> (#[trigger] found[j]).0
                > distance,
    decreases found.len(),
{
    if found.len() == 0 || found.last().0 <= distance {
        assert forall|j: int| 0 <= j < found.len() implies (#[trigger] found[j]).0 <= distance by {
            assert(found[j].0 <= found[found.len() - 1].0);
        }
    } else {
        let shorter = found.drop_last();
        assert forall|i: int, j: int| 0 <= i <= j < shorter.len() implies (#[trigger] shorter[i]).0
            <= (#[trigger] shorter[j]).0 by {
            assert(found[i].0 <= found[j].0);
        }
        lemma_insertion_point(shorter, distance);
        let at = insertion_point(shorter, distance);
        assert forall|j: int| 0 <= j < at implies (#[trigger] found[j]).0 <= distance by {
            assert(shorter[j].0 <= distance);
        }
        assert forall|j: int| at <= j < found.len() implies (#[trigger] found[j]).0 > distance by {
            if j < shorter.len() {
                assert(shorter[j].0 > distance);
            }
        }
    }
}

/// Every pair of the grown list is the new pair or comes from the old list,
/// one place later if it stood at or after the insertion point.
pub proof fn lemma_placed_shape(found: Seq<(u128, usize)>, pair: (u128, usize))
    requires
        ascending(found),
    ensures
        0 <= insertion_point(found, pair.0) <= found.len(),
        placed(found, pair).len() == found.len() + 1,
        placed(found, pair)[insertion_point(found, pair.0)] == pair,
        forall|m: int|
            0 <= m < insertion_point(found, pair.0) ==> #[trigger] placed(found, pair)[m]
                == found[m],
        forall|m: int|
            insertion_point(found, pair.0) < m <= found.len() ==> #[trigger] placed(found, pair)[m]
                == found[m - 1],
{
    lemma_insertion_point(found, pair.0);
}

/// Placing a pair keeps the list ascending.
pub proof fn lemma_placed_ascending(found: Seq<(u128, usize)>, pair: (u128, usize))
    requires
        ascending(found),
    ensures
        ascending(placed(found, pair)),
{
    lemma_insertion_point(found, pair.0);
    lemma_placed_shape(found, pair);
    let at = insertion_point(found, pair.0);
    let grown = placed(found, pair);
    assert forall|i: int, j: int| 0 <= i <= j < grown.len() implies (#[trigger] grown[i]).0 <= (
    #[trigger] grown[j]).0 by {
        if i < at {
            assert(grown[i] == found[i]);
            assert(found[i].0 <= pair.0);
            if j < at {
                assert(grown[j] == found[j]);
            } else if j > at {
                assert(grown[j] == found[j - 1]);
                assert(found[j - 1].0 > pair.0);
            }
        } else if i == at {
            if j > at {
                assert(grown[j] == found[j - 1]);
                assert(found[j - 1].0 > pair.0);
            }
        } else {
            assert(grown[i] == found[i - 1]);
            assert(grown[j] == found[j - 1]);
        }
    }
}

/// The grown list mentions what the old list mentions, and the new position.
pub proof fn lemma_placed_mentions(found: Seq<(u128, usize)>, pair: (u128, usize), id: int)
    requires
        ascending(found),
    ensures
        mentions(placed(found, pair), id) <==> (mentions(found, id) || id == pair.1),
{
    lemma_placed_shape(found, pair);
    let at = insertion_point(found, pair.0);
    let grown = placed(found, pair);
    if mentions(grown, id) {
        let m = choose|m: int| 0 <= m < grown.len() && (#[trigger] grown[m]).1 == id;
        if m < at {
            assert(grown[m] == found[m]);
            assert(found[m].1 == id);
        } else if m > at {
            assert(grown[m] == found[m - 1]);
            assert(found[m - 1].1 == id);
        }
    }
    if mentions(found, id) {
        let j = choose|j: int| 0 <= j < found.len() && (#[trigger] found[j]).1 == id;
        if j < at {
            assert(grown[j] == found[j]);
            assert(grown[j].1 == id);
        } else {
            assert(grown[j + 1] == found[j]);
            assert(grown[j + 1].1 == id);
        }
    }
    if id == pair.1 {
        assert(grown[at].1 == id);
    }
}

/// Placing a measured pair keeps the list measured.
pub proof fn lemma_placed_measured(
    points: Seq<Seq<i32>>,
    metric: Metric,
    query: Seq<i32>,
    found: Seq<(u128, usize)>,
    pair: (u128, usize),
)
    requires
        measured(points, metric, query, found),
        ascending(found),
        pair.1 < points.len(),
        pair.0 as int == metric.distance(query, points[pair.1 as int]),
    ensures
        measured(points, metric, query, placed(found, pair)),
{
    lemma_placed_shape(found, pair);
    let at = insertion_point(found, pair.0);
    let grown = placed(found, pair);
    assert forall|m: int| 0 <= m < grown.len() implies (#[trigger] grown[m]).1 < points.len()
        && grown[m].0 as int == metric.distance(query, points[grown[m].1 as int]) by {
        if m < at {
            assert(grown[m] == found[m]);
        } else if m > at {
            assert(grown[m] == found[m - 1]);
        }
    }
}

/// Placing a pair for a position the list does not mention keeps positions
/// distinct.
pub proof fn lemma_placed_distinct(found: Seq<(u128, usize)>, pair: (u128, usize))
    requires
        distinct_positions(found),
        ascending(found),
        !mentions(found, pair.1 as int),
    ensures
        distinct_positions(placed(found, pair)),
{
    lemma_placed_shape(found, pair);
    let at = insertion_point(found, pair.0);
    let grown = placed(found, pair);
    assert forall|i: int, j: int| 0 <= i < j < grown.len() implies (#[trigger] grown[i]).1 != (
    #[trigger] grown[j]).1 by {
        if i < at {
            assert(grown[i] == found[i]);
            if j < at {
                assert(grown[j] == found[j]);
            } else if j > at {
                assert(grown[j] == found[j - 1]);
            }
        } else if i == at {
            assert(grown[j] == found[j - 1]);
        } else {
            assert(grown[i] == found[i - 1]);
            assert(grown[j] == found[j - 1]);
        }
    }
}

/// What holds of a range scan after the first `n` points.
pub open spec fn within_upto(
    points: Seq<Seq<i32>>,
    metric: Metric,
    query: Seq<i32>,
    threshold: u128,
    n: int,
    found: Seq<(u128, usize)>,
) -> bool {
    &&& measured(points, metric, query, found)
    &&& distinct_positions(found)
    &&& ascending(found)
    &&& positions_below(found, n)
    &&& found.len() <= n
    &&& forall|j: int| 0 <= j < found.len() ==> (#[trigger] found[j]).0 < threshold
    &&& forall|id: int|
        0 <= id < n && #[trigger] metric.distance(query, points[id]) < threshold ==> mentions(
            found,
            id,
        )
}

/// What holds of a nearest-neighbour scan after the first `n` points.
pub open spec fn nearest_upto(
    points: Seq<Seq<i32>>,
    metric: Metric,
    query: Seq<i32>,
    qty: usize,
    n: int,
    found: Seq<(u128, usize)>,
) -> bool {
    &&& measured(points, metric, query, found)
    &&& distinct_positions(found)
    &&& ascending(found)
    &&& positions_below(found, n)
    &&& found.len() == if qty <= n {
        qty as int
    } else {
        n
    }
    &&& found.len() < qty ==> forall|id: int| 0 <= id < n ==> mentions(found, id)
    &&& forall|id: int, j: int|
        0 <= id < n && 0 <= j < found.len() && !mentions(found, id) ==> (#[trigger] found[j]).0
            <= #[trigger] metric.distance(query, points[id])
}

/// A distance from a query of `DIMENSIONS` coordinates fits in a `u128`.
pub proof fn lemma_distance_fits(metric: Metric, query: Seq<i32>, point: Seq<i32>)
    requires
        query.len() == DIMENSIONS,
    ensures
        0 <= metric.distance(query, point) <= u128::MAX,
        (metric.distance(query, point) as u128) as int == metric.distance(query, point),
{
    lemma_distance_nonnegative(metric, query, point);
    lemma_distance_bounded(metric, query, point);
}

/// The range scan is a range answer at every step.
pub proof fn lemma_scan_within(
    points: Seq<Seq<i32>>,
    metric: Metric,
    query: Seq<i32>,
    threshold: u128,
    n: int,
)
    requires
        0 <= n <= points.len() <= usize::MAX,
        query.len() == DIMENSIONS,
    ensures
        within_upto(points, metric, query, threshold, n, scan_within(points, metric, query, threshold, n)),
    decreases n,
{
    if n > 0 {
        lemma_scan_within(points, metric, query, threshold, n - 1);
        let before = scan_within(points, metric, query, threshold, n - 1);
        let distance = metric.distance(query, points[n - 1]);
        lemma_distance_fits(metric, query, points[n - 1]);
        let pair = (distance as u128, (n - 1) as usize);
        let after = scan_within(points, metric, query, threshold, n);
        if distance < threshold {
            assert(!mentions(before, n - 1)) by {
                if mentions(before, n - 1) {
                    let j = choose|j: int| 0 <= j < before.len() && (#[trigger] before[j]).1 == n - 1;
                    assert(before[j].1 < n - 1);
                }
            }
            lemma_placed_shape(before, pair);
            lemma_placed_ascending(before, pair);
            lemma_placed_measured(points, metric, query, before, pair);
            lemma_placed_distinct(before, pair);
            let at = insertion_point(before, pair.0);
            assert forall|j: int| 0 <= j < after.len() implies (#[trigger] after[j]).1 < n
                && after[j].0 < threshold by {
                if j < at {
                    assert(after[j] == before[j]);
                } else if j > at {
                    assert(after[j] == before[j - 1]);
                }
            }
            assert forall|id: int|
                0 <= id < n && #[trigger] metric.distance(query, points[id])
                    < threshold implies mentions(after, id) by {
                lemma_placed_mentions(before, pair, id);
            }
        } else {
            assert forall|id: int|
                0 <= id < n && #[trigger] metric.distance(query, points[id])
                    < threshold implies mentions(after, id) by {
                assert(id < n - 1);
            }
        }
    }
}

/// The nearest-neighbour scan is a nearest-neighbour answer at every step.
pub proof fn lemma_scan_nearest(
    points: Seq<Seq<i32>>,
    metric: Metric,
    query: Seq<i32>,
    qty: usize,
    n: int,
)
    requires
        0 <= n <= points.len() <= usize::MAX,
        query.len() == DIMENSIONS,
    ensures
        nearest_upto(points, metric, query, qty, n, scan_nearest(points, metric, query, qty, n)),
    decreases n,
{
    if n > 0 {
        lemma_scan_nearest(points, metric, query, qty, n - 1);
        let before = scan_nearest(points, metric, query, qty, n - 1);
        let distance = metric.distance(query, points[n - 1]);
        lemma_distance_fits(metric, query, points[n - 1]);
        let pair = (distance as u128, (n - 1) as usize);
        let grown = placed(before, pair);
        let after = scan_nearest(points, metric, query, qty, n);
        assert(!mentions(before, n - 1)) by {
            if mentions(before, n - 1) {
                let j = choose|j: int| 0 <= j < before.len() && (#[trigger] before[j]).1 == n - 1;
                assert(before[j].1 < n - 1);
            }
        }
        lemma_placed_shape(before, pair);
        lemma_placed_ascending(before, pair);
        lemma_placed_measured(points, metric, query, before, pair);
        lemma_placed_distinct(before, pair);
        let at = insertion_point(before, pair.0);
        lemma_insertion_point(before, pair.0);
        assert forall|j: int| 0 <= j < grown.len() implies (#[trigger] grown[j]).1 < n by {
            if j < at {
                assert(grown[j] == before[j]);
            } else if j > at {
                assert(grown[j] == before[j - 1]);
            }
        }
        if grown.len() > qty {
            assert(after == grown.drop_last());
            assert(after.len() == qty);
            assert forall|j: int| 0 <= j < after.len() implies #[trigger] after[j] == grown[j] by {}
            let dropped = grown.last();
            assert forall|id: int, j: int|
                0 <= id < n && 0 <= j < after.len() && !mentions(after, id) implies (
            #[trigger] after[j]).0 <= #[trigger] metric.distance(query, points[id]) by {
                assert(after[j] == grown[j]);
                if id == dropped.1 {
                    assert(grown[j].0 <= grown[grown.len() - 1].0);
                } else {
                    lemma_placed_mentions(before, pair, id);
                    if mentions(grown, id) {
                        let m = choose|m: int| 0 <= m < grown.len() && (#[trigger] grown[m]).1 == id;
                        assert(m < after.len());
                        assert(after[m].1 == id);
                    }
                    assert(!mentions(before, id));
                    assert(id < n - 1);
                    if j < at {
                        assert(grown[j] == before[j]);
                    } else if j > at {
                        assert(grown[j] == before[j - 1]);
                    } else {
                        assert(before[at].0 > pair.0);
                    }
                }
            }
        } else {
            assert(after == grown);
            assert forall|id: int| 0 <= id < n implies mentions(after, id) by {
                lemma_placed_mentions(before, pair, id);
            }
        }
    }
}

/// Finds the insertion point of a pair at `distance`.
fn find_insertion_point(found: &Vec<(u128, usize)>, distance: u128) -> (at: usize)
    requires
        ascending(found@),
    ensures
        at as int == insertion_point(found@, distance),
        at <= found@.len(),
{
    let mut at: usize = found.len();
    while at > 0 && found[at - 1].0 > distance
        invariant
            at <= found.len(),
            forall|j: int| at <= j < found.len() ==> (#[trigger] found@[j]).0 > distance,
        decreases at,
    {
        at -= 1;
    }
    proof {
        lemma_insertion_point(found@, distance);
        let expected = insertion_point(found@, distance);
        if at < expected {
            assert(found@[at as int].0 <= distance);
        }
        if expected < at {
            assert(found@[at - 1].0 <= distance);
            assert(found@[expected].0 <= found@[at - 1].0);
        }
    }
    at
}

/// Answers a range query by visiting every sample: the samples whose distance
/// from `query` is strictly below `threshold`, nearest first and in dataset
/// order among equals.
pub fn range_scan(
    data: &Vec<Data>,
    metric: Metric,
    query: &[i32; DIMENSIONS],
    threshold: u128,
) -> (found: Vec<(u128, usize)>)
    ensures
        found@ == scan_within(features_of(data@), metric, query@, threshold, data@.len() as int),
        is_within(features_of(data@), metric, query@, threshold as int, found@),
{
    let ghost points = features_of(data@);
    let mut found: Vec<(u128, usize)> = Vec::new();
    let mut i: usize = 0;
    while i < data.len()
        invariant
            i <= data.len(),
            points == features_of(data@),
            query@.len() == DIMENSIONS,
            found@ == scan_within(points, metric, query@, threshold, i as int),
        decreases data.len() - i,
    {
        proof {
            lemma_scan_within(points, metric, query@, threshold, i as int);
            lemma_distance_fits(metric, query@, points[i as int]);
        }
        let distance: u128 = metric.dist(query, &data[i].features);
        if distance < threshold {
            let at: usize = find_insertion_point(&found, distance);
            found.insert(at, (distance, i));
        }
        i += 1;
    }
    proof {
        lemma_scan_within(points, metric, query@, threshold, data@.len() as int);
    }
    found
}

/// Answers a nearest-neighbour query by visiting every sample: the `qty`
/// samples nearest to `query` (all of them if there are fewer), nearest first,
/// earlier samples preferred among equals.
pub fn nearest_scan(
    data: &Vec<Data>,
    metric: Metric,
    query: &[i32; DIMENSIONS],
    qty: usize,
) -> (found: Vec<(u128, usize)>)
    ensures
        found@ == scan_nearest(features_of(data@), metric, query@, qty, data@.len() as int),
        is_nearest(features_of(data@), metric, query@, found@),
        found@.len() == if qty <= data@.len() {
            qty as int
        } else {
            data@.len() as int
        },
{
    let ghost points = features_of(data@);
    let mut found: Vec<(u128, usize)> = Vec::new();
    let mut i: usize = 0;
    while i < data.len()
        invariant
            i <= data.len(),
            points == features_of(data@),
            query@.len() == DIMENSIONS,
            found@ == scan_nearest(points, metric, query@, qty, i as int),
        decreases data.len() - i,
    {
        proof {
            lemma_scan_nearest(points, metric, query@, qty, i as int);
            lemma_distance_fits(metric, query@, points[i as int]);
        }
        let distance: u128 = metric.dist(query, &data[i].features);
        let at: usize = find_insertion_point(&found, distance);
        found.insert(at, (distance, i));
        if found.len() > qty {
            found.pop();
        }
        i += 1;
    }
    proof {
        lemma_scan_nearest(points, metric, query@, qty, data@.len() as int);
    }
    found
}

} // verus!
