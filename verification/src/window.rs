//! Windows: which samples count as the neighbours of a query.
//!
//! A `Fixed` window takes every sample strictly inside a radius; an `Unfixed`
//! window takes the `k` nearest samples. The neighbours of a query are defined
//! as what a scan of the dataset finds. The classifier retrieves them from the
//! index where it serves, and ranks them, which gives the same list.

use vstd::prelude::*;
use crate::distance_metric::{lemma_distance_bounded, Metric};
use crate::index::MAX_THRESHOLD;
use crate::knn::{Hyperparameters, WindowType, DIMENSIONS};
use crate::neighbours::{
    ascending, distinct_positions, is_nearest, is_within, lemma_scan_nearest, lemma_scan_within,
    mentions, scan_nearest, scan_within, strictly_ascending,
};
use crate::ranking::{lemma_scan_nearest_ranked, lemma_scan_within_ranked, ranked};
use crate::scale::{lemma_floor_sqrt_below, true_distance};

verus! {

/// The radius in the metric's own space: squared for the squared Euclidean
/// metric, unchanged otherwise.
pub open spec fn native_threshold(metric: Metric, radius: u64) -> int {
    match metric {
        Metric::SquaredEuclidean => radius * radius,
        _ => radius as int,
    }
}

/// The threshold handed to a range query: the native threshold, cut off at the
/// largest value the index accepts. No distance reaches that value, so the cut
/// never changes an answer.
pub open spec fn query_threshold(metric: Metric, radius: u64) -> u128 {
    if native_threshold(metric, radius) <= MAX_THRESHOLD {
        native_threshold(metric, radius) as u128
    } else {
        MAX_THRESHOLD
    }
}

/// The number of neighbours an `Unfixed` window asks for: `k`, or the number of
/// samples if that is smaller.
pub open spec fn wanted(k: usize, count: nat) -> usize {
    if k <= count {
        k
    } else {
        count as usize
    }
}

/// The neighbours of `query` among `points` under the given settings: pairs of
/// distance, in the metric's own space, and position, nearest first, and in
/// dataset order among equally distant samples. Of the samples that tie for
/// the last place of an `Unfixed` window, the earlier ones are taken.
pub open spec fn neighbourhood(hyper: Hyperparameters, points: Seq<Seq<i32>>, query: Seq<i32>)
    -> Seq<(u128, usize)> {
    match hyper.window {
        WindowType::Fixed => scan_within(
            points,
            hyper.metric,
            query,
            query_threshold(hyper.metric, hyper.radius),
            points.len() as int,
        ),
        WindowType::Unfixed => scan_nearest(
            points,
            hyper.metric,
            query,
            wanted(hyper.k, points.len()),
            points.len() as int,
        ),
    }
}

/// The scale distances are normalized by: the radius, in the metric's own
/// space, for a `Fixed` window; the distance of the farthest neighbour for an
/// `Unfixed` one.
pub open spec fn window_scale(hyper: Hyperparameters, found: Seq<(u128, usize)>) -> int {
    match hyper.window {
        WindowType::Fixed => native_threshold(hyper.metric, hyper.radius),
        WindowType::Unfixed => if found.len() == 0 {
            0
        } else {
            found.last().0 as int
        },
    }
}

/// The settings name a usable window: a positive radius for `Fixed`, a
/// positive `k` for `Unfixed`.
pub open spec fn usable_window(hyper: Hyperparameters) -> bool {
    match hyper.window {
        WindowType::Fixed => hyper.radius > 0,
        WindowType::Unfixed => hyper.k >= 1,
    }
}

/// What the neighbours of a query are guaranteed to be: for a `Fixed` window,
/// exactly the samples strictly inside the radius; for an `Unfixed` window,
/// `k` samples (all of them if there are fewer) such that no sample left out
/// is closer than one taken. Either way they are listed nearest first, without
/// repeats, each with its distance.
pub open spec fn answers_window(
    hyper: Hyperparameters,
    points: Seq<Seq<i32>>,
    query: Seq<i32>,
    found: Seq<(u128, usize)>,
) -> bool {
    match hyper.window {
        WindowType::Fixed => is_within(
            points,
            hyper.metric,
            query,
            native_threshold(hyper.metric, hyper.radius),
            found,
        ),
        WindowType::Unfixed => is_nearest(points, hyper.metric, query, found) && found.len()
            == wanted(hyper.k, points.len()),
    }
}

/// Every neighbour taken by a `Fixed` window is a sample whose distance from
/// the query is strictly below the radius, both in the metric's own space.
pub proof fn lemma_fixed_window_inside_radius(
    hyper: Hyperparameters,
    points: Seq<Seq<i32>>,
    query: Seq<i32>,
    found: Seq<(u128, usize)>,
    j: int,
)
    requires
        hyper.window == WindowType::Fixed,
        answers_window(hyper, points, query, found),
        0 <= j < found.len(),
    ensures
        found[j].1 < points.len(),
        found[j].0 as int == hyper.metric.distance(query, points[found[j].1 as int]),
        hyper.metric.distance(query, points[found[j].1 as int]) < native_threshold(
            hyper.metric,
            hyper.radius,
        ),
{
}

/// Every neighbour taken by a `Fixed` window has a true distance from the
/// query strictly below the radius.
pub proof fn lemma_fixed_window_true_distance(
    hyper: Hyperparameters,
    points: Seq<Seq<i32>>,
    query: Seq<i32>,
    found: Seq<(u128, usize)>,
    j: int,
)
    requires
        hyper.window == WindowType::Fixed,
        answers_window(hyper, points, query, found),
        0 <= j < found.len(),
    ensures
        true_distance(hyper.metric, found[j].0 as int) < hyper.radius,
{
    if hyper.metric == Metric::SquaredEuclidean {
        lemma_floor_sqrt_below(found[j].0 as int, hyper.radius as int);
    }
}

/// A `Fixed` window leaves out no sample whose distance from the query is
/// strictly below the radius.
pub proof fn lemma_fixed_window_complete(
    hyper: Hyperparameters,
    points: Seq<Seq<i32>>,
    query: Seq<i32>,
    found: Seq<(u128, usize)>,
    id: int,
)
    requires
        hyper.window == WindowType::Fixed,
        answers_window(hyper, points, query, found),
        0 <= id < points.len(),
        hyper.metric.distance(query, points[id]) < native_threshold(hyper.metric, hyper.radius),
    ensures
        mentions(found, id),
{
}

/// Where at least `k` samples exist, an `Unfixed` window takes exactly `k`
/// neighbours, in ascending order of distance and without repeating a sample.
pub proof fn lemma_unfixed_window_takes_k(
    hyper: Hyperparameters,
    points: Seq<Seq<i32>>,
    query: Seq<i32>,
    found: Seq<(u128, usize)>,
)
    requires
        hyper.window == WindowType::Unfixed,
        answers_window(hyper, points, query, found),
        hyper.k <= points.len(),
    ensures
        found.len() == hyper.k,
        ascending(found),
        distinct_positions(found),
{
}

/// Where no two samples are equally far from the query, the distances of the
/// neighbours taken by an `Unfixed` window strictly ascend.
pub proof fn lemma_unfixed_window_strictly_ascends(
    hyper: Hyperparameters,
    points: Seq<Seq<i32>>,
    query: Seq<i32>,
    found: Seq<(u128, usize)>,
)
    requires
        hyper.window == WindowType::Unfixed,
        answers_window(hyper, points, query, found),
        forall|a: int, b: int|
            0 <= a < b < points.len() ==> hyper.metric.distance(query, points[a])
                != hyper.metric.distance(query, points[b]),
    ensures
        strictly_ascending(found),
{
    assert forall|i: int, j: int| 0 <= i < j < found.len() implies (#[trigger] found[i]).0 < (
    #[trigger] found[j]).0 by {
        let a = found[i].1 as int;
        let b = found[j].1 as int;
        assert(found[i].0 <= found[j].0);
        assert(a != b);
        if a < b {
            assert(hyper.metric.distance(query, points[a]) != hyper.metric.distance(
                query,
                points[b],
            ));
        } else {
            assert(hyper.metric.distance(query, points[b]) != hyper.metric.distance(
                query,
                points[a],
            ));
        }
    }
}

/// No sample left out by an `Unfixed` window is closer to the query than a
/// neighbour it took.
pub proof fn lemma_unfixed_window_nearest(
    hyper: Hyperparameters,
    points: Seq<Seq<i32>>,
    query: Seq<i32>,
    found: Seq<(u128, usize)>,
    id: int,
    j: int,
)
    requires
        hyper.window == WindowType::Unfixed,
        answers_window(hyper, points, query, found),
        0 <= id < points.len(),
        0 <= j < found.len(),
        !mentions(found, id),
    ensures
        found[j].0 <= hyper.metric.distance(query, points[id]),
{
}

/// Cutting the threshold off at what the index accepts changes no answer to
/// a range query.
pub proof fn lemma_within_native(
    points: Seq<Seq<i32>>,
    metric: Metric,
    radius: u64,
    query: Seq<i32>,
    found: Seq<(u128, usize)>,
)
    requires
        query.len() == DIMENSIONS,
        is_within(points, metric, query, query_threshold(metric, radius) as int, found),
    ensures
        is_within(points, metric, query, native_threshold(metric, radius), found),
{
    let native = native_threshold(metric, radius);
    assert(0 <= native) by (nonlinear_arith)
        requires
            native == radius * radius || native == radius,
            0 <= radius,
    ;
    if native > MAX_THRESHOLD {
        assert forall|id: int|
            0 <= id < points.len() && #[trigger] metric.distance(query, points[id])
                < native implies mentions(found, id) by {
            lemma_distance_bounded(metric, query, points[id]);
        }
    }
}

/// Computes the radius in the metric's own space.
pub fn native_radius(metric: Metric, radius: u64) -> (threshold: u128)
    ensures
        threshold as int == native_threshold(metric, radius),
{
    match metric {
        Metric::SquaredEuclidean => {
            let wide: u128 = radius as u128;
            assert(wide * wide <= 0xffff_ffff_ffff_ffff * 0xffff_ffff_ffff_ffff)
                by (nonlinear_arith)
                requires
                    wide <= 0xffff_ffff_ffff_ffff,
            ;
            wide * wide
        },
        _ => radius as u128,
    }
}

/// The neighbours of a query are what its window guarantees.
pub proof fn lemma_neighbourhood_answers(
    hyper: Hyperparameters,
    points: Seq<Seq<i32>>,
    query: Seq<i32>,
)
    requires
        points.len() <= usize::MAX,
        query.len() == DIMENSIONS,
    ensures
        answers_window(hyper, points, query, neighbourhood(hyper, points, query)),
{
    let found = neighbourhood(hyper, points, query);
    match hyper.window {
        WindowType::Fixed => {
            let threshold = query_threshold(hyper.metric, hyper.radius);
            lemma_scan_within(points, hyper.metric, query, threshold, points.len() as int);
            lemma_within_native(points, hyper.metric, hyper.radius, query, found);
        },
        WindowType::Unfixed => {
            lemma_scan_nearest(
                points,
                hyper.metric,
                query,
                wanted(hyper.k, points.len()),
                points.len() as int,
            );
        },
    }
}

/// The neighbours of a query are ranked: each is nearer than the next, or as
/// near and earlier in the dataset.
pub proof fn lemma_neighbourhood_ranked(
    hyper: Hyperparameters,
    points: Seq<Seq<i32>>,
    query: Seq<i32>,
)
    requires
        points.len() <= usize::MAX,
        query.len() == DIMENSIONS,
    ensures
        ranked(neighbourhood(hyper, points, query)),
{
    match hyper.window {
        WindowType::Fixed => {
            lemma_scan_within_ranked(
                points,
                hyper.metric,
                query,
                query_threshold(hyper.metric, hyper.radius),
                points.len() as int,
            );
        },
        WindowType::Unfixed => {
            lemma_scan_nearest_ranked(
                points,
                hyper.metric,
                query,
                wanted(hyper.k, points.len()),
                points.len() as int,
            );
        },
    }
}

} // verus!
