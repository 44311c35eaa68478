//! The order in which neighbours are listed: by distance, and by dataset
//! position among equally distant samples.
//!
//! An answer in this order is the only one of its kind: two ranked answers to
//! the same query are the same list. That is how an answer retrieved from the
//! index, once ranked, is known to be the answer a scan would have given.

use vstd::prelude::*;
use crate::distance_metric::Metric;
use crate::knn::DIMENSIONS;
use crate::neighbours::{
    ascending, distinct_positions, insertion_point, is_within, lemma_distance_fits,
    lemma_insertion_point, lemma_placed_measured, lemma_placed_mentions, lemma_placed_shape,
    lemma_scan_nearest, lemma_scan_within, measured, mentions, placed, positions_below,
    scan_nearest, scan_within,
};

verus! {

/// `first` comes before `second`: it is nearer, or as near and earlier in the
/// dataset.
pub open spec fn lex_less(first: (u128, usize), second: (u128, usize)) -> bool {
    first.0 < second.0 || (first.0 == second.0 && first.1 < second.1)
}

/// `pair` comes before a sample at `distance` and `position`.
pub open spec fn precedes(pair: (u128, usize), distance: int, position: int) -> bool {
    pair.0 < distance || (pair.0 == distance && pair.1 < position)
}

/// Every pair comes before the pairs after it.
pub open spec fn ranked(found: Seq<(u128, usize)>) -> bool {
    forall|i: int, j: int|
        0 <= i < j < found.len() ==> lex_less(#[trigger] found[i], #[trigger] found[j])
}

/// The list holds `pair`.
pub open spec fn holds(found: Seq<(u128, usize)>, pair: (u128, usize)) -> bool {
    exists|j: int| 0 <= j < found.len() && #[trigger] found[j] == pair
}

/// Every pair of the list comes before every sample, among the first `n`, that
/// the list does not mention.
pub open spec fn outranks_rest(
    points: Seq<Seq<i32>>,
    metric: Metric,
    query: Seq<i32>,
    n: int,
    found: Seq<(u128, usize)>,
) -> bool {
    forall|id: int, j: int|
        0 <= id < n && 0 <= j < found.len() && !mentions(found, id) ==> precedes(
            #[trigger] found[j],
            #[trigger] metric.distance(query, points[id]),
            id,
        )
}

/// A ranked answer to a range query.
pub open spec fn is_ranked_within(
    points: Seq<Seq<i32>>,
    metric: Metric,
    query: Seq<i32>,
    threshold: int,
    found: Seq<(u128, usize)>,
) -> bool {
    is_within(points, metric, query, threshold, found) && ranked(found)
}

/// A ranked answer to a nearest-neighbour query: the first `found.len()`
/// samples in the order of this module.
pub open spec fn is_ranked_nearest(
    points: Seq<Seq<i32>>,
    metric: Metric,
    query: Seq<i32>,
    found: Seq<(u128, usize)>,
) -> bool {
    &&& measured(points, metric, query, found)
    &&& ranked(found)
    &&& outranks_rest(points, metric, query, points.len() as int, found)
}

/// A ranked list ascends by distance.
pub proof fn lemma_ranked_ascends(found: Seq<(u128, usize)>)
    requires
        ranked(found),
    ensures
        ascending(found),
{
    assert forall|i: int, j: int| 0 <= i <= j < found.len() implies (#[trigger] found[i]).0 <= (
    #[trigger] found[j]).0 by {
        if i < j {
            assert(lex_less(found[i], found[j]));
        }
    }
}

/// A ranked list of measured pairs mentions no position twice.
pub proof fn lemma_ranked_distinct(
    points: Seq<Seq<i32>>,
    metric: Metric,
    query: Seq<i32>,
    found: Seq<(u128, usize)>,
)
    requires
        ranked(found),
        measured(points, metric, query, found),
    ensures
        distinct_positions(found),
{
    assert forall|i: int, j: int| 0 <= i < j < found.len() implies (#[trigger] found[i]).1 != (
    #[trigger] found[j]).1 by {
        assert(lex_less(found[i], found[j]));
    }
}

/// Placing a pair whose position is later than all positions listed keeps a
/// ranked list ranked.
pub proof fn lemma_placed_ranked(found: Seq<(u128, usize)>, pair: (u128, usize))
    requires
        ranked(found),
        positions_below(found, pair.1 as int),
    ensures
        ranked(placed(found, pair)),
{
    lemma_ranked_ascends(found);
    lemma_insertion_point(found, pair.0);
    lemma_placed_shape(found, pair);
    let at = insertion_point(found, pair.0);
    let grown = placed(found, pair);
    assert forall|i: int, j: int| 0 <= i < j < grown.len() implies lex_less(
        #[trigger] grown[i],
        #[trigger] grown[j],
    ) by {
        if i < at {
            assert(grown[i] == found[i]);
            assert(found[i].0 <= pair.0);
            assert(found[i].1 < pair.1);
            if j < at {
                assert(grown[j] == found[j]);
                assert(lex_less(found[i], found[j]));
            } else if j > at {
                assert(grown[j] == found[j - 1]);
                assert(found[j - 1].0 > pair.0);
            }
        } else if i == at {
            assert(grown[j] == found[j - 1]);
            assert(found[j - 1].0 > pair.0);
        } else {
            assert(grown[i] == found[i - 1]);
            assert(grown[j] == found[j - 1]);
            assert(lex_less(found[i - 1], found[j - 1]));
        }
    }
}

/// A range scan lists its neighbours ranked.
pub proof fn lemma_scan_within_ranked(
    points: Seq<Seq<i32>>,
    metric: Metric,
    query: Seq<i32>,
    threshold: u128,
    n: int,
)
    requires
        0 <= n <= points.len() <= usize::MAX,
        query.len() == DIMENSIONS,
    ensures
        ranked(scan_within(points, metric, query, threshold, n)),
    decreases n,
{
    if n > 0 {
        lemma_scan_within_ranked(points, metric, query, threshold, n - 1);
        lemma_scan_within(points, metric, query, threshold, n - 1);
        let before = scan_within(points, metric, query, threshold, n - 1);
        let distance = metric.distance(query, points[n - 1]);
        if distance < threshold {
            lemma_placed_ranked(before, (distance as u128, (n - 1) as usize));
        }
    }
}

/// A nearest-neighbour scan lists its neighbours ranked, and they come before
/// every sample it leaves out.
pub proof fn lemma_scan_nearest_ranked(
    points: Seq<Seq<i32>>,
    metric: Metric,
    query: Seq<i32>,
    qty: usize,
    n: int,
)
    requires
        0 <= n <= points.len() <= usize::MAX,
        query.len() == DIMENSIONS,
    ensures
        ranked(scan_nearest(points, metric, query, qty, n)),
        outranks_rest(points, metric, query, n, scan_nearest(points, metric, query, qty, n)),
    decreases n,
{
    if n > 0 {
        lemma_scan_nearest_ranked(points, metric, query, qty, n - 1);
        lemma_scan_nearest(points, metric, query, qty, n - 1);
        lemma_scan_nearest(points, metric, query, qty, n);
        lemma_distance_fits(metric, query, points[n - 1]);
        let before = scan_nearest(points, metric, query, qty, n - 1);
        let distance = metric.distance(query, points[n - 1]);
        let pair = (distance as u128, (n - 1) as usize);
        let grown = placed(before, pair);
        let after = scan_nearest(points, metric, query, qty, n);
        lemma_placed_ranked(before, pair);
        lemma_placed_shape(before, pair);
        lemma_placed_measured(points, metric, query, before, pair);
        lemma_insertion_point(before, pair.0);
        let at = insertion_point(before, pair.0);
        if grown.len() > qty {
            assert(after == grown.drop_last());
            assert forall|j: int| 0 <= j < after.len() implies #[trigger] after[j] == grown[j] by {}
            assert forall|id: int, j: int|
                0 <= id < n && 0 <= j < after.len() && !mentions(after, id) implies precedes(
                #[trigger] after[j],
                #[trigger] metric.distance(query, points[id]),
                id,
            ) by {
                assert(after[j] == grown[j]);
                lemma_placed_mentions(before, pair, id);
                if mentions(grown, id) {
                    let m = choose|m: int| 0 <= m < grown.len() && (#[trigger] grown[m]).1 == id;
                    if m < after.len() {
                        assert(after[m].1 == id);
                    }
                    assert(lex_less(grown[j], grown[m]));
                } else {
                    if j < at {
                        assert(grown[j] == before[j]);
                    } else if j > at {
                        assert(grown[j] == before[j - 1]);
                    } else {
                        assert(before[at].0 > pair.0);
                        assert(precedes(before[at], metric.distance(query, points[id]), id));
                    }
                }
            }
        } else {
            assert(after == grown);
            assert forall|id: int| 0 <= id < n implies mentions(after, id) by {
                lemma_placed_mentions(before, pair, id);
            }
        }
    }
}

/// Two ranked lists of measured pairs that agree up to a place, and mention
/// the same positions, agree at that place too.
proof fn lemma_same_members_agree(
    points: Seq<Seq<i32>>,
    metric: Metric,
    query: Seq<i32>,
    first: Seq<(u128, usize)>,
    second: Seq<(u128, usize)>,
    place: int,
)
    requires
        measured(points, metric, query, first),
        measured(points, metric, query, second),
        ranked(first),
        ranked(second),
        forall|id: int| mentions(first, id) ==> mentions(second, id),
        forall|id: int| mentions(second, id) ==> mentions(first, id),
        0 <= place <= first.len(),
    ensures
        place <= second.len(),
        forall|i: int| 0 <= i < place ==> first[i] == second[i],
    decreases place,
{
    if place > 0 {
        let t = place - 1;
        lemma_same_members_agree(points, metric, query, first, second, t);
        assert(mentions(first, first[t].1 as int));
        let m = choose|m: int| 0 <= m < second.len() && (#[trigger] second[m]).1 == first[t].1;
        assert(second[m] == first[t]);
        if m < t {
            assert(first[m] == second[m]);
            assert(lex_less(first[m], first[t]));
        }
        if m > t {
            assert(lex_less(second[t], second[m]));
            assert(mentions(second, second[t].1 as int));
            let back = choose|back: int|
                0 <= back < first.len() && (#[trigger] first[back]).1 == second[t].1;
            assert(first[back] == second[t]);
            if back < t {
                assert(first[back] == second[back]);
                assert(lex_less(second[back], second[t]));
            }
            if back > t {
                assert(lex_less(first[t], first[back]));
            }
        }
    }
}

/// A range query has one ranked answer.
pub proof fn lemma_ranked_within_unique(
    points: Seq<Seq<i32>>,
    metric: Metric,
    query: Seq<i32>,
    threshold: int,
    first: Seq<(u128, usize)>,
    second: Seq<(u128, usize)>,
)
    requires
        is_ranked_within(points, metric, query, threshold, first),
        is_ranked_within(points, metric, query, threshold, second),
    ensures
        first == second,
{
    assert forall|id: int| mentions(first, id) implies mentions(second, id) by {
        let j = choose|j: int| 0 <= j < first.len() && (#[trigger] first[j]).1 == id;
        assert(first[j].0 < threshold);
        assert(metric.distance(query, points[id]) < threshold);
    }
    assert forall|id: int| mentions(second, id) implies mentions(first, id) by {
        let j = choose|j: int| 0 <= j < second.len() && (#[trigger] second[j]).1 == id;
        assert(second[j].0 < threshold);
        assert(metric.distance(query, points[id]) < threshold);
    }
    lemma_same_members_agree(points, metric, query, first, second, first.len() as int);
    lemma_same_members_agree(points, metric, query, second, first, second.len() as int);
    assert(first =~= second);
}

/// Of two ranked nearest-neighbour answers that agree up to a place, the
/// first does not come first at that place.
proof fn lemma_no_first_difference(
    points: Seq<Seq<i32>>,
    metric: Metric,
    query: Seq<i32>,
    first: Seq<(u128, usize)>,
    second: Seq<(u128, usize)>,
    t: int,
)
    requires
        is_ranked_nearest(points, metric, query, first),
        is_ranked_nearest(points, metric, query, second),
        0 <= t < first.len(),
        t < second.len(),
        forall|i: int| 0 <= i < t ==> first[i] == second[i],
    ensures
        !lex_less(first[t], second[t]),
{
    if lex_less(first[t], second[t]) {
        let id = first[t].1 as int;
        if mentions(second, id) {
            let m = choose|m: int| 0 <= m < second.len() && (#[trigger] second[m]).1 == id;
            assert(second[m] == first[t]);
            if m < t {
                assert(first[m] == second[m]);
                assert(lex_less(first[m], first[t]));
            }
            if m > t {
                assert(lex_less(second[t], second[m]));
            }
        } else {
            assert(precedes(second[t], metric.distance(query, points[id]), id));
        }
    }
}

/// Two ranked nearest-neighbour answers of one length agree up to every place.
proof fn lemma_nearest_agree(
    points: Seq<Seq<i32>>,
    metric: Metric,
    query: Seq<i32>,
    first: Seq<(u128, usize)>,
    second: Seq<(u128, usize)>,
    place: int,
)
    requires
        is_ranked_nearest(points, metric, query, first),
        is_ranked_nearest(points, metric, query, second),
        first.len() == second.len(),
        0 <= place <= first.len(),
    ensures
        forall|i: int| 0 <= i < place ==> first[i] == second[i],
    decreases place,
{
    if place > 0 {
        let t = place - 1;
        lemma_nearest_agree(points, metric, query, first, second, t);
        lemma_no_first_difference(points, metric, query, first, second, t);
        lemma_no_first_difference(points, metric, query, second, first, t);
    }
}

/// A nearest-neighbour query has one ranked answer of each length.
pub proof fn lemma_ranked_nearest_unique(
    points: Seq<Seq<i32>>,
    metric: Metric,
    query: Seq<i32>,
    first: Seq<(u128, usize)>,
    second: Seq<(u128, usize)>,
)
    requires
        is_ranked_nearest(points, metric, query, first),
        is_ranked_nearest(points, metric, query, second),
        first.len() == second.len(),
    ensures
        first == second,
{
    lemma_nearest_agree(points, metric, query, first, second, first.len() as int);
    assert(first =~= second);
}

/// A list that mentions every position of a list without repeats is at least
/// as long.
pub proof fn lemma_mentioned_count(first: Seq<(u128, usize)>, second: Seq<(u128, usize)>)
    requires
        distinct_positions(first),
        forall|j: int| 0 <= j < first.len() ==> mentions(second, (#[trigger] first[j]).1 as int),
    ensures
        first.len() <= second.len(),
    decreases first.len(),
{
    if first.len() > 0 {
        let last = first.last();
        assert(mentions(second, first[first.len() - 1].1 as int));
        let m = choose|m: int| 0 <= m < second.len() && (#[trigger] second[m]).1 == last.1;
        let shorter = first.drop_last();
        let rest = second.remove(m);
        assert forall|j: int| 0 <= j < shorter.len() implies mentions(
            rest,
            (#[trigger] shorter[j]).1 as int,
        ) by {
            assert(shorter[j] == first[j]);
            assert(first[j].1 != first[first.len() - 1].1);
            assert(mentions(second, first[j].1 as int));
            let at = choose|at: int| 0 <= at < second.len() && (#[trigger] second[at]).1 == first[j].1;
            if at < m {
                assert(rest[at] == second[at]);
                assert(rest[at].1 == shorter[j].1);
            } else {
                assert(rest[at - 1] == second[at]);
                assert(rest[at - 1].1 == shorter[j].1);
            }
        }
        assert forall|i: int, j: int| 0 <= i < j < shorter.len() implies (#[trigger] shorter[i]).1
            != (#[trigger] shorter[j]).1 by {
            assert(shorter[i] == first[i]);
            assert(shorter[j] == first[j]);
        }
        lemma_mentioned_count(shorter, rest);
    }
}

/// One of the first `n` pairs of the list is `pair`.
pub open spec fn holds_among(found: Seq<(u128, usize)>, n: int, pair: (u128, usize)) -> bool {
    exists|j: int| 0 <= j < n && j < found.len() && #[trigger] found[j] == pair
}

/// Ranks a list that mentions no position twice: returns its pairs in order of
/// distance, and of position among equally distant ones.
pub fn rank(found: &Vec<(u128, usize)>) -> (sorted: Vec<(u128, usize)>)
    requires
        distinct_positions(found@),
    ensures
        sorted@.len() == found@.len(),
        ranked(sorted@),
        forall|m: int| 0 <= m < sorted@.len() ==> holds(found@, #[trigger] sorted@[m]),
        forall|j: int| 0 <= j < found@.len() ==> holds(sorted@, #[trigger] found@[j]),
{
    let mut sorted: Vec<(u128, usize)> = Vec::new();
    let mut i: usize = 0;
    while i < found.len()
        invariant
            i <= found@.len(),
            distinct_positions(found@),
            sorted@.len() == i,
            ranked(sorted@),
            forall|m: int|
                0 <= m < sorted@.len() ==> holds_among(found@, i as int, #[trigger] sorted@[m]),
            forall|j: int| 0 <= j < i ==> holds(sorted@, #[trigger] found@[j]),
        decreases found@.len() - i,
    {
        let pair: (u128, usize) = found[i];
        let mut at: usize = sorted.len();
        while at > 0 && (pair.0 < sorted[at - 1].0 || (pair.0 == sorted[at - 1].0 && pair.1
            < sorted[at - 1].1))
            invariant
                at <= sorted@.len(),
                forall|m: int| at <= m < sorted@.len() ==> lex_less(pair, #[trigger] sorted@[m]),
            decreases at,
        {
            at -= 1;
        }
        let ghost before = sorted@;
        sorted.insert(at, pair);
        proof {
            let after = sorted@;
            assert forall|m: int| 0 <= m < before.len() implies (#[trigger] before[m]).1
                != pair.1 by {
                let j = choose|j: int| 0 <= j < i && j < found@.len() && found@[j] == before[m];
                assert(found@[j].1 != found@[i as int].1);
            }
            assert forall|m: int| 0 <= m < at implies lex_less(#[trigger] before[m], pair) by {
                assert(!lex_less(pair, before[at - 1]));
                assert(before[at - 1].1 != pair.1);
                if m < at - 1 {
                    assert(lex_less(before[m], before[at - 1]));
                }
            }
            assert forall|a: int, b: int| 0 <= a < b < after.len() implies lex_less(
                #[trigger] after[a],
                #[trigger] after[b],
            ) by {
                if a < at {
                    assert(after[a] == before[a]);
                    if b < at {
                        assert(after[b] == before[b]);
                        assert(lex_less(before[a], before[b]));
                    } else if b > at {
                        assert(after[b] == before[b - 1]);
                        assert(lex_less(before[a], pair));
                        assert(lex_less(pair, before[b - 1]));
                    }
                } else if a == at {
                    assert(after[b] == before[b - 1]);
                } else {
                    assert(after[a] == before[a - 1]);
                    assert(after[b] == before[b - 1]);
                    assert(lex_less(before[a - 1], before[b - 1]));
                }
            }
            assert forall|m: int| 0 <= m < after.len() implies holds_among(
                found@,
                i as int + 1,
                #[trigger] after[m],
            ) by {
                if m < at {
                    assert(after[m] == before[m]);
                    assert(holds_among(found@, i as int, before[m]));
                } else if m > at {
                    assert(after[m] == before[m - 1]);
                    assert(holds_among(found@, i as int, before[m - 1]));
                } else {
                    assert(found@[i as int] == after[m]);
                }
            }
            assert forall|j: int| 0 <= j < i + 1 implies holds(after, #[trigger] found@[j]) by {
                if j < i {
                    assert(holds(before, found@[j]));
                    let m = choose|m: int| 0 <= m < before.len() && before[m] == found@[j];
                    if m < at {
                        assert(after[m] == found@[j]);
                    } else {
                        assert(after[m + 1] == found@[j]);
                    }
                } else {
                    assert(after[at as int] == found@[j]);
                }
            }
        }
        i += 1;
    }
    proof {
        assert forall|m: int| 0 <= m < sorted@.len() implies holds(found@, #[trigger] sorted@[m]) by {
            assert(holds_among(found@, i as int, sorted@[m]));
        }
    }
    sorted
}

/// Ranking a range answer gives the ranked range answer.
pub proof fn lemma_rank_keeps_within(
    points: Seq<Seq<i32>>,
    metric: Metric,
    query: Seq<i32>,
    threshold: int,
    found: Seq<(u128, usize)>,
    sorted: Seq<(u128, usize)>,
)
    requires
        is_within(points, metric, query, threshold, found),
        sorted.len() == found.len(),
        ranked(sorted),
        forall|m: int| 0 <= m < sorted.len() ==> holds(found, #[trigger] sorted[m]),
        forall|j: int| 0 <= j < found.len() ==> holds(sorted, #[trigger] found[j]),
    ensures
        is_ranked_within(points, metric, query, threshold, sorted),
{
    assert forall|m: int| 0 <= m < sorted.len() implies (#[trigger] sorted[m]).1 < points.len()
        && sorted[m].0 as int == metric.distance(query, points[sorted[m].1 as int])
        && sorted[m].0 < threshold by {
        assert(holds(found, sorted[m]));
        let j = choose|j: int| 0 <= j < found.len() && found[j] == sorted[m];
        assert(found[j].1 < points.len());
    }
    lemma_ranked_ascends(sorted);
    lemma_ranked_distinct(points, metric, query, sorted);
    assert forall|id: int|
        0 <= id < points.len() && #[trigger] metric.distance(query, points[id])
            < threshold implies mentions(sorted, id) by {
        assert(mentions(found, id));
        let j = choose|j: int| 0 <= j < found.len() && (#[trigger] found[j]).1 == id;
        assert(holds(sorted, found[j]));
        let m = choose|m: int| 0 <= m < sorted.len() && sorted[m] == found[j];
        assert(sorted[m].1 == id);
    }
}

/// The first `qty` pairs of a ranked range answer are the ranked answer to the
/// nearest-neighbour query for `qty` samples.
pub proof fn lemma_ranked_within_leads(
    points: Seq<Seq<i32>>,
    metric: Metric,
    query: Seq<i32>,
    threshold: int,
    sorted: Seq<(u128, usize)>,
    qty: int,
)
    requires
        is_ranked_within(points, metric, query, threshold, sorted),
        0 <= qty <= sorted.len(),
    ensures
        is_ranked_nearest(points, metric, query, sorted.subrange(0, qty)),
{
    let taken = sorted.subrange(0, qty);
    assert forall|j: int| 0 <= j < taken.len() implies #[trigger] taken[j] == sorted[j] by {}
    assert forall|i: int, j: int| 0 <= i < j < taken.len() implies lex_less(
        #[trigger] taken[i],
        #[trigger] taken[j],
    ) by {
        assert(lex_less(sorted[i], sorted[j]));
    }
    assert forall|j: int| 0 <= j < taken.len() implies (#[trigger] taken[j]).1 < points.len()
        && taken[j].0 as int == metric.distance(query, points[taken[j].1 as int]) by {
        assert(taken[j] == sorted[j]);
        assert(sorted[j].1 < points.len());
    }
    assert forall|id: int, j: int|
        0 <= id < points.len() && 0 <= j < taken.len() && !mentions(taken, id) implies precedes(
        #[trigger] taken[j],
        #[trigger] metric.distance(query, points[id]),
        id,
    ) by {
        assert(taken[j] == sorted[j]);
        assert(sorted[j].0 < threshold);
        if mentions(sorted, id) {
            let m = choose|m: int| 0 <= m < sorted.len() && (#[trigger] sorted[m]).1 == id;
            if m < qty {
                assert(taken[m].1 == id);
            }
            assert(lex_less(sorted[j], sorted[m]));
        }
    }
}

} // verus!
