//! Distance metrics between integer feature vectors.
//!
//! Every metric is defined as a fold over the per-coordinate absolute
//! differences. Distances are returned as `u128`, wide enough for any vector
//! length and any `i32` coordinates, so no metric needs a precondition.

use vstd::prelude::*;

verus! {

/// `|x - y|` over the mathematical integers.
pub open spec fn abs_diff(x: int, y: int) -> int {
    if x >= y {
        x - y
    } else {
        y - x
    }
}

/// Sum of the absolute coordinate differences over the first `n` coordinates.
pub open spec fn manhattan_upto(a: Seq<i32>, b: Seq<i32>, n: int) -> int
    decreases n,
{
    if n <= 0 {
        0
    } else {
        manhattan_upto(a, b, n - 1) + abs_diff(a[n - 1] as int, b[n - 1] as int)
    }
}

/// Sum of the squared coordinate differences over the first `n` coordinates.
pub open spec fn squared_euclidean_upto(a: Seq<i32>, b: Seq<i32>, n: int) -> int
    decreases n,
{
    if n <= 0 {
        0
    } else {
        squared_euclidean_upto(a, b, n - 1) + abs_diff(a[n - 1] as int, b[n - 1] as int) * abs_diff(
            a[n - 1] as int,
            b[n - 1] as int,
        )
    }
}

/// Largest absolute coordinate difference over the first `n` coordinates.
pub open spec fn chebyshev_upto(a: Seq<i32>, b: Seq<i32>, n: int) -> int
    decreases n,
{
    if n <= 0 {
        0
    } else {
        let rest = chebyshev_upto(a, b, n - 1);
        let here = abs_diff(a[n - 1] as int, b[n - 1] as int);
        if here > rest {
            here
        } else {
            rest
        }
    }
}

/// Manhattan distance: the sum of `|a[i] - b[i]|`.
pub open spec fn manhattan(a: Seq<i32>, b: Seq<i32>) -> int {
    manhattan_upto(a, b, a.len() as int)
}

/// Squared Euclidean distance: the sum of `(a[i] - b[i])^2`, with no square
/// root taken.
pub open spec fn squared_euclidean(a: Seq<i32>, b: Seq<i32>) -> int {
    squared_euclidean_upto(a, b, a.len() as int)
}

/// Chebyshev distance: the maximum of `|a[i] - b[i]|`.
pub open spec fn chebyshev(a: Seq<i32>, b: Seq<i32>) -> int {
    chebyshev_upto(a, b, a.len() as int)
}

/// The absolute difference of two coordinates, computed without overflow.
pub fn coordinate_gap(x: i32, y: i32) -> (gap: u32)
    ensures
        gap as int == abs_diff(x as int, y as int),
{
    if x >= y {
        let wide: i64 = x as i64 - y as i64;
        wide as u32
    } else {
        let wide: i64 = y as i64 - x as i64;
        wide as u32
    }
}

/// The Chebyshev (maximum-coordinate) metric.
pub struct Chebyshev {}

impl Chebyshev {
    /// The largest absolute coordinate difference between the two vectors.
    pub fn dist<const K: usize>(first: &[i32; K], second: &[i32; K]) -> (distance: u128)
        ensures
            distance as int == chebyshev(first@, second@),
    {
        let mut best: u32 = 0;
        let mut i: usize = 0;
        while i < K
            invariant
                i <= K,
                first@.len() == K,
                second@.len() == K,
                best as int == chebyshev_upto(first@, second@, i as int),
            decreases K - i,
        {
            let gap: u32 = coordinate_gap(first[i], second[i]);
            if gap > best {
                best = gap;
            }
            i += 1;
        }
        best as u128
    }

    /// The single-axis form of the metric: `|first - second|`.
    pub fn dist1(first: i32, second: i32) -> (distance: u128)
        ensures
            distance as int == abs_diff(first as int, second as int),
    {
        coordinate_gap(first, second) as u128
    }
}

/// The closed set of metrics a classifier can be built with.
#[derive(Clone, Copy, Debug, PartialEq, Eq, Structural)]
pub enum Metric {
    /// Sum of absolute coordinate differences.
    Manhattan,
    /// Sum of squared coordinate differences; the square root is never taken.
    SquaredEuclidean,
    /// Largest absolute coordinate difference.
    Chebyshev,
}

impl Metric {
    /// The distance this metric assigns to a pair of vectors.
    pub open spec fn distance(self, a: Seq<i32>, b: Seq<i32>) -> int {
        match self {
            Metric::Manhattan => manhattan(a, b),
            Metric::SquaredEuclidean => squared_euclidean(a, b),
            Metric::Chebyshev => chebyshev(a, b),
        }
    }

    /// The distance this metric assigns to a pair of single coordinates: the
    /// metric applied to one-dimensional vectors.
    pub open spec fn distance1(self, x: i32, y: i32) -> int {
        match self {
            Metric::SquaredEuclidean => abs_diff(x as int, y as int) * abs_diff(x as int, y as int),
            _ => abs_diff(x as int, y as int),
        }
    }

    /// Computes the distance between two vectors.
    pub fn dist<const K: usize>(&self, first: &[i32; K], second: &[i32; K]) -> (distance: u128)
        ensures
            distance as int == self.distance(first@, second@),
    {
        match self {
            Metric::Manhattan => manhattan_dist(first, second),
            Metric::SquaredEuclidean => squared_euclidean_dist(first, second),
            Metric::Chebyshev => Chebyshev::dist(first, second),
        }
    }

    /// Computes the single-axis distance between two coordinates.
    pub fn dist1(&self, first: i32, second: i32) -> (distance: u128)
        ensures
            distance as int == self.distance1(first, second),
    {
        let gap: u128 = coordinate_gap(first, second) as u128;
        match self {
            Metric::SquaredEuclidean => {
                assert(gap * gap <= 0xffff_ffff * 0xffff_ffff) by (nonlinear_arith)
                    requires
                        gap <= 0xffff_ffff,
                ;
                gap * gap
            },
            _ => gap,
        }
    }
}

/// Computes the Manhattan distance between two vectors.
pub fn manhattan_dist<const K: usize>(first: &[i32; K], second: &[i32; K]) -> (distance: u128)
    ensures
        distance as int == manhattan(first@, second@),
{
    let mut total: u128 = 0;
    let mut i: usize = 0;
    while i < K
        invariant
            i <= K,
            first@.len() == K,
            second@.len() == K,
            total as int == manhattan_upto(first@, second@, i as int),
            total <= i * 0xffff_ffff,
        decreases K - i,
    {
        let gap: u32 = coordinate_gap(first[i], second[i]);
        total = total + gap as u128;
        i += 1;
    }
    total
}

/// Computes the squared Euclidean distance between two vectors.
pub fn squared_euclidean_dist<const K: usize>(first: &[i32; K], second: &[i32; K]) -> (distance:
    u128)
    ensures
        distance as int == squared_euclidean(first@, second@),
{
    let mut total: u128 = 0;
    let mut i: usize = 0;
    while i < K
        invariant
            i <= K,
            first@.len() == K,
            second@.len() == K,
            total as int == squared_euclidean_upto(first@, second@, i as int),
            total <= i * 0xffff_fffe_0000_0001,
        decreases K - i,
    {
        let gap: u128 = coordinate_gap(first[i], second[i]) as u128;
        assert(gap * gap <= 0xffff_fffe_0000_0001) by (nonlinear_arith)
            requires
                gap <= 0xffff_ffff,
        ;
        total = total + gap * gap;
        i += 1;
    }
    total
}

/// Every metric is non-negative.
pub proof fn lemma_distance_nonnegative(metric: Metric, a: Seq<i32>, b: Seq<i32>)
    ensures
        metric.distance(a, b) >= 0,
{
    lemma_upto_nonnegative(a, b, a.len() as int);
}

/// No distance exceeds the vector length times the square of the widest
/// coordinate gap.
pub proof fn lemma_distance_bounded(metric: Metric, a: Seq<i32>, b: Seq<i32>)
    ensures
        metric.distance(a, b) <= a.len() * 0xffff_fffe_0000_0001,
{
    lemma_upto_bounded(a, b, a.len() as int);
}

/// Every metric is symmetric in its two arguments.
pub proof fn lemma_distance_symmetric(metric: Metric, a: Seq<i32>, b: Seq<i32>)
    requires
        a.len() == b.len(),
    ensures
        metric.distance(a, b) == metric.distance(b, a),
{
    lemma_upto_symmetric(a, b, a.len() as int);
}

/// A distance is zero exactly when the two vectors agree in every coordinate.
pub proof fn lemma_distance_zero_iff_equal(metric: Metric, a: Seq<i32>, b: Seq<i32>)
    requires
        a.len() == b.len(),
    ensures
        metric.distance(a, b) == 0 <==> a == b,
{
    lemma_upto_zero_iff_agree(a, b, a.len() as int);
    if metric.distance(a, b) == 0 {
        assert(a =~= b);
    }
}

/// The largest coordinate difference never exceeds the sum of all of them.
pub proof fn lemma_chebyshev_le_manhattan(a: Seq<i32>, b: Seq<i32>)
    ensures
        chebyshev(a, b) <= manhattan(a, b),
{
    lemma_chebyshev_le_manhattan_upto(a, b, a.len() as int);
}

/// On one-dimensional vectors every metric coincides with its single-axis form.
pub proof fn lemma_distance1_is_one_dimensional(metric: Metric, x: i32, y: i32)
    ensures
        metric.distance(seq![x], seq![y]) == metric.distance1(x, y),
{
    let a = seq![x];
    let b = seq![y];
    assert(manhattan_upto(a, b, 0) == 0);
    assert(squared_euclidean_upto(a, b, 0) == 0);
    assert(chebyshev_upto(a, b, 0) == 0);
    assert(manhattan_upto(a, b, 1) == abs_diff(a[0] as int, b[0] as int));
    assert(squared_euclidean_upto(a, b, 1) == abs_diff(a[0] as int, b[0] as int) * abs_diff(
        a[0] as int,
        b[0] as int,
    ));
    assert(chebyshev_upto(a, b, 1) == abs_diff(a[0] as int, b[0] as int));
}

proof fn lemma_upto_nonnegative(a: Seq<i32>, b: Seq<i32>, n: int)
    ensures
        manhattan_upto(a, b, n) >= 0,
        squared_euclidean_upto(a, b, n) >= 0,
        chebyshev_upto(a, b, n) >= 0,
    decreases n,
{
    if n > 0 {
        lemma_upto_nonnegative(a, b, n - 1);
        let gap = abs_diff(a[n - 1] as int, b[n - 1] as int);
        assert(gap * gap >= 0) by (nonlinear_arith);
    }
}

proof fn lemma_upto_bounded(a: Seq<i32>, b: Seq<i32>, n: int)
    requires
        0 <= n,
    ensures
        manhattan_upto(a, b, n) <= n * 0xffff_fffe_0000_0001,
        squared_euclidean_upto(a, b, n) <= n * 0xffff_fffe_0000_0001,
        chebyshev_upto(a, b, n) <= n * 0xffff_fffe_0000_0001,
    decreases n,
{
    if n > 0 {
        lemma_upto_bounded(a, b, n - 1);
        let gap = abs_diff(a[n - 1] as int, b[n - 1] as int);
        assert(0 <= gap <= 0xffff_ffff);
        assert(gap * gap <= 0xffff_fffe_0000_0001) by (nonlinear_arith)
            requires
                0 <= gap <= 0xffff_ffff,
        ;
    }
}

proof fn lemma_upto_symmetric(a: Seq<i32>, b: Seq<i32>, n: int)
    ensures
        manhattan_upto(a, b, n) == manhattan_upto(b, a, n),
        squared_euclidean_upto(a, b, n) == squared_euclidean_upto(b, a, n),
        chebyshev_upto(a, b, n) == chebyshev_upto(b, a, n),
    decreases n,
{
    if n > 0 {
        lemma_upto_symmetric(a, b, n - 1);
    }
}

proof fn lemma_upto_zero_iff_agree(a: Seq<i32>, b: Seq<i32>, n: int)
    requires
        0 <= n <= a.len(),
        a.len() == b.len(),
    ensures
        manhattan_upto(a, b, n) == 0 <==> forall|i: int| 0 <= i < n ==> a[i] == b[i],
        squared_euclidean_upto(a, b, n) == 0 <==> forall|i: int| 0 <= i < n ==> a[i] == b[i],
        chebyshev_upto(a, b, n) == 0 <==> forall|i: int| 0 <= i < n ==> a[i] == b[i],
    decreases n,
{
    if n > 0 {
        lemma_upto_zero_iff_agree(a, b, n - 1);
        lemma_upto_nonnegative(a, b, n - 1);
        let gap = abs_diff(a[n - 1] as int, b[n - 1] as int);
        assert(gap * gap >= 0 && (gap * gap == 0 <==> gap == 0)) by (nonlinear_arith);
        assert(gap == 0 <==> a[n - 1] == b[n - 1]);
        let agree_before = forall|i: int| 0 <= i < n - 1 ==> a[i] == b[i];
        let agree_now = forall|i: int| 0 <= i < n ==> a[i] == b[i];
        assert(agree_now <==> (agree_before && a[n - 1] == b[n - 1]));
    }
}

proof fn lemma_chebyshev_le_manhattan_upto(a: Seq<i32>, b: Seq<i32>, n: int)
    ensures
        chebyshev_upto(a, b, n) <= manhattan_upto(a, b, n),
    decreases n,
{
    if n > 0 {
        lemma_chebyshev_le_manhattan_upto(a, b, n - 1);
        lemma_upto_nonnegative(a, b, n - 1);
    }
}

} // verus!
