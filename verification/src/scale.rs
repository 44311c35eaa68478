//! Normalized distances: a neighbour's distance as a fraction of the window's
//! own scale, in millionths.
//!
//! Distances and scales are given in the metric's own space. For the squared
//! Euclidean metric both are squared magnitudes, and the square root is taken
//! of their ratio, so that the result is the ratio of the true distances
//! rounded down to a millionth.

use vstd::prelude::*;
use crate::distance_metric::Metric;
use crate::kernel::UNIT;

verus! {

/// Largest distance any metric gives between two vectors of thirty `i32`
/// coordinates.
pub const MAX_DISTANCE: u128 = 30 * 0xffff_fffe_0000_0001;

/// `root` is the square root of `n` rounded down.
pub open spec fn is_floor_sqrt(n: int, root: int) -> bool {
    0 <= root && root * root <= n < (root + 1) * (root + 1)
}

/// The square root of `n` rounded down to an integer.
pub open spec fn floor_sqrt(n: int) -> int {
    choose|root: int| is_floor_sqrt(n, root)
}

/// The distance in coordinate units, rounded down: the square root of a
/// squared Euclidean distance, and any other distance as it is.
pub open spec fn true_distance(metric: Metric, distance: int) -> int {
    match metric {
        Metric::SquaredEuclidean => floor_sqrt(distance),
        _ => distance,
    }
}

/// `distance / scale` in millionths, rounded down; for the squared Euclidean
/// metric, the square root of that ratio. A scale of zero, which arises only
/// when every neighbour coincides with the query, gives zero.
pub open spec fn normalized(metric: Metric, distance: int, scale: int) -> int {
    if scale <= 0 {
        0
    } else {
        match metric {
            Metric::SquaredEuclidean => floor_sqrt(UNIT * UNIT * distance / scale),
            _ => UNIT * distance / scale,
        }
    }
}

/// At most one integer is the rounded-down square root of `n`.
pub proof fn lemma_floor_sqrt_unique(n: int, first: int, second: int)
    requires
        is_floor_sqrt(n, first),
        is_floor_sqrt(n, second),
    ensures
        first == second,
{
    if first < second {
        assert((first + 1) * (first + 1) <= second * second) by (nonlinear_arith)
            requires
                0 <= first,
                first + 1 <= second,
        ;
    }
    if second < first {
        assert((second + 1) * (second + 1) <= first * first) by (nonlinear_arith)
            requires
                0 <= second,
                second + 1 <= first,
        ;
    }
}

/// An integer that squares to at most `n`, and whose successor does not, is
/// the rounded-down square root of `n`.
pub proof fn lemma_floor_sqrt_is(n: int, root: int)
    requires
        is_floor_sqrt(n, root),
    ensures
        floor_sqrt(n) == root,
{
    lemma_floor_sqrt_unique(n, root, floor_sqrt(n));
}

/// Every natural number has a rounded-down square root.
pub proof fn lemma_floor_sqrt_exists(n: int)
    requires
        0 <= n,
    ensures
        is_floor_sqrt(n, floor_sqrt(n)),
    decreases n,
{
    if n == 0 {
        assert(is_floor_sqrt(0, 0));
    } else {
        lemma_floor_sqrt_exists(n - 1);
        let before = floor_sqrt(n - 1);
        if n < (before + 1) * (before + 1) {
            assert(is_floor_sqrt(n, before));
        } else {
            assert((before + 1) * (before + 1) <= n < (before + 2) * (before + 2))
                by (nonlinear_arith)
                requires
                    0 <= before,
                    before * before <= n - 1 < (before + 1) * (before + 1),
                    n >= (before + 1) * (before + 1),
            ;
            assert(is_floor_sqrt(n, before + 1));
        }
    }
}

/// A distance strictly below the square of a bound has a true distance
/// strictly below the bound.
pub proof fn lemma_floor_sqrt_below(n: int, bound: int)
    requires
        0 <= n < bound * bound,
        0 <= bound,
    ensures
        0 <= floor_sqrt(n) < bound,
{
    lemma_floor_sqrt_exists(n);
    let root = floor_sqrt(n);
    if root >= bound {
        assert(bound * bound <= root * root) by (nonlinear_arith)
            requires
                0 <= bound <= root,
        ;
    }
}

/// Computes the square root of `n` rounded down.
pub fn integer_sqrt(n: u128) -> (root: u64)
    ensures
        is_floor_sqrt(n as int, root as int),
        root as int == floor_sqrt(n as int),
{
    let mut low: u128 = 0;
    let mut high: u128 = 0x1_0000_0000_0000_0000;
    assert(high * high > n) by (nonlinear_arith)
        requires
            high == 0x1_0000_0000_0000_0000,
            n <= u128::MAX,
    ;
    while high - low > 1
        invariant
            low < high <= 0x1_0000_0000_0000_0000,
            low * low <= n,
            n < high * high,
        decreases high - low,
    {
        let middle: u128 = low + (high - low) / 2;
        assert(middle * middle <= 0xffff_ffff_ffff_ffff * 0xffff_ffff_ffff_ffff) by (nonlinear_arith)
            requires
                middle <= 0xffff_ffff_ffff_ffff,
        ;
        if middle * middle <= n {
            low = middle;
        } else {
            high = middle;
        }
    }
    proof {
        lemma_floor_sqrt_is(n as int, low as int);
    }
    low as u64
}

/// Computes the distance in coordinate units, rounded down.
pub fn true_distance_of(metric: Metric, distance: u128) -> (length: u128)
    ensures
        length as int == true_distance(metric, distance as int),
{
    match metric {
        Metric::SquaredEuclidean => integer_sqrt(distance) as u128,
        _ => distance,
    }
}

/// Computes the normalized distance of a neighbour.
pub fn normalize_distance(metric: Metric, distance: u128, scale: u128) -> (ratio: u64)
    requires
        distance <= MAX_DISTANCE,
        distance <= scale,
    ensures
        ratio as int == normalized(metric, distance as int, scale as int),
        ratio <= UNIT,
        distance < scale ==> ratio < UNIT,
{
    if scale == 0 {
        return 0;
    }
    match metric {
        Metric::SquaredEuclidean => {
            let scaled: u128 = 1_000_000_000_000 * distance;
            let quotient: u128 = scaled / scale;
            assert(quotient <= 1_000_000_000_000 && (distance < scale ==> quotient
                < 1_000_000_000_000)) by (nonlinear_arith)
                requires
                    quotient == (1_000_000_000_000 * distance) / (scale as int),
                    distance <= scale,
                    scale > 0,
            ;
            assert(UNIT * UNIT * distance == scaled) by (nonlinear_arith)
                requires
                    scaled == 1_000_000_000_000 * distance,
                    UNIT == 1_000_000,
            ;
            let root: u64 = integer_sqrt(quotient);
            proof {
                if root > 1_000_000 {
                    assert(root * root > 1_000_000_000_000) by (nonlinear_arith)
                        requires
                            root > 1_000_000,
                    ;
                }
                if root >= 1_000_000 {
                    assert(root * root >= 1_000_000_000_000) by (nonlinear_arith)
                        requires
                            root >= 1_000_000,
                    ;
                }
            }
            root
        },
        _ => {
            let scaled: u128 = 1_000_000 * distance;
            let quotient: u128 = scaled / scale;
            assert(quotient <= 1_000_000 && (distance < scale ==> quotient < 1_000_000))
                by (nonlinear_arith)
                requires
                    quotient == (1_000_000 * distance) / (scale as int),
                    distance <= scale,
                    scale > 0,
            ;
            quotient as u64
        },
    }
}

} // verus!
