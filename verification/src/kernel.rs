//! Kernel functions: from a normalized distance to a vote weight.
//!
//! Both the argument and the value are fixed-point numbers in millionths:
//! [`UNIT`] stands for 1.0. A normalized distance of `UNIT` lies exactly on the
//! window boundary.

use vstd::arithmetic::div_mod::{lemma_div_is_ordered, lemma_div_is_ordered_by_denominator};
use vstd::prelude::*;

verus! {

/// The fixed-point representation of 1.0.
pub const UNIT: u64 = 1_000_000;

/// Normalized distance from which the Gaussian kernel is zero in millionths.
pub const GAUSSIAN_REACH: u64 = 6_000_000;

/// Number of terms, after the constant one, in the exponential series.
pub const SERIES_TERMS: u64 = 12;

/// The uniform kernel: one half inside the window, zero on and beyond its
/// boundary.
pub open spec fn uniform_value(u: int) -> int {
    if u < UNIT {
        UNIT as int / 2
    } else {
        0
    }
}

/// The triangular kernel: `1 - u` inside the window, zero on and beyond its
/// boundary.
pub open spec fn triangular_value(u: int) -> int {
    if u < UNIT {
        UNIT - u
    } else {
        0
    }
}

/// The Epanechnikov kernel: `0.75 * (1 - u^2)` inside the window, rounded down
/// to a millionth, and zero on and beyond its boundary.
pub open spec fn epanechnikov_value(u: int) -> int {
    if u < UNIT {
        3 * (UNIT * UNIT - u * u) / (4 * UNIT)
    } else {
        0
    }
}

/// `10^12 * exp(-whole) / sqrt(2 * pi)`, rounded to the nearest integer.
pub open spec fn gaussian_peak(whole: int) -> int {
    if whole <= 0 {
        398942280401
    } else if whole == 1 {
        146762663174
    } else if whole == 2 {
        53990966513
    } else if whole == 3 {
        19862166589
    } else if whole == 4 {
        7306882745
    } else if whole == 5 {
        2688051941
    } else if whole == 6 {
        988879046
    } else if whole == 7 {
        363788271
    } else if whole == 8 {
        133830226
    } else if whole == 9 {
        49233389
    } else if whole == 10 {
        18111952
    } else if whole == 11 {
        6663015
    } else if whole == 12 {
        2451186
    } else if whole == 13 {
        901741
    } else if whole == 14 {
        331732
    } else if whole == 15 {
        122037
    } else if whole == 16 {
        44895
    } else {
        16516
    }
}

/// The `n`-th term of the series for `exp(fraction)`, in millionths, each term
/// rounded down from the one before.
pub open spec fn series_term(fraction: int, n: int) -> int
    decreases n,
{
    if n <= 0 {
        UNIT as int
    } else {
        series_term(fraction, n - 1) * fraction / (n * UNIT)
    }
}

/// The series for `exp(fraction)` summed through its `n`-th term.
pub open spec fn series_sum(fraction: int, n: int) -> int
    decreases n,
{
    if n <= 0 {
        UNIT as int
    } else {
        series_sum(fraction, n - 1) + series_term(fraction, n)
    }
}

/// The Gaussian kernel `exp(-u^2 / 2) / sqrt(2 * pi)` in millionths.
///
/// The exponent `u^2 / 2` is split into a whole part, looked up in
/// [`gaussian_peak`], and a fraction below one, whose exponential is summed
/// from its series; the value is the quotient of the two. From
/// [`GAUSSIAN_REACH`] on the value is zero.
pub open spec fn gaussian_value(u: int) -> int {
    if u < GAUSSIAN_REACH {
        let exponent = u * u / (2 * UNIT);
        gaussian_peak(exponent / (UNIT as int)) / series_sum(
            exponent % (UNIT as int),
            SERIES_TERMS as int,
        )
    } else {
        0
    }
}

/// Evaluates the uniform kernel.
pub fn uniform(distance: u64) -> (weight: u64)
    ensures
        weight == uniform_value(distance as int),
        weight <= UNIT,
{
    if distance < UNIT {
        UNIT / 2
    } else {
        0
    }
}

/// Evaluates the triangular kernel.
pub fn triangular(distance: u64) -> (weight: u64)
    ensures
        weight == triangular_value(distance as int),
        weight <= UNIT,
{
    if distance < UNIT {
        UNIT - distance
    } else {
        0
    }
}

/// Evaluates the Epanechnikov kernel.
pub fn epanechnikov(distance: u64) -> (weight: u64)
    ensures
        weight == epanechnikov_value(distance as int),
        weight <= UNIT,
{
    if distance < UNIT {
        assert(distance * distance <= UNIT * UNIT) by (nonlinear_arith)
            requires
                distance < UNIT,
        ;
        let square: u64 = distance * distance;
        let numerator: u64 = 3 * (UNIT * UNIT - square);
        assert(numerator <= 3_000_000_000_000);
        let weight: u64 = numerator / (4 * UNIT);
        assert(weight <= 750_000) by (nonlinear_arith)
            requires
                weight == numerator / 4_000_000,
                numerator <= 3_000_000_000_000,
        ;
        weight
    } else {
        0
    }
}

/// Looks up [`gaussian_peak`].
fn gaussian_peak_at(whole: u64) -> (peak: u64)
    ensures
        peak == gaussian_peak(whole as int),
        16516 <= peak <= 398942280401,
{
    if whole == 0 {
        398942280401
    } else if whole == 1 {
        146762663174
    } else if whole == 2 {
        53990966513
    } else if whole == 3 {
        19862166589
    } else if whole == 4 {
        7306882745
    } else if whole == 5 {
        2688051941
    } else if whole == 6 {
        988879046
    } else if whole == 7 {
        363788271
    } else if whole == 8 {
        133830226
    } else if whole == 9 {
        49233389
    } else if whole == 10 {
        18111952
    } else if whole == 11 {
        6663015
    } else if whole == 12 {
        2451186
    } else if whole == 13 {
        901741
    } else if whole == 14 {
        331732
    } else if whole == 15 {
        122037
    } else if whole == 16 {
        44895
    } else {
        16516
    }
}

/// Each term of the series for a fraction below one is at most the one before.
proof fn lemma_series_term_bounds(fraction: int, n: int)
    requires
        0 <= fraction < UNIT,
        0 <= n,
    ensures
        0 <= series_term(fraction, n) <= UNIT,
    decreases n,
{
    if n > 0 {
        lemma_series_term_bounds(fraction, n - 1);
        let before = series_term(fraction, n - 1);
        assert(0 <= before * fraction <= before * UNIT) by (nonlinear_arith)
            requires
                0 <= before,
                0 <= fraction < UNIT,
        ;
        assert(0 <= before * fraction / (n * UNIT) <= before) by (nonlinear_arith)
            requires
                0 <= before * fraction <= before * UNIT,
                n >= 1,
                0 <= before,
        ;
    }
}

/// Sums the series for `exp(fraction)`.
fn exponential_series(fraction: u64) -> (total: u64)
    requires
        fraction < UNIT,
    ensures
        total == series_sum(fraction as int, SERIES_TERMS as int),
        UNIT <= total <= (SERIES_TERMS + 1) * UNIT,
{
    let mut term: u64 = UNIT;
    let mut total: u64 = UNIT;
    let mut n: u64 = 0;
    while n < SERIES_TERMS
        invariant
            n <= SERIES_TERMS,
            fraction < UNIT,
            term == series_term(fraction as int, n as int),
            total == series_sum(fraction as int, n as int),
            term <= UNIT,
            UNIT <= total <= (n + 1) * UNIT,
        decreases SERIES_TERMS - n,
    {
        proof {
            lemma_series_term_bounds(fraction as int, n as int + 1);
            assert(term * fraction <= UNIT * UNIT) by (nonlinear_arith)
                requires
                    term <= UNIT,
                    fraction < UNIT,
            ;
        }
        n += 1;
        term = term * fraction / (n * UNIT);
        total = total + term;
    }
    total
}

/// Evaluates the Gaussian kernel.
pub fn gaussian(distance: u64) -> (weight: u64)
    ensures
        weight == gaussian_value(distance as int),
        weight <= UNIT,
{
    if distance < GAUSSIAN_REACH {
        assert(distance * distance <= GAUSSIAN_REACH * GAUSSIAN_REACH) by (nonlinear_arith)
            requires
                distance < GAUSSIAN_REACH,
        ;
        let exponent: u64 = distance * distance / (2 * UNIT);
        let peak: u64 = gaussian_peak_at(exponent / UNIT);
        let spread: u64 = exponential_series(exponent % UNIT);
        assert(peak / spread <= UNIT) by (nonlinear_arith)
            requires
                peak <= 398942280401,
                spread >= 1_000_000,
                UNIT == 1_000_000,
        ;
        peak / spread
    } else {
        0
    }
}

/// The closed set of kernels a classifier can be built with.
#[derive(Clone, Copy, Debug, PartialEq, Eq, Structural)]
pub enum Kernel {
    /// Constant weight inside the window.
    Uniform,
    /// Weight falling linearly to zero at the window boundary.
    Triangular,
    /// Weight falling quadratically to zero at the window boundary.
    Epanechnikov,
    /// Bell-shaped weight, positive well beyond the window boundary.
    Gaussian,
}

impl Kernel {
    /// The weight this kernel gives to a normalized distance.
    pub open spec fn value(self, u: int) -> int {
        match self {
            Kernel::Uniform => uniform_value(u),
            Kernel::Triangular => triangular_value(u),
            Kernel::Epanechnikov => epanechnikov_value(u),
            Kernel::Gaussian => gaussian_value(u),
        }
    }

    /// Evaluates the kernel at a normalized distance.
    pub fn eval(&self, distance: u64) -> (weight: u64)
        ensures
            weight == self.value(distance as int),
            weight <= UNIT,
    {
        match self {
            Kernel::Uniform => uniform(distance),
            Kernel::Triangular => triangular(distance),
            Kernel::Epanechnikov => epanechnikov(distance),
            Kernel::Gaussian => gaussian(distance),
        }
    }
}

/// At distance zero the kernels take the values 0.5, 1.0, 0.75 and 0.398942.
pub proof fn lemma_kernel_at_zero()
    ensures
        Kernel::Uniform.value(0) == 500_000,
        Kernel::Triangular.value(0) == 1_000_000,
        Kernel::Epanechnikov.value(0) == 750_000,
        Kernel::Gaussian.value(0) == 398_942,
{
    lemma_series_at_zero(SERIES_TERMS as int);
    assert(3 * (UNIT * UNIT - 0 * 0) == 3_000_000_000_000);
    assert(4 * UNIT == 4_000_000);
    assert(0int * 0 / (2 * UNIT) == 0);
    assert(gaussian_peak(0int / (UNIT as int)) == 398942280401);
    assert(0int % (UNIT as int) == 0);
    assert(398942280401int / (UNIT as int) == 398_942);
}

/// On the window boundary, and beyond it, the three compact kernels are zero.
pub proof fn lemma_compact_support(kernel: Kernel, u: int)
    requires
        u >= UNIT,
        kernel != Kernel::Gaussian,
    ensures
        kernel.value(u) == 0,
{
}

/// No kernel value is negative or exceeds 1.0.
pub proof fn lemma_kernel_range(kernel: Kernel, u: int)
    requires
        0 <= u,
    ensures
        0 <= kernel.value(u) <= UNIT,
{
    match kernel {
        Kernel::Uniform => {},
        Kernel::Triangular => {},
        Kernel::Epanechnikov => {
            if u < UNIT {
                assert(0 <= u * u <= UNIT * UNIT) by (nonlinear_arith)
                    requires
                        0 <= u < UNIT,
                ;
            }
        },
        Kernel::Gaussian => {
            if u < GAUSSIAN_REACH {
                let exponent = u * u / (2 * UNIT);
                let fraction = exponent % (UNIT as int);
                lemma_series_sum_bounds(fraction, SERIES_TERMS as int);
                let peak = gaussian_peak(exponent / (UNIT as int));
                let spread = series_sum(fraction, SERIES_TERMS as int);
                assert(0 <= peak / spread <= UNIT) by (nonlinear_arith)
                    requires
                        0 <= peak <= 398942280401,
                        spread >= 1_000_000,
                        UNIT == 1_000_000,
                ;
            }
        },
    }
}

/// The Gaussian kernel never rises: a farther neighbour never weighs more than
/// a nearer one.
pub proof fn lemma_gaussian_never_rises(nearer: int, farther: int)
    requires
        0 <= nearer <= farther,
    ensures
        gaussian_value(farther) <= gaussian_value(nearer),
{
    lemma_kernel_range(Kernel::Gaussian, nearer);
    if farther < GAUSSIAN_REACH {
        let unit = UNIT as int;
        let low = nearer * nearer / (2 * UNIT);
        let high = farther * farther / (2 * UNIT);
        assert(0 <= nearer * nearer <= farther * farther < 36_000_000_000_000) by (nonlinear_arith)
            requires
                0 <= nearer <= farther < 6_000_000,
        ;
        lemma_div_is_ordered(nearer * nearer, farther * farther, 2 * UNIT);
        assert(0 <= low <= high < 18 * unit);
        let low_whole = low / unit;
        let high_whole = high / unit;
        let low_series = series_sum(low % unit, SERIES_TERMS as int);
        let high_series = series_sum(high % unit, SERIES_TERMS as int);
        lemma_series_sum_bounds(low % unit, SERIES_TERMS as int);
        lemma_series_sum_bounds(high % unit, SERIES_TERMS as int);
        assert(0 <= low_whole <= high_whole <= 17);
        if low_whole == high_whole {
            assert(low % unit <= high % unit);
            lemma_series_rises(low % unit, high % unit, SERIES_TERMS as int);
            lemma_div_is_ordered_by_denominator(
                gaussian_peak(low_whole),
                low_series,
                high_series,
            );
        } else {
            lemma_series_at_most(low % unit);
            lemma_peak_steps(low_whole);
            let next = gaussian_peak(low_whole + 1);
            assert(gaussian_peak(high_whole) <= next);
            lemma_div_is_ordered_by_denominator(gaussian_peak(high_whole), unit, high_series);
            lemma_div_is_ordered(gaussian_peak(high_whole), next, unit);
            lemma_div_is_ordered_by_denominator(gaussian_peak(low_whole), low_series, 2718275);
        }
    }
}

/// No kernel rises: a farther neighbour never weighs more than a nearer one.
pub proof fn lemma_kernel_never_rises(kernel: Kernel, nearer: int, farther: int)
    requires
        0 <= nearer <= farther,
    ensures
        kernel.value(farther) <= kernel.value(nearer),
{
    lemma_kernel_range(kernel, nearer);
    match kernel {
        Kernel::Uniform => {},
        Kernel::Triangular => {},
        Kernel::Epanechnikov => {
            if farther < UNIT {
                assert(nearer * nearer <= farther * farther) by (nonlinear_arith)
                    requires
                        0 <= nearer <= farther,
                ;
                lemma_div_is_ordered(
                    3 * (UNIT * UNIT - farther * farther),
                    3 * (UNIT * UNIT - nearer * nearer),
                    4 * UNIT,
                );
            }
        },
        Kernel::Gaussian => {
            lemma_gaussian_never_rises(nearer, farther);
        },
    }
}

/// A peak divided by the largest value of the series is at least the next
/// peak divided by the smallest.
proof fn lemma_peak_steps(whole: int)
    requires
        0 <= whole <= 16,
    ensures
        gaussian_peak(whole + 1) / (UNIT as int) <= gaussian_peak(whole) / 2718275,
{
    assert(146762663174int / 1000000 <= 398942280401int / 2718275);
    assert(53990966513int / 1000000 <= 146762663174int / 2718275);
    assert(19862166589int / 1000000 <= 53990966513int / 2718275);
    assert(7306882745int / 1000000 <= 19862166589int / 2718275);
    assert(2688051941int / 1000000 <= 7306882745int / 2718275);
    assert(988879046int / 1000000 <= 2688051941int / 2718275);
    assert(363788271int / 1000000 <= 988879046int / 2718275);
    assert(133830226int / 1000000 <= 363788271int / 2718275);
    assert(49233389int / 1000000 <= 133830226int / 2718275);
    assert(18111952int / 1000000 <= 49233389int / 2718275);
    assert(6663015int / 1000000 <= 18111952int / 2718275);
    assert(2451186int / 1000000 <= 6663015int / 2718275);
    assert(901741int / 1000000 <= 2451186int / 2718275);
    assert(331732int / 1000000 <= 901741int / 2718275);
    assert(122037int / 1000000 <= 331732int / 2718275);
    assert(44895int / 1000000 <= 122037int / 2718275);
    assert(16516int / 1000000 <= 44895int / 2718275);
}

/// The series rises with the fraction, term by term.
proof fn lemma_series_rises(smaller: int, larger: int, n: int)
    requires
        0 <= smaller <= larger < UNIT,
        0 <= n,
    ensures
        series_term(smaller, n) <= series_term(larger, n),
        series_sum(smaller, n) <= series_sum(larger, n),
    decreases n,
{
    if n > 0 {
        lemma_series_rises(smaller, larger, n - 1);
        lemma_series_term_bounds(smaller, n - 1);
        let below = series_term(smaller, n - 1);
        let above = series_term(larger, n - 1);
        assert(below * smaller <= above * larger) by (nonlinear_arith)
            requires
                0 <= below <= above,
                0 <= smaller <= larger,
        ;
        lemma_div_is_ordered(below * smaller, above * larger, n * UNIT);
    }
}

/// The series of a fraction below one stays below the series of the largest
/// such fraction.
proof fn lemma_series_at_most(fraction: int)
    requires
        0 <= fraction < UNIT,
    ensures
        series_sum(fraction, SERIES_TERMS as int) <= 2718275,
{
    lemma_series_rises(fraction, 999_999, SERIES_TERMS as int);
    let top = 999_999int;
    assert(series_term(top, 0) == 1_000_000);
    assert(series_term(top, 1) == 1_000_000int * 999_999 / (1int * 1_000_000));
    assert(series_term(top, 1) == 999_999);
    assert(series_term(top, 2) == 999_999int * 999_999 / (2int * 1_000_000));
    assert(series_term(top, 2) == 499_999);
    assert(series_term(top, 3) == 499_999int * 999_999 / (3int * 1_000_000));
    assert(series_term(top, 3) == 166_666);
    assert(series_term(top, 4) == 166_666int * 999_999 / (4int * 1_000_000));
    assert(series_term(top, 4) == 41_666);
    assert(series_term(top, 5) == 41_666int * 999_999 / (5int * 1_000_000));
    assert(series_term(top, 5) == 8_333);
    assert(series_term(top, 6) == 8_333int * 999_999 / (6int * 1_000_000));
    assert(series_term(top, 6) == 1_388);
    assert(series_term(top, 7) == 1_388int * 999_999 / (7int * 1_000_000));
    assert(series_term(top, 7) == 198);
    assert(series_term(top, 8) == 198int * 999_999 / (8int * 1_000_000));
    assert(series_term(top, 8) == 24);
    assert(series_term(top, 9) == 24int * 999_999 / (9int * 1_000_000));
    assert(series_term(top, 9) == 2);
    assert(series_term(top, 10) == 2int * 999_999 / (10int * 1_000_000));
    assert(series_term(top, 10) == 0);
    assert(series_term(top, 11) == 0int * 999_999 / (11int * 1_000_000));
    assert(series_term(top, 11) == 0);
    assert(series_term(top, 12) == 0int * 999_999 / (12int * 1_000_000));
    assert(series_term(top, 12) == 0);
    assert(series_sum(top, 0) == 1_000_000);
    assert(series_sum(top, 1) == 1_999_999);
    assert(series_sum(top, 2) == 2_499_998);
    assert(series_sum(top, 3) == 2_666_664);
    assert(series_sum(top, 4) == 2_708_330);
    assert(series_sum(top, 5) == 2_716_663);
    assert(series_sum(top, 6) == 2_718_051);
    assert(series_sum(top, 7) == 2_718_249);
    assert(series_sum(top, 8) == 2_718_273);
    assert(series_sum(top, 9) == 2_718_275);
    assert(series_sum(top, 10) == 2_718_275);
    assert(series_sum(top, 11) == 2_718_275);
    assert(series_sum(top, 12) == 2_718_275);
}

proof fn lemma_series_sum_bounds(fraction: int, n: int)
    requires
        0 <= fraction < UNIT,
        0 <= n,
    ensures
        UNIT <= series_sum(fraction, n),
    decreases n,
{
    if n > 0 {
        lemma_series_sum_bounds(fraction, n - 1);
        lemma_series_term_bounds(fraction, n);
    }
}

proof fn lemma_series_at_zero(n: int)
    requires
        0 <= n,
    ensures
        series_sum(0, n) == UNIT,
        n > 0 ==> series_term(0, n) == 0,
    decreases n,
{
    if n > 0 {
        lemma_series_at_zero(n - 1);
        let before = series_term(0, n - 1);
        assert(before * 0 == 0);
        assert(0int / (n * UNIT) == 0) by (nonlinear_arith)
            requires
                n >= 1,
                UNIT == 1_000_000,
        ;
    }
}

} // verus!
