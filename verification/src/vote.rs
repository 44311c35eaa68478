//! The weighted vote: from the neighbours' kernel values, labels and sample
//! weights to the winning label.
//!
//! Only labels that occur among the neighbours stand for election. Of those,
//! the one with the highest score wins; on equal scores the label with the
//! lower ordinal, `Malignant`, wins.

use vstd::prelude::*;
use crate::kernel::UNIT;
use crate::knn::Knn;
use crate::parse::breast_cancer::Diagnosis;

verus! {

/// Largest number of neighbours whose votes are counted at once.
pub const MAX_VOTERS: usize = 0xffff_ffff;

/// The score of `label` among the first `n` neighbours: the sum, over the
/// neighbours carrying that label, of kernel value times sample weight.
pub open spec fn ballot(
    kernel_values: Seq<u64>,
    targets: Seq<Diagnosis>,
    weights: Seq<u64>,
    label: Diagnosis,
    n: int,
) -> int
    decreases n,
{
    if n <= 0 {
        0
    } else {
        ballot(kernel_values, targets, weights, label, n - 1) + if targets[n - 1] == label {
            kernel_values[n - 1] * weights[n - 1]
        } else {
            0
        }
    }
}

/// The score of `label` among all neighbours.
pub open spec fn score(
    kernel_values: Seq<u64>,
    targets: Seq<Diagnosis>,
    weights: Seq<u64>,
    label: Diagnosis,
) -> int {
    ballot(kernel_values, targets, weights, label, targets.len() as int)
}

/// The label elected by the neighbours.
pub open spec fn winner(kernel_values: Seq<u64>, targets: Seq<Diagnosis>, weights: Seq<u64>)
    -> Diagnosis {
    if !targets.contains(Diagnosis::Benign) {
        Diagnosis::Malignant
    } else if !targets.contains(Diagnosis::Malignant) {
        Diagnosis::Benign
    } else if score(kernel_values, targets, weights, Diagnosis::Malignant) >= score(
        kernel_values,
        targets,
        weights,
        Diagnosis::Benign,
    ) {
        Diagnosis::Malignant
    } else {
        Diagnosis::Benign
    }
}

/// Every kernel value is at most 1.0.
pub open spec fn kernel_values_in_range(kernel_values: Seq<u64>) -> bool {
    forall|i: int| 0 <= i < kernel_values.len() ==> #[trigger] kernel_values[i] <= UNIT
}

/// A partial score is bounded by the number of neighbours counted.
proof fn lemma_ballot_bounds(
    kernel_values: Seq<u64>,
    targets: Seq<Diagnosis>,
    weights: Seq<u64>,
    label: Diagnosis,
    n: int,
)
    requires
        0 <= n <= kernel_values.len(),
        kernel_values_in_range(kernel_values),
    ensures
        0 <= ballot(kernel_values, targets, weights, label, n) <= n * (UNIT * u64::MAX),
    decreases n,
{
    if n > 0 {
        lemma_ballot_bounds(kernel_values, targets, weights, label, n - 1);
        let value = kernel_values[n - 1];
        let weight = weights[n - 1];
        assert(0 <= value * weight <= UNIT * u64::MAX) by (nonlinear_arith)
            requires
                0 <= value <= UNIT,
                0 <= weight <= u64::MAX,
        ;
        assert(n * (UNIT * u64::MAX) == (n - 1) * (UNIT * u64::MAX) + UNIT * u64::MAX)
            by (nonlinear_arith);
    }
}

impl Knn {
    /// Elects a label from the neighbours' kernel values, labels and weights.
    pub fn predict_class(kernel_distances: &Vec<u64>, targets: &Vec<Diagnosis>, weights: &Vec<u64>)
        -> (elected: Diagnosis)
        requires
            targets@.len() >= 1,
            targets@.len() <= MAX_VOTERS,
            kernel_distances@.len() == targets@.len(),
            weights@.len() == targets@.len(),
            kernel_values_in_range(kernel_distances@),
        ensures
            elected == winner(kernel_distances@, targets@, weights@),
            targets@.contains(elected),
    {
        let mut malignant: u128 = 0;
        let mut benign: u128 = 0;
        let mut malignant_seen: bool = false;
        let mut benign_seen: bool = false;
        let mut i: usize = 0;
        while i < targets.len()
            invariant
                i <= targets@.len() <= MAX_VOTERS,
                kernel_distances@.len() == targets@.len(),
                weights@.len() == targets@.len(),
                kernel_values_in_range(kernel_distances@),
                malignant as int == ballot(
                    kernel_distances@,
                    targets@,
                    weights@,
                    Diagnosis::Malignant,
                    i as int,
                ),
                benign as int == ballot(
                    kernel_distances@,
                    targets@,
                    weights@,
                    Diagnosis::Benign,
                    i as int,
                ),
                malignant_seen <==> targets@.subrange(0, i as int).contains(Diagnosis::Malignant),
                benign_seen <==> targets@.subrange(0, i as int).contains(Diagnosis::Benign),
            decreases targets@.len() - i,
        {
            proof {
                lemma_ballot_bounds(
                    kernel_distances@,
                    targets@,
                    weights@,
                    Diagnosis::Malignant,
                    i as int + 1,
                );
                lemma_ballot_bounds(
                    kernel_distances@,
                    targets@,
                    weights@,
                    Diagnosis::Benign,
                    i as int + 1,
                );
                assert((i + 1) * (UNIT * u64::MAX) <= MAX_VOTERS * (UNIT * u64::MAX))
                    by (nonlinear_arith)
                    requires
                        i + 1 <= MAX_VOTERS,
                ;
                let value = kernel_distances@[i as int];
                let weight = weights@[i as int];
                assert(0 <= value * weight <= UNIT * u64::MAX) by (nonlinear_arith)
                    requires
                        0 <= value <= UNIT,
                        0 <= weight <= u64::MAX,
                ;
                let before = targets@.subrange(0, i as int);
                let after = targets@.subrange(0, i as int + 1);
                assert(after.drop_last() =~= before);
                assert(after.last() == targets@[i as int]);
                assert forall|label: Diagnosis|
                    after.contains(label) <==> (before.contains(label) || targets@[i as int]
                        == label) by {
                    if before.contains(label) {
                        let j = choose|j: int| 0 <= j < before.len() && before[j] == label;
                        assert(after[j] == label);
                    }
                    if targets@[i as int] == label {
                        assert(after[i as int] == label);
                    }
                    if after.contains(label) {
                        let j = choose|j: int| 0 <= j < after.len() && after[j] == label;
                        if j < i {
                            assert(before[j] == label);
                        }
                    }
                }
            }
            let vote: u128 = kernel_distances[i] as u128 * weights[i] as u128;
            match targets[i] {
                Diagnosis::Malignant => {
                    malignant = malignant + vote;
                    malignant_seen = true;
                },
                Diagnosis::Benign => {
                    benign = benign + vote;
                    benign_seen = true;
                },
            }
            i += 1;
        }
        proof {
            assert(targets@.subrange(0, targets@.len() as int) =~= targets@);
            assert(targets@[0] == Diagnosis::Malignant || targets@[0] == Diagnosis::Benign);
            assert(targets@.contains(targets@[0]));
        }
        if !benign_seen {
            Diagnosis::Malignant
        } else if !malignant_seen {
            Diagnosis::Benign
        } else if malignant >= benign {
            Diagnosis::Malignant
        } else {
            Diagnosis::Benign
        }
    }
}

} // verus!
