//! Measuring a classifier: accuracy on a test set, the F1 score of a list of
//! predictions, and the split of a dataset into a training and a test part.
//!
//! Scores are fractions in millionths, rounded down.

use vstd::prelude::*;
use crate::kernel::UNIT;
use crate::knn::{features_of, predicted, Data, Hyperparameters, Knn};
use crate::parse::breast_cancer::Diagnosis;
use crate::window::{answers_window, lemma_neighbourhood_answers, neighbourhood};

verus! {

/// How many of the first `n` test samples the classifier labels correctly. A
/// sample without neighbours counts as labelled wrongly.
pub open spec fn correct_upto(
    hyper: Hyperparameters,
    data: Seq<Data>,
    weights: Seq<u64>,
    test_data: Seq<Data>,
    n: int,
) -> int
    decreases n,
{
    if n <= 0 {
        0
    } else {
        correct_upto(hyper, data, weights, test_data, n - 1) + if predicted(
            hyper,
            data,
            weights,
            test_data[n - 1].features@,
        ) == Some(test_data[n - 1].label) {
            1int
        } else {
            0int
        }
    }
}

/// `part / whole` in millionths, rounded down; zero when `whole` is zero.
pub open spec fn fraction(part: int, whole: int) -> int {
    if whole <= 0 {
        0
    } else {
        UNIT * part / whole
    }
}

/// How three kinds of outcome are counted over a list of predictions.
pub struct OutcomeCounts {
    /// Predictions that agree with the sample's label.
    pub true_positive: usize,
    /// Wrong predictions of `Malignant`.
    pub false_positive: usize,
    /// Wrong predictions of `Benign`.
    pub false_negative: usize,
}

/// How many of the first `n` predictions agree with the sample's label.
pub open spec fn agreements_upto(data: Seq<Data>, predictions: Seq<Diagnosis>, n: int) -> int
    decreases n,
{
    if n <= 0 {
        0
    } else {
        agreements_upto(data, predictions, n - 1) + if data[n - 1].label == predictions[n - 1] {
            1int
        } else {
            0int
        }
    }
}

/// How many of the first `n` predictions are `wrong_guess` where the sample's
/// label is the other diagnosis.
pub open spec fn mistakes_upto(
    data: Seq<Data>,
    predictions: Seq<Diagnosis>,
    wrong_guess: Diagnosis,
    n: int,
) -> int
    decreases n,
{
    if n <= 0 {
        0
    } else {
        mistakes_upto(data, predictions, wrong_guess, n - 1) + if data[n - 1].label
            != predictions[n - 1] && predictions[n - 1] == wrong_guess {
            1int
        } else {
            0int
        }
    }
}

/// The number of sample and prediction pairs: the length of the shorter list.
pub open spec fn paired(data: Seq<Data>, predictions: Seq<Diagnosis>) -> int {
    if data.len() <= predictions.len() {
        data.len() as int
    } else {
        predictions.len() as int
    }
}

/// The F1 score of the counts, `2 * tp / (2 * tp + fp + fn)`, in millionths;
/// zero when nothing was counted.
pub open spec fn f1_of(true_positive: int, false_positive: int, false_negative: int) -> int {
    fraction(2 * true_positive, 2 * true_positive + false_positive + false_negative)
}

/// Computes `part / whole` in millionths.
pub fn fraction_of(part: usize, whole: usize) -> (share: u64)
    requires
        part <= whole,
    ensures
        share as int == fraction(part as int, whole as int),
        share <= UNIT,
{
    if whole == 0 {
        return 0;
    }
    let scaled: u128 = UNIT as u128 * part as u128;
    let share: u128 = scaled / whole as u128;
    assert(share <= 1_000_000) by (nonlinear_arith)
        requires
            share == (1_000_000 * part) / (whole as int),
            part <= whole,
            whole > 0,
    ;
    share as u64
}

/// Measures the fraction of test samples whose label the classifier predicts.
/// A sample without neighbours counts as a wrong prediction; an empty test set
/// scores zero. The neighbours behind each prediction are what the window
/// guarantees of the test sample among the fitted samples.
pub fn calculate_accuracy(knn: &Knn, test_data: &Vec<Data>) -> (accuracy: u64)
    requires
        knn.wf(),
        knn.is_fitted(),
    ensures
        accuracy as int == fraction(
            correct_upto(
                knn.hyper(),
                knn.dataset(),
                knn.sample_weights(),
                test_data@,
                test_data@.len() as int,
            ),
            test_data@.len() as int,
        ),
        accuracy <= UNIT,
        forall|i: int|
            0 <= i < test_data@.len() ==> answers_window(
                knn.hyper(),
                features_of(knn.dataset()),
                (#[trigger] test_data@[i]).features@,
                neighbourhood(knn.hyper(), features_of(knn.dataset()), test_data@[i].features@),
            ),
{
    proof {
        knn.lemma_fitted();
        assert forall|i: int| 0 <= i < test_data@.len() implies answers_window(
            knn.hyper(),
            features_of(knn.dataset()),
            (#[trigger] test_data@[i]).features@,
            neighbourhood(knn.hyper(), features_of(knn.dataset()), test_data@[i].features@),
        ) by {
            lemma_neighbourhood_answers(
                knn.hyper(),
                features_of(knn.dataset()),
                test_data@[i].features@,
            );
        }
    }
    let mut correct_predictions: usize = 0;
    let mut i: usize = 0;
    while i < test_data.len()
        invariant
            i <= test_data@.len(),
            knn.wf(),
            knn.is_fitted(),
            correct_predictions <= i,
            correct_predictions as int == correct_upto(
                knn.hyper(),
                knn.dataset(),
                knn.sample_weights(),
                test_data@,
                i as int,
            ),
        decreases test_data@.len() - i,
    {
        let test_point = &test_data[i];
        match knn.predict(&test_point.features) {
            Ok(prediction) => {
                if prediction == test_point.label {
                    correct_predictions += 1;
                }
            },
            Err(_) => {},
        }
        i += 1;
    }
    fraction_of(correct_predictions, test_data.len())
}

/// Counts agreements and the two kinds of mistake over the pairs of a sample
/// and a prediction.
pub fn count_outcomes(data: &Vec<Data>, predictions: &Vec<Diagnosis>) -> (counts: OutcomeCounts)
    ensures
        counts.true_positive as int == agreements_upto(
            data@,
            predictions@,
            paired(data@, predictions@),
        ),
        counts.false_positive as int == mistakes_upto(
            data@,
            predictions@,
            Diagnosis::Malignant,
            paired(data@, predictions@),
        ),
        counts.false_negative as int == mistakes_upto(
            data@,
            predictions@,
            Diagnosis::Benign,
            paired(data@, predictions@),
        ),
        counts.true_positive + counts.false_positive + counts.false_negative == paired(
            data@,
            predictions@,
        ),
{
    let pairs: usize = if data.len() <= predictions.len() {
        data.len()
    } else {
        predictions.len()
    };
    let mut true_positive_count: usize = 0;
    let mut false_positive_count: usize = 0;
    let mut false_negative_count: usize = 0;
    let mut i: usize = 0;
    while i < pairs
        invariant
            i <= pairs,
            pairs == paired(data@, predictions@),
            true_positive_count as int == agreements_upto(data@, predictions@, i as int),
            false_positive_count as int == mistakes_upto(
                data@,
                predictions@,
                Diagnosis::Malignant,
                i as int,
            ),
            false_negative_count as int == mistakes_upto(
                data@,
                predictions@,
                Diagnosis::Benign,
                i as int,
            ),
            true_positive_count + false_positive_count + false_negative_count == i,
        decreases pairs - i,
    {
        let predicted_label = predictions[i];
        if data[i].label == predicted_label {
            true_positive_count += 1;
        } else {
            match predicted_label {
                Diagnosis::Malignant => {
                    false_positive_count += 1;
                },
                Diagnosis::Benign => {
                    false_negative_count += 1;
                },
            }
        }
        i += 1;
    }
    OutcomeCounts {
        true_positive: true_positive_count,
        false_positive: false_positive_count,
        false_negative: false_negative_count,
    }
}

/// Computes the F1 score of a list of predictions against the samples they
/// were made for.
pub fn calculate_f1_score(data: &Vec<Data>, predictions: &Vec<Diagnosis>) -> (f1: u64)
    ensures
        f1 as int == f1_of(
            agreements_upto(data@, predictions@, paired(data@, predictions@)),
            mistakes_upto(data@, predictions@, Diagnosis::Malignant, paired(data@, predictions@)),
            mistakes_upto(data@, predictions@, Diagnosis::Benign, paired(data@, predictions@)),
        ),
        f1 <= UNIT,
{
    let counts = count_outcomes(data, predictions);
    let doubled: u128 = 2 * counts.true_positive as u128;
    let whole: u128 = doubled + counts.false_positive as u128 + counts.false_negative as u128;
    if whole == 0 {
        return 0;
    }
    let share: u128 = UNIT as u128 * doubled / whole;
    assert(share <= 1_000_000) by (nonlinear_arith)
        requires
            share == (1_000_000 * doubled) / (whole as int),
            doubled <= whole,
            whole > 0,
    ;
    share as u64
}

/// Records one more trial of a search for the most accurate settings: counts
/// it, and keeps its accuracy and settings if it is strictly more accurate
/// than every trial before. Says whether it was.
pub fn update_max_accuracy(
    accuracy: u64,
    max_accuracy: &mut u64,
    count: &mut usize,
    best_hyperparameters: &mut Hyperparameters,
    candidate: Hyperparameters,
) -> (improved: bool)
    requires
        *old(count) < usize::MAX,
    ensures
        *final(count) == *old(count) + 1,
        improved == (accuracy > *old(max_accuracy)),
        improved ==> *final(max_accuracy) == accuracy && *final(best_hyperparameters) == candidate,
        !improved ==> *final(max_accuracy) == *old(max_accuracy) && *final(best_hyperparameters)
            == *old(best_hyperparameters),
{
    *count += 1;
    if accuracy > *max_accuracy {
        *max_accuracy = accuracy;
        *best_hyperparameters = candidate;
        true
    } else {
        false
    }
}

/// The number of samples that go to the training part when a dataset of
/// `count` samples is split at `train_ratio`, a fraction in millionths.
pub open spec fn train_size(count: int, train_ratio: u64) -> int {
    count * train_ratio / (UNIT as int)
}

/// Splits a dataset in two: the first `train_ratio` of the samples, rounded
/// down, and the rest.
pub fn split_data(data: &Vec<Data>, train_ratio: u64) -> (parts: (Vec<Data>, Vec<Data>))
    requires
        train_ratio <= UNIT,
    ensures
        parts.0@ == data@.subrange(0, train_size(data@.len() as int, train_ratio)),
        parts.1@ == data@.subrange(
            train_size(data@.len() as int, train_ratio),
            data@.len() as int,
        ),
        0 <= train_size(data@.len() as int, train_ratio) <= data@.len(),
{
    let count: usize = data.len();
    assert(0 <= count * train_ratio <= count * 1_000_000) by (nonlinear_arith)
        requires
            0 <= count,
            0 <= train_ratio <= 1_000_000,
    ;
    let scaled: u128 = count as u128 * train_ratio as u128;
    let quotient: u128 = scaled / UNIT as u128;
    assert(quotient <= count) by (nonlinear_arith)
        requires
            quotient == scaled / 1_000_000,
            scaled <= count * 1_000_000,
    ;
    let cut: usize = quotient as usize;
    let mut train_data: Vec<Data> = Vec::new();
    let mut test_data: Vec<Data> = Vec::new();
    let mut i: usize = 0;
    while i < count
        invariant
            i <= count,
            count == data@.len(),
            cut <= count,
            train_data@ == data@.subrange(0, if i <= cut {
                i as int
            } else {
                cut as int
            }),
            test_data@ == data@.subrange(cut as int, if i <= cut {
                cut as int
            } else {
                i as int
            }),
        decreases count - i,
    {
        if i < cut {
            train_data.push(data[i]);
            assert(train_data@ =~= data@.subrange(0, i as int + 1));
        } else {
            test_data.push(data[i]);
            assert(test_data@ =~= data@.subrange(cut as int, i as int + 1));
        }
        i += 1;
    }
    (train_data, test_data)
}

} // verus!
