//! Leave-one-out reweighting: a confidence weight for every training sample,
//! from whether the other samples predict its label.

use vstd::prelude::*;
use crate::distance_metric::Metric;
use crate::kernel::{Kernel, UNIT};
use crate::knn::{
    features_of, fit_error, fitted_weights, predicted, ConfigurationError, Data, Hyperparameters,
    Knn, WindowType,
};
use crate::parse::breast_cancer::Diagnosis;
use crate::window::{answers_window, lemma_neighbourhood_answers, neighbourhood};

verus! {

/// The weight a sample earns from the prediction made without it: the
/// kernel's value at distance zero for a correct prediction, its value on the
/// window boundary for a wrong one, and zero when no prediction was possible.
pub open spec fn earned_weight(kernel: Kernel, outcome: Option<Diagnosis>, label: Diagnosis)
    -> int {
    match outcome {
        Some(guess) => if guess == label {
            kernel.value(0)
        } else {
            kernel.value(UNIT as int)
        },
        None => 0,
    }
}

/// The weight of sample `i`: what it earns from the classifier fitted, with
/// unit weights, on all the other samples.
pub open spec fn held_out_weight(hyper: Hyperparameters, data: Seq<Data>, i: int) -> int {
    earned_weight(
        hyper.kernel,
        predicted(
            hyper,
            data.remove(i),
            fitted_weights(data.remove(i).len(), None),
            data[i].features@,
        ),
        data[i].label,
    )
}

/// The reason, if any, for which a dataset cannot be reweighted: the reason
/// for which a dataset of one sample fewer cannot be fitted. A dataset without
/// samples is always reweighted, to no weights.
pub open spec fn reweighting_error(hyper: Hyperparameters, data: Seq<Data>) -> Option<
    ConfigurationError,
> {
    if data.len() == 0 {
        None
    } else {
        fit_error(hyper, data.remove(0), None)
    }
}

/// For every sample, the neighbours it has among the other samples are what
/// the window guarantees.
pub open spec fn held_out_windows_answer(hyper: Hyperparameters, data: Seq<Data>) -> bool {
    forall|i: int|
        0 <= i < data.len() ==> answers_window(
            hyper,
            features_of(data.remove(i)),
            (#[trigger] data[i]).features@,
            neighbourhood(hyper, features_of(data.remove(i)), data[i].features@),
        )
}

/// Copies a dataset without its sample `skip`.
fn without(data: &Vec<Data>, skip: usize) -> (rest: Vec<Data>)
    requires
        skip < data@.len(),
    ensures
        rest@ == data@.remove(skip as int),
{
    let mut rest: Vec<Data> = Vec::new();
    let mut j: usize = 0;
    while j < data.len()
        invariant
            j <= data@.len(),
            skip < data@.len(),
            rest@.len() == if j <= skip {
                j as int
            } else {
                j - 1
            },
            forall|m: int| 0 <= m < rest@.len() && m < skip ==> rest@[m] == data@[m],
            forall|m: int| 0 <= m < rest@.len() && m >= skip ==> rest@[m] == data@[m + 1],
        decreases data@.len() - j,
    {
        if j != skip {
            rest.push(data[j]);
        }
        j += 1;
    }
    assert(rest@ =~= data@.remove(skip as int));
    rest
}

/// Computes a weight for every training sample, in dataset order. Each sample
/// is held out in turn, a classifier with the given settings is fitted on the
/// others, and the held-out sample is weighed by that classifier's prediction
/// for it. Settings with which the others cannot be fitted end the computation
/// with the reason. The neighbours behind each prediction are what the window
/// guarantees of the held-out query among the other samples.
pub fn lowess(
    neighbour_amount: usize,
    radius: u64,
    window_type: WindowType,
    kernel: Kernel,
    metric: Metric,
    train_data: &Vec<Data>,
) -> (result: Result<Vec<u64>, ConfigurationError>)
    ensures
        held_out_windows_answer(
            Hyperparameters { k: neighbour_amount, radius, window: window_type, kernel, metric },
            train_data@,
        ),
        match reweighting_error(
            Hyperparameters { k: neighbour_amount, radius, window: window_type, kernel, metric },
            train_data@,
        ) {
            Some(reason) => result == Err::<Vec<u64>, ConfigurationError>(reason),
            None => result.is_ok() && result.unwrap()@.len() == train_data@.len() && forall|i: int|
                0 <= i < train_data@.len() ==> #[trigger] result.unwrap()@[i] as int
                    == held_out_weight(
                    Hyperparameters {
                        k: neighbour_amount,
                        radius,
                        window: window_type,
                        kernel,
                        metric,
                    },
                    train_data@,
                    i,
                ),
        },
{
    let ghost hyper = Hyperparameters {
        k: neighbour_amount,
        radius,
        window: window_type,
        kernel,
        metric,
    };
    let count: usize = train_data.len();
    proof {
        assert forall|i: int| 0 <= i < count implies answers_window(
            hyper,
            features_of(train_data@.remove(i)),
            (#[trigger] train_data@[i]).features@,
            neighbourhood(hyper, features_of(train_data@.remove(i)), train_data@[i].features@),
        ) by {
            assert(features_of(train_data@.remove(i)).len() == train_data@.len() - 1);
            lemma_neighbourhood_answers(
                hyper,
                features_of(train_data@.remove(i)),
                train_data@[i].features@,
            );
        }
    }
    let mut weights: Vec<u64> = Vec::with_capacity(count);
    let mut i: usize = 0;
    while i < train_data.len()
        invariant
            i <= train_data@.len(),
            hyper == (Hyperparameters {
                k: neighbour_amount,
                radius,
                window: window_type,
                kernel,
                metric,
            }),
            weights@.len() == i,
            held_out_windows_answer(hyper, train_data@),
            i > 0 ==> reweighting_error(hyper, train_data@).is_none(),
            forall|j: int|
                0 <= j < i ==> #[trigger] weights@[j] as int == held_out_weight(
                    hyper,
                    train_data@,
                    j,
                ),
        decreases train_data@.len() - i,
    {
        let modified_train_data = without(train_data, i);
        assert(train_data@.remove(i as int).len() == train_data@.remove(0).len());
        let mut knn_instance = Knn::new(
            neighbour_amount,
            radius,
            &window_type,
            kernel,
            metric,
            modified_train_data.len(),
        );
        match knn_instance.fit(modified_train_data, None) {
            Ok(_) => {},
            Err(reason) => {
                return Err(reason);
            },
        }
        let data_point = &train_data[i];
        let weight: u64 = match knn_instance.predict(&data_point.features) {
            Ok(prediction) => {
                if prediction == data_point.label {
                    kernel.eval(0)
                } else {
                    kernel.eval(UNIT)
                }
            },
            Err(_) => 0,
        };
        weights.push(weight);
        i += 1;
    }
    Ok(weights)
}

} // verus!
