use knn::distance_metric::Metric;
use knn::kernel::{Kernel, UNIT};
use knn::knn::{ConfigurationError, Data, Knn, WindowType, DIMENSIONS};
use knn::lowess::lowess;
use knn::parse::breast_cancer::Diagnosis;

fn labelled(x: i32, label: Diagnosis) -> Data {
    let mut features = [0i32; DIMENSIONS];
    features[0] = x;
    Data { features, label }
}

#[test]
fn every_sample_recovered_earns_the_kernel_at_zero() {
    let data = vec![
        labelled(0, Diagnosis::Malignant),
        labelled(10, Diagnosis::Malignant),
        labelled(20, Diagnosis::Malignant),
    ];
    for metric in [Metric::Manhattan, Metric::SquaredEuclidean, Metric::Chebyshev] {
        let weights = lowess(1, 0, WindowType::Unfixed, Kernel::Triangular, metric, &data);
        assert_eq!(weights, Ok(vec![1_000_000, 1_000_000, 1_000_000]));
    }
    assert_eq!(
        lowess(1, 0, WindowType::Unfixed, Kernel::Uniform, Metric::Manhattan, &data),
        Ok(vec![500_000; 3])
    );
    assert_eq!(
        lowess(1, 0, WindowType::Unfixed, Kernel::Epanechnikov, Metric::Manhattan, &data),
        Ok(vec![750_000; 3])
    );
    assert_eq!(
        lowess(1, 0, WindowType::Unfixed, Kernel::Gaussian, Metric::Manhattan, &data),
        Ok(vec![398_942; 3])
    );
}

#[test]
fn a_sample_the_others_contradict_earns_the_kernel_on_the_boundary() {
    let data = vec![
        labelled(0, Diagnosis::Malignant),
        labelled(10, Diagnosis::Malignant),
        labelled(11, Diagnosis::Benign),
        labelled(30, Diagnosis::Malignant),
    ];
    assert_eq!(
        lowess(1, 0, WindowType::Unfixed, Kernel::Triangular, Metric::Manhattan, &data),
        Ok(vec![UNIT, 0, 0, 0])
    );
    assert_eq!(
        lowess(1, 0, WindowType::Unfixed, Kernel::Gaussian, Metric::Manhattan, &data),
        Ok(vec![398_942, 241_971, 241_971, 241_971])
    );
}

#[test]
fn a_sample_without_neighbours_earns_nothing() {
    let data = vec![
        labelled(0, Diagnosis::Malignant),
        labelled(3, Diagnosis::Malignant),
        labelled(1000, Diagnosis::Benign),
    ];
    for metric in [Metric::Manhattan, Metric::SquaredEuclidean, Metric::Chebyshev] {
        assert_eq!(
            lowess(1, 5, WindowType::Fixed, Kernel::Gaussian, metric, &data),
            Ok(vec![398_942, 398_942, 0])
        );
    }
}

#[test]
fn a_lone_sample_earns_nothing() {
    let data = vec![labelled(0, Diagnosis::Malignant)];
    assert_eq!(
        lowess(1, 5, WindowType::Unfixed, Kernel::Triangular, Metric::Manhattan, &data),
        Ok(vec![0])
    );
}

#[test]
fn no_samples_give_no_weights() {
    assert_eq!(
        lowess(1, 5, WindowType::Unfixed, Kernel::Triangular, Metric::Manhattan, &Vec::new()),
        Ok(vec![])
    );
    assert_eq!(
        lowess(0, 0, WindowType::Unfixed, Kernel::Triangular, Metric::Manhattan, &Vec::new()),
        Ok(vec![])
    );
}

#[test]
fn unusable_settings_end_the_reweighting() {
    let data = vec![labelled(0, Diagnosis::Malignant), labelled(1, Diagnosis::Benign)];
    assert_eq!(
        lowess(0, 5, WindowType::Unfixed, Kernel::Triangular, Metric::Manhattan, &data),
        Err(ConfigurationError::ZeroNeighbours)
    );
    assert_eq!(
        lowess(3, 0, WindowType::Fixed, Kernel::Triangular, Metric::Manhattan, &data),
        Err(ConfigurationError::NonPositiveRadius)
    );
}

#[test]
fn a_dataset_the_index_cannot_hold_is_reweighted_all_the_same() {
    // Forty samples share 0 on the second axis.
    let crowded: Vec<Data> = (0..40).map(|i| labelled(i, Diagnosis::Benign)).collect();
    for metric in [Metric::Manhattan, Metric::SquaredEuclidean, Metric::Chebyshev] {
        assert_eq!(
            lowess(1, 5, WindowType::Unfixed, Kernel::Triangular, metric, &crowded),
            Ok(vec![UNIT; 40])
        );
    }
}

#[test]
fn weights_feed_a_later_fit() {
    let data = vec![
        labelled(0, Diagnosis::Malignant),
        labelled(10, Diagnosis::Malignant),
        labelled(11, Diagnosis::Benign),
        labelled(30, Diagnosis::Malignant),
    ];
    let weights =
        lowess(1, 0, WindowType::Unfixed, Kernel::Triangular, Metric::Manhattan, &data).unwrap();
    let mut knn = Knn::new(2, 0, &WindowType::Unfixed, Kernel::Gaussian, Metric::Manhattan, 4);
    assert_eq!(knn.fit(data, Some(weights.clone())), Ok(()));
    assert_eq!(knn.weights(), &weights);
    let mut query = [0i32; DIMENSIONS];
    query[0] = 12;
    // Both neighbours, at 10 and 11, have weight zero: the scores tie and the
    // lower ordinal wins.
    assert_eq!(knn.predict(&query), Ok(Diagnosis::Malignant));
}
