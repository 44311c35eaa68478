use knn::distance_metric::Metric;
use knn::evaluation::{
    calculate_accuracy, calculate_f1_score, count_outcomes, fraction_of, split_data,
    update_max_accuracy,
};
use knn::kernel::Kernel;
use knn::knn::{Data, Hyperparameters, Knn, WindowType, DIMENSIONS};
use knn::parse::breast_cancer::{opposite_diagnosis, Diagnosis};

fn along(x: i32, label: Diagnosis) -> Data {
    let mut features = [0i32; DIMENSIONS];
    features[0] = x;
    Data { features, label }
}

fn trained() -> Knn {
    let mut knn = Knn::new(1, 50, &WindowType::Fixed, Kernel::Triangular, Metric::Manhattan, 2);
    let data = vec![along(0, Diagnosis::Malignant), along(100, Diagnosis::Benign)];
    assert_eq!(knn.fit(data, None), Ok(()));
    knn
}

#[test]
fn accuracy_is_the_share_of_correct_predictions() {
    let knn = trained();
    let test_data = vec![
        along(1, Diagnosis::Malignant),
        along(99, Diagnosis::Benign),
        along(2, Diagnosis::Benign),
    ];
    assert_eq!(calculate_accuracy(&knn, &test_data), 666_666);
    assert_eq!(calculate_accuracy(&knn, &test_data[..2].to_vec()), 1_000_000);
    assert_eq!(calculate_accuracy(&knn, &test_data[2..].to_vec()), 0);
}

#[test]
fn accuracy_counts_a_failed_prediction_as_wrong() {
    let knn = trained();
    let test_data = vec![along(1, Diagnosis::Malignant), along(50, Diagnosis::Malignant)];
    assert_eq!(calculate_accuracy(&knn, &test_data), 500_000);
}

#[test]
fn accuracy_of_no_test_data_is_zero() {
    assert_eq!(calculate_accuracy(&trained(), &Vec::new()), 0);
}

#[test]
fn outcomes_are_counted_by_kind() {
    let data = vec![
        along(0, Diagnosis::Malignant),
        along(1, Diagnosis::Benign),
        along(2, Diagnosis::Benign),
        along(3, Diagnosis::Malignant),
        along(4, Diagnosis::Malignant),
    ];
    let predictions = vec![
        Diagnosis::Malignant,
        Diagnosis::Benign,
        Diagnosis::Malignant,
        Diagnosis::Benign,
        Diagnosis::Benign,
    ];
    let counts = count_outcomes(&data, &predictions);
    assert_eq!(counts.true_positive, 2);
    assert_eq!(counts.false_positive, 1);
    assert_eq!(counts.false_negative, 2);
    // 2 * 2 / (2 * 2 + 1 + 2)
    assert_eq!(calculate_f1_score(&data, &predictions), 571_428);
}

#[test]
fn f1_agrees_with_precision_and_recall() {
    let data = vec![
        along(0, Diagnosis::Malignant),
        along(1, Diagnosis::Benign),
        along(2, Diagnosis::Benign),
        along(3, Diagnosis::Malignant),
    ];
    let predictions =
        vec![Diagnosis::Malignant, Diagnosis::Malignant, Diagnosis::Benign, Diagnosis::Benign];
    let counts = count_outcomes(&data, &predictions);
    let precision =
        counts.true_positive as f64 / (counts.true_positive + counts.false_positive) as f64;
    let recall =
        counts.true_positive as f64 / (counts.true_positive + counts.false_negative) as f64;
    let f1 = 2.0 * precision * recall / (precision + recall);
    let got = calculate_f1_score(&data, &predictions) as f64 / 1e6;
    assert!((got - f1).abs() < 1e-6);
    assert_eq!(calculate_f1_score(&data, &predictions), 666_666);
}

#[test]
fn f1_extremes() {
    let data = vec![along(0, Diagnosis::Malignant), along(1, Diagnosis::Benign)];
    let right = vec![Diagnosis::Malignant, Diagnosis::Benign];
    let wrong: Vec<Diagnosis> = right.iter().map(|label| opposite_diagnosis(*label)).collect();
    assert_eq!(calculate_f1_score(&data, &right), 1_000_000);
    assert_eq!(calculate_f1_score(&data, &wrong), 0);
    assert_eq!(calculate_f1_score(&data, &Vec::new()), 0);
    assert_eq!(calculate_f1_score(&Vec::new(), &right), 0);
}

#[test]
fn outcomes_pair_up_to_the_shorter_list() {
    let data = vec![along(0, Diagnosis::Malignant), along(1, Diagnosis::Benign)];
    let predictions = vec![Diagnosis::Malignant, Diagnosis::Malignant, Diagnosis::Malignant];
    let counts = count_outcomes(&data, &predictions);
    assert_eq!(
        (counts.true_positive, counts.false_positive, counts.false_negative),
        (1, 1, 0)
    );
    let counts = count_outcomes(&data, &predictions[..1].to_vec());
    assert_eq!(
        (counts.true_positive, counts.false_positive, counts.false_negative),
        (1, 0, 0)
    );
}

#[test]
fn fractions_round_down() {
    assert_eq!(fraction_of(1, 3), 333_333);
    assert_eq!(fraction_of(2, 3), 666_666);
    assert_eq!(fraction_of(3, 3), 1_000_000);
    assert_eq!(fraction_of(0, 3), 0);
    assert_eq!(fraction_of(0, 0), 0);
    assert_eq!(fraction_of(usize::MAX, usize::MAX), 1_000_000);
    assert_eq!(fraction_of(usize::MAX - 1, usize::MAX), 999_999);
}

#[test]
fn split_cuts_at_the_ratio_rounded_down() {
    let data: Vec<Data> = (0..5).map(|i| along(i, Diagnosis::Benign)).collect();
    let (train, test) = split_data(&data, 600_000);
    assert_eq!(train.iter().map(|d| d.features[0]).collect::<Vec<_>>(), vec![0, 1, 2]);
    assert_eq!(test.iter().map(|d| d.features[0]).collect::<Vec<_>>(), vec![3, 4]);
    let (train, test) = split_data(&data, 599_999);
    assert_eq!((train.len(), test.len()), (2, 3));
    let (train, test) = split_data(&data, 0);
    assert_eq!((train.len(), test.len()), (0, 5));
    let (train, test) = split_data(&data, 1_000_000);
    assert_eq!((train.len(), test.len()), (5, 0));
    let (train, test) = split_data(&Vec::new(), 600_000);
    assert_eq!((train.len(), test.len()), (0, 0));
}

#[test]
fn split_agrees_with_the_floating_point_cut() {
    for count in 0..200usize {
        let data: Vec<Data> = (0..count).map(|i| along(i as i32, Diagnosis::Benign)).collect();
        let (train, test) = split_data(&data, 600_000);
        assert_eq!(train.len(), (count as f64 * 0.6) as usize);
        assert_eq!(train.len() + test.len(), count);
    }
}

#[test]
fn a_search_starts_from_unusable_settings() {
    let start = Hyperparameters::new();
    assert_eq!(start.k, 0);
    assert_eq!(start.radius, 0);
    assert_eq!(start.window, WindowType::Fixed);
    assert_eq!(start.kernel, Kernel::Uniform);
    assert_eq!(start.metric, Metric::Manhattan);
}

#[test]
fn a_search_keeps_the_first_of_the_most_accurate_trials() {
    let mut max_accuracy: u64 = 0;
    let mut count: usize = 0;
    let mut best = Hyperparameters::new();
    let trial = |k: usize| Hyperparameters {
        k,
        radius: 1,
        window: WindowType::Unfixed,
        kernel: Kernel::Gaussian,
        metric: Metric::Chebyshev,
    };
    assert!(!update_max_accuracy(0, &mut max_accuracy, &mut count, &mut best, trial(1)));
    assert_eq!((max_accuracy, count, best.k), (0, 1, 0));
    assert!(update_max_accuracy(700_000, &mut max_accuracy, &mut count, &mut best, trial(2)));
    assert_eq!((max_accuracy, count, best.k), (700_000, 2, 2));
    assert_eq!(best.metric, Metric::Chebyshev);
    assert!(!update_max_accuracy(700_000, &mut max_accuracy, &mut count, &mut best, trial(3)));
    assert_eq!((max_accuracy, count, best.k), (700_000, 3, 2));
    assert!(!update_max_accuracy(10, &mut max_accuracy, &mut count, &mut best, trial(4)));
    assert_eq!((max_accuracy, count, best.k), (700_000, 4, 2));
    assert!(update_max_accuracy(700_001, &mut max_accuracy, &mut count, &mut best, trial(5)));
    assert_eq!((max_accuracy, count, best.k), (700_001, 5, 5));
}
