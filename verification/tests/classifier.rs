use knn::crowding::can_index;
use knn::distance_metric::Metric;
use knn::kernel::{Kernel, UNIT};
use knn::knn::{ConfigurationError, Data, Knn, NoNeighborsError, WindowType, DIMENSIONS};
use knn::neighbours::{nearest_scan, range_scan};
use knn::parse::breast_cancer::Diagnosis;
use knn::scale::true_distance_of;

fn sample(x: i32, y: i32, label: Diagnosis) -> Data {
    let mut features = [0i32; DIMENSIONS];
    features[0] = x;
    features[1] = y;
    Data { features, label }
}

fn point(x: i32, y: i32) -> [i32; DIMENSIONS] {
    let mut features = [0i32; DIMENSIONS];
    features[0] = x;
    features[1] = y;
    features
}

// Coordinates are in thousandths: (0.1, 0) is written (100, 0).
fn clusters() -> Vec<Data> {
    vec![
        sample(0, 0, Diagnosis::Malignant),
        sample(1000, 0, Diagnosis::Malignant),
        sample(5000, 5000, Diagnosis::Benign),
        sample(6000, 5000, Diagnosis::Benign),
    ]
}

fn fitted(k: usize, radius: u64, window: WindowType, kernel: Kernel, metric: Metric) -> Knn {
    let mut knn = Knn::new(k, radius, &window, kernel, metric, 4);
    assert_eq!(knn.fit(clusters(), None), Ok(()));
    knn
}

#[test]
fn nearest_neighbour_separates_two_clusters() {
    let knn = fitted(1, 0, WindowType::Unfixed, Kernel::Uniform, Metric::Manhattan);
    assert_eq!(knn.predict(&point(100, 0)), Ok(Diagnosis::Malignant));
    assert_eq!(knn.predict(&point(5900, 5000)), Ok(Diagnosis::Benign));
}

#[test]
fn nearest_neighbour_separates_two_clusters_under_every_metric() {
    for metric in [Metric::Manhattan, Metric::SquaredEuclidean, Metric::Chebyshev] {
        for kernel in [Kernel::Uniform, Kernel::Triangular, Kernel::Epanechnikov, Kernel::Gaussian]
        {
            let knn = fitted(2, 0, WindowType::Unfixed, kernel, metric);
            assert_eq!(knn.predict(&point(100, 0)), Ok(Diagnosis::Malignant));
            assert_eq!(knn.predict(&point(5900, 5000)), Ok(Diagnosis::Benign));
        }
    }
}

#[test]
fn fixed_window_without_neighbours_fails() {
    for metric in [Metric::Manhattan, Metric::SquaredEuclidean, Metric::Chebyshev] {
        let knn = fitted(1, 1000, WindowType::Fixed, Kernel::Uniform, metric);
        assert_eq!(knn.predict(&point(10000, 10000)), Err(NoNeighborsError {}));
        assert!(knn.neighbours(&point(10000, 10000)).is_empty());
    }
}

#[test]
fn mismatched_weights_are_refused_and_nothing_changes() {
    let mut knn = Knn::new(1, 0, &WindowType::Unfixed, Kernel::Uniform, Metric::Manhattan, 4);
    let refused = knn.fit(clusters(), Some(vec![UNIT, UNIT, UNIT]));
    assert_eq!(refused, Err(ConfigurationError::WeightCountMismatch));
    assert!(!knn.fitted());
    assert!(knn.data().is_empty());
    assert!(knn.weights().is_empty());
}

#[test]
fn refused_refit_keeps_the_earlier_fit() {
    let mut knn = fitted(1, 0, WindowType::Unfixed, Kernel::Uniform, Metric::Manhattan);
    let other = vec![sample(9000, 9000, Diagnosis::Benign)];
    assert_eq!(
        knn.fit(other, Some(vec![UNIT, UNIT])),
        Err(ConfigurationError::WeightCountMismatch)
    );
    assert!(knn.fitted());
    assert_eq!(knn.data().len(), 4);
    assert_eq!(knn.weights(), &vec![UNIT; 4]);
    assert_eq!(knn.predict(&point(100, 0)), Ok(Diagnosis::Malignant));
}

#[test]
fn zero_radius_is_refused_for_a_fixed_window() {
    let mut knn = Knn::new(3, 0, &WindowType::Fixed, Kernel::Uniform, Metric::Manhattan, 4);
    assert_eq!(knn.fit(clusters(), None), Err(ConfigurationError::NonPositiveRadius));
    assert!(!knn.fitted());
}

#[test]
fn zero_k_is_refused_for_an_unfixed_window() {
    let mut knn = Knn::new(0, 5, &WindowType::Unfixed, Kernel::Uniform, Metric::Manhattan, 4);
    assert_eq!(knn.fit(clusters(), None), Err(ConfigurationError::ZeroNeighbours));
    assert!(!knn.fitted());
}

#[test]
fn zero_k_is_no_fault_of_a_fixed_window() {
    let mut knn = Knn::new(0, 5, &WindowType::Fixed, Kernel::Uniform, Metric::Manhattan, 4);
    assert_eq!(knn.fit(clusters(), None), Ok(()));
}

#[test]
fn window_faults_come_before_weight_faults() {
    let mut knn = Knn::new(0, 5, &WindowType::Unfixed, Kernel::Uniform, Metric::Manhattan, 4);
    assert_eq!(knn.fit(clusters(), Some(vec![])), Err(ConfigurationError::ZeroNeighbours));
}

#[test]
fn a_dataset_the_index_cannot_hold_is_scanned() {
    // Forty samples that all have 0 on the third axis.
    let data: Vec<Data> = (0..40)
        .map(|i| sample(i, 2 * i, if i < 20 { Diagnosis::Malignant } else { Diagnosis::Benign }))
        .collect();
    for metric in [Metric::Manhattan, Metric::SquaredEuclidean, Metric::Chebyshev] {
        let mut knn = Knn::new(3, 1, &WindowType::Unfixed, Kernel::Uniform, metric, 40);
        assert_eq!(knn.fit(data.clone(), None), Ok(()));
        assert_eq!(knn.data().len(), 40);
        assert_eq!(knn.neighbours(&point(3, 6)), nearest_scan(&data, metric, &point(3, 6), 3));
        assert_eq!(knn.neighbours(&point(3, 6))[0], (0, 3));
        assert_eq!(knn.predict(&point(3, 6)), Ok(Diagnosis::Malignant));
        assert_eq!(knn.predict(&point(30, 60)), Ok(Diagnosis::Benign));
        let mut inside = Knn::new(3, 10, &WindowType::Fixed, Kernel::Uniform, metric, 40);
        assert_eq!(inside.fit(data.clone(), None), Ok(()));
        let threshold: u128 = if metric == Metric::SquaredEuclidean { 100 } else { 10 };
        assert_eq!(
            inside.neighbours(&point(30, 60)),
            range_scan(&data, metric, &point(30, 60), threshold)
        );
        assert!(!inside.neighbours(&point(30, 60)).is_empty());
    }
}

#[test]
fn sixteen_samples_sharing_a_coordinate_are_indexed() {
    let data: Vec<Data> = (0..16).map(|i| sample(i, 2 * i, Diagnosis::Benign)).collect();
    assert!(can_index(&data));
    let mut knn = Knn::new(1, 1, &WindowType::Unfixed, Kernel::Uniform, Metric::Manhattan, 0);
    assert_eq!(knn.fit(data, None), Ok(()));
    assert_eq!(knn.neighbours(&point(7, 14)), vec![(0, 7)]);
}

#[test]
fn default_weights_are_one_per_sample() {
    let knn = fitted(1, 0, WindowType::Unfixed, Kernel::Uniform, Metric::Manhattan);
    assert_eq!(knn.weights(), &vec![1_000_000u64; 4]);
    assert_eq!(knn.data().len(), 4);
    assert!(knn.fitted());
}

#[test]
fn given_weights_are_kept() {
    let mut knn = Knn::new(1, 0, &WindowType::Unfixed, Kernel::Uniform, Metric::Manhattan, 4);
    assert_eq!(knn.fit(clusters(), Some(vec![1, 2, 3, 4])), Ok(()));
    assert_eq!(knn.weights(), &vec![1u64, 2, 3, 4]);
}

#[test]
fn constructor_keeps_its_settings() {
    let knn = Knn::new(7, 9, &WindowType::Fixed, Kernel::Gaussian, Metric::Chebyshev, 100);
    let hyper = knn.hyperparameters();
    assert_eq!(hyper.k, 7);
    assert_eq!(hyper.radius, 9);
    assert_eq!(hyper.window, WindowType::Fixed);
    assert_eq!(hyper.kernel, Kernel::Gaussian);
    assert_eq!(hyper.metric, Metric::Chebyshev);
    assert!(!knn.fitted());
    assert!(knn.data().is_empty());
}

#[test]
fn capacity_hint_does_not_bound_the_dataset() {
    let mut knn = Knn::new(1, 1, &WindowType::Unfixed, Kernel::Uniform, Metric::Manhattan, 1);
    assert_eq!(knn.fit(clusters(), None), Ok(()));
    assert_eq!(knn.data().len(), 4);
    let mut roomy =
        Knn::new(1, 1, &WindowType::Unfixed, Kernel::Uniform, Metric::Manhattan, 100_000);
    assert_eq!(roomy.fit(clusters(), None), Ok(()));
    assert_eq!(roomy.predict(&point(100, 0)), Ok(Diagnosis::Malignant));
}

#[test]
fn refit_replaces_the_dataset() {
    let mut knn = fitted(1, 0, WindowType::Unfixed, Kernel::Uniform, Metric::Manhattan);
    let other = vec![sample(100, 0, Diagnosis::Benign)];
    assert_eq!(knn.fit(other, None), Ok(()));
    assert_eq!(knn.data().len(), 1);
    assert_eq!(knn.weights(), &vec![UNIT]);
    assert_eq!(knn.neighbours(&point(100, 0)), vec![(0, 0)]);
    assert_eq!(knn.predict(&point(0, 0)), Ok(Diagnosis::Benign));
}

#[test]
fn predict_is_repeatable_and_leaves_the_state_alone() {
    let knn = fitted(3, 0, WindowType::Unfixed, Kernel::Triangular, Metric::SquaredEuclidean);
    let first = knn.predict(&point(2500, 2500));
    for _ in 0..5 {
        assert_eq!(knn.predict(&point(2500, 2500)), first);
    }
    assert_eq!(knn.data().len(), 4);
    assert_eq!(knn.weights(), &vec![UNIT; 4]);
    assert_eq!(knn.data()[2].features, point(5000, 5000));
    assert!(knn.fitted());
}

#[test]
fn two_classifiers_fitted_alike_predict_alike() {
    let first = fitted(3, 0, WindowType::Unfixed, Kernel::Gaussian, Metric::Manhattan);
    let second = fitted(3, 0, WindowType::Unfixed, Kernel::Gaussian, Metric::Manhattan);
    for x in [0, 1000, 2500, 3000, 4000, 7000] {
        assert_eq!(first.predict(&point(x, x)), second.predict(&point(x, x)));
    }
}

#[test]
fn fixed_window_takes_only_samples_strictly_inside_the_radius() {
    let knn = fitted(1, 1000, WindowType::Fixed, Kernel::Uniform, Metric::Manhattan);
    // (1000, 0) lies exactly on the boundary of the window around (0, 0).
    assert_eq!(knn.neighbours(&point(0, 0)), vec![(0, 0)]);
    assert_eq!(knn.neighbours(&point(1, 0)), vec![(1, 0), (999, 1)]);
    let chebyshev = fitted(1, 1000, WindowType::Fixed, Kernel::Uniform, Metric::Chebyshev);
    assert_eq!(chebyshev.neighbours(&point(0, 0)), vec![(0, 0)]);
    assert_eq!(chebyshev.neighbours(&point(5500, 5400)), vec![(500, 2), (500, 3)]);
}

#[test]
fn squared_euclidean_window_compares_squares() {
    let knn = fitted(1, 1000, WindowType::Fixed, Kernel::Uniform, Metric::SquaredEuclidean);
    // Squared distances 360_000 + 490_000 = 850_000 < 1_000_000.
    assert_eq!(knn.neighbours(&point(600, 700)), vec![(650_000, 1), (850_000, 0)]);
    // 800^2 + 600^2 = 1_000_000 is not strictly inside.
    assert_eq!(knn.neighbours(&point(800, 600)), vec![(400_000, 1)]);
    for (distance, _) in knn.neighbours(&point(600, 700)) {
        assert!(distance < 1000 * 1000);
        assert!(true_distance_of(Metric::SquaredEuclidean, distance) < 1000);
    }
}

#[test]
fn unfixed_window_takes_exactly_k_ascending_distinct() {
    for metric in [Metric::Manhattan, Metric::SquaredEuclidean, Metric::Chebyshev] {
        let knn = fitted(3, 0, WindowType::Unfixed, Kernel::Uniform, metric);
        let found = knn.neighbours(&point(100, 0));
        assert_eq!(found.len(), 3);
        assert!(found[0].0 < found[1].0 && found[1].0 < found[2].0);
        assert_eq!(found.iter().map(|pair| pair.1).collect::<Vec<_>>(), vec![0, 1, 2]);
    }
}

#[test]
fn unfixed_window_takes_everything_when_k_exceeds_the_dataset() {
    for metric in [Metric::Manhattan, Metric::SquaredEuclidean, Metric::Chebyshev] {
        let knn = fitted(10, 0, WindowType::Unfixed, Kernel::Uniform, metric);
        let found = knn.neighbours(&point(100, 0));
        assert_eq!(found.iter().map(|pair| pair.1).collect::<Vec<_>>(), vec![0, 1, 2, 3]);
    }
}

#[test]
fn the_largest_k_takes_everything() {
    for metric in [Metric::Manhattan, Metric::SquaredEuclidean, Metric::Chebyshev] {
        let knn = fitted(usize::MAX, 0, WindowType::Unfixed, Kernel::Gaussian, metric);
        assert_eq!(knn.neighbours(&point(100, 0)).len(), 4);
        assert_eq!(knn.predict(&point(100, 0)), Ok(Diagnosis::Malignant));
    }
}

#[test]
fn an_empty_dataset_has_no_neighbours() {
    for metric in [Metric::Manhattan, Metric::SquaredEuclidean, Metric::Chebyshev] {
        for window in [WindowType::Fixed, WindowType::Unfixed] {
            let mut knn = Knn::new(3, 1000, &window, Kernel::Uniform, metric, 0);
            assert_eq!(knn.fit(Vec::new(), None), Ok(()));
            assert!(knn.fitted());
            assert!(knn.neighbours(&point(0, 0)).is_empty());
            assert_eq!(knn.predict(&point(0, 0)), Err(NoNeighborsError {}));
        }
    }
}

#[test]
fn manhattan_neighbours_carry_manhattan_distances() {
    let knn = fitted(4, 0, WindowType::Unfixed, Kernel::Uniform, Metric::Manhattan);
    assert_eq!(
        knn.neighbours(&point(100, 0)),
        vec![(100, 0), (900, 1), (9900, 2), (10900, 3)]
    );
}

#[test]
fn squared_euclidean_neighbours_carry_sums_of_squares() {
    let knn = fitted(2, 0, WindowType::Unfixed, Kernel::Uniform, Metric::SquaredEuclidean);
    assert_eq!(knn.neighbours(&point(100, 0)), vec![(10_000, 0), (810_000, 1)]);
}

#[test]
fn chebyshev_neighbours_carry_largest_gaps() {
    let knn = fitted(4, 0, WindowType::Unfixed, Kernel::Uniform, Metric::Chebyshev);
    assert_eq!(
        knn.neighbours(&point(100, 0)),
        vec![(100, 0), (900, 1), (5000, 2), (5900, 3)]
    );
}

#[test]
fn fixed_window_normalizes_by_the_radius() {
    let knn = fitted(1, 1000, WindowType::Fixed, Kernel::Triangular, Metric::Manhattan);
    let (kernel_values, targets, weights) = knn.predict_with_neighbors(&point(250, 0));
    // Distances 250 and 750 over a radius of 1000.
    assert_eq!(kernel_values, vec![750_000, 250_000]);
    assert_eq!(targets, vec![Diagnosis::Malignant, Diagnosis::Malignant]);
    assert_eq!(weights, vec![UNIT, UNIT]);
}

#[test]
fn squared_euclidean_normalization_takes_the_square_root() {
    let knn = fitted(1, 1000, WindowType::Fixed, Kernel::Triangular, Metric::SquaredEuclidean);
    let (kernel_values, _, _) = knn.predict_with_neighbors(&point(250, 0));
    // Squared distances 62_500 and 562_500: true distances 250 and 750.
    assert_eq!(kernel_values, vec![750_000, 250_000]);
    let epanechnikov =
        fitted(1, 1000, WindowType::Fixed, Kernel::Epanechnikov, Metric::SquaredEuclidean);
    let (kernel_values, _, _) = epanechnikov.predict_with_neighbors(&point(500, 0));
    assert_eq!(kernel_values, vec![562_500, 562_500]);
}

#[test]
fn unfixed_window_normalizes_by_the_farthest_neighbour() {
    let knn = fitted(2, 0, WindowType::Unfixed, Kernel::Triangular, Metric::Manhattan);
    let (kernel_values, targets, weights) = knn.predict_with_neighbors(&point(200, 0));
    // Distances 200 and 800: ratios 0.25 and 1.
    assert_eq!(kernel_values, vec![750_000, 0]);
    assert_eq!(targets, vec![Diagnosis::Malignant, Diagnosis::Malignant]);
    assert_eq!(weights, vec![UNIT, UNIT]);
    let squared = fitted(2, 0, WindowType::Unfixed, Kernel::Triangular, Metric::SquaredEuclidean);
    let (kernel_values, _, _) = squared.predict_with_neighbors(&point(200, 0));
    assert_eq!(kernel_values, vec![750_000, 0]);
}

#[test]
fn coinciding_neighbours_count_as_distance_zero() {
    for metric in [Metric::Manhattan, Metric::SquaredEuclidean, Metric::Chebyshev] {
        let knn = fitted(1, 0, WindowType::Unfixed, Kernel::Triangular, metric);
        let (kernel_values, targets, _) = knn.predict_with_neighbors(&point(5000, 5000));
        assert_eq!(kernel_values, vec![UNIT]);
        assert_eq!(targets, vec![Diagnosis::Benign]);
        assert_eq!(knn.predict(&point(5000, 5000)), Ok(Diagnosis::Benign));
    }
}

#[test]
fn single_neighbour_on_the_boundary_still_decides() {
    // With k = 1 the neighbour is at ratio 1, where the uniform kernel is 0.
    let knn = fitted(1, 0, WindowType::Unfixed, Kernel::Uniform, Metric::Manhattan);
    let (kernel_values, targets, _) = knn.predict_with_neighbors(&point(5900, 5000));
    assert_eq!(kernel_values, vec![0]);
    assert_eq!(targets, vec![Diagnosis::Benign]);
    assert_eq!(knn.predict(&point(5900, 5000)), Ok(Diagnosis::Benign));
}

#[test]
fn sample_weights_can_turn_the_vote() {
    let data = vec![
        sample(0, 0, Diagnosis::Malignant),
        sample(100, 0, Diagnosis::Malignant),
        sample(0, 100, Diagnosis::Benign),
    ];
    let mut knn = Knn::new(1, 1000, &WindowType::Fixed, Kernel::Uniform, Metric::Manhattan, 3);
    assert_eq!(knn.fit(data.clone(), None), Ok(()));
    assert_eq!(knn.predict(&point(50, 50)), Ok(Diagnosis::Malignant));
    assert_eq!(knn.fit(data, Some(vec![UNIT, UNIT, 3 * UNIT])), Ok(()));
    assert_eq!(knn.predict(&point(50, 50)), Ok(Diagnosis::Benign));
}

#[test]
fn extreme_coordinates_are_measured_exactly() {
    let mut low = [i32::MIN; DIMENSIONS];
    let high = [i32::MAX; DIMENSIONS];
    low[0] = i32::MIN + 1;
    let data = vec![
        Data { features: low, label: Diagnosis::Malignant },
        Data { features: [7; DIMENSIONS], label: Diagnosis::Benign },
    ];
    let gap: u128 = 0xffff_ffff;
    let mut knn =
        Knn::new(2, u64::MAX, &WindowType::Unfixed, Kernel::Uniform, Metric::SquaredEuclidean, 2);
    assert_eq!(knn.fit(data.clone(), None), Ok(()));
    let found = knn.neighbours(&high);
    assert_eq!(found[1], (29 * gap * gap + (gap - 1) * (gap - 1), 0));
    assert_eq!(found[0].1, 1);
    let mut wide =
        Knn::new(2, u64::MAX, &WindowType::Fixed, Kernel::Uniform, Metric::SquaredEuclidean, 2);
    assert_eq!(wide.fit(data.clone(), None), Ok(()));
    assert_eq!(wide.neighbours(&high), found);
    assert_eq!(wide.predict(&high), Ok(Diagnosis::Malignant));
    let mut manhattan =
        Knn::new(2, u64::MAX, &WindowType::Fixed, Kernel::Uniform, Metric::Manhattan, 2);
    assert_eq!(manhattan.fit(data, None), Ok(()));
    assert_eq!(manhattan.neighbours(&high)[1], (30 * gap - 1, 0));
}
