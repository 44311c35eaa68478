//! The classifier: fitting a dataset and predicting labels by weighted vote.

use vstd::prelude::*;
use crate::crowding::{can_index, index_serves, lemma_prefix_splittable, splittable};
use crate::distance_metric::{lemma_distance_bounded, Metric};
use crate::index::{
    filled_in_order, indexed_points, tree_add, tree_nearest_manhattan,
    tree_nearest_squared_euclidean, tree_with_capacity, tree_within_manhattan,
    tree_within_squared_euclidean, PointTree, MAX_POINTS, MAX_THRESHOLD,
};
use crate::kernel::{Kernel, UNIT};
use crate::neighbours::{
    is_nearest, is_within, lemma_scan_nearest, lemma_scan_within, mentions, nearest_scan,
    range_scan, scan_nearest, scan_within,
};
use crate::parse::breast_cancer::Diagnosis;
use crate::ranking::{
    lemma_mentioned_count, lemma_rank_keeps_within, lemma_ranked_nearest_unique,
    lemma_ranked_within_leads, lemma_ranked_within_unique, lemma_scan_nearest_ranked,
    lemma_scan_within_ranked, rank,
};
use crate::scale::{normalize_distance, normalized};
use crate::vote::{kernel_values_in_range, winner};
use crate::window::{
    answers_window, lemma_neighbourhood_answers, native_radius, neighbourhood, usable_window,
    window_scale,
};

verus! {

/// Number of coordinates in every feature vector.
pub const DIMENSIONS: usize = 30;

/// How the neighbours of a query are chosen.
#[derive(Debug, Clone, Copy, PartialEq, Eq, Structural)]
pub enum WindowType {
    /// Every sample strictly closer than the radius.
    Fixed,
    /// The `k` nearest samples.
    Unfixed,
}

/// A labelled sample.
#[derive(Clone, Copy)]
pub struct Data {
    /// The sample's coordinates.
    pub features: [i32; DIMENSIONS],
    /// The sample's label.
    pub label: Diagnosis,
}

/// The settings a classifier is built with.
#[derive(Debug, Clone, Copy)]
pub struct Hyperparameters {
    /// Number of neighbours taken by an `Unfixed` window.
    pub k: usize,
    /// Radius of a `Fixed` window, in coordinate units.
    pub radius: u64,
    /// The window policy.
    pub window: WindowType,
    /// The kernel that weighs a neighbour by its normalized distance.
    pub kernel: Kernel,
    /// The metric that measures distances.
    pub metric: Metric,
}

impl Hyperparameters {
    /// The settings a search starts from: a `Fixed` window of radius zero, no
    /// neighbours, the uniform kernel and the Manhattan metric. They name no
    /// usable window and are meant to be replaced.
    pub fn new() -> (hyper: Hyperparameters)
        ensures
            hyper == (Hyperparameters {
                k: 0,
                radius: 0,
                window: WindowType::Fixed,
                kernel: Kernel::Uniform,
                metric: Metric::Manhattan,
            }),
    {
        Hyperparameters {
            k: 0,
            radius: 0,
            window: WindowType::Fixed,
            kernel: Kernel::Uniform,
            metric: Metric::Manhattan,
        }
    }
}

/// Why a dataset was refused by `fit`.
#[derive(Debug, Clone, Copy, PartialEq, Eq, Structural)]
pub enum ConfigurationError {
    /// The window is `Fixed` and the radius is zero.
    NonPositiveRadius,
    /// The window is `Unfixed` and `k` is zero.
    ZeroNeighbours,
    /// Weights were given, but not one per sample.
    WeightCountMismatch,
    /// The dataset has more samples than a classifier holds.
    TooManySamples,
}

/// No sample lies inside the window around the query.
#[derive(Debug, Clone, Copy, PartialEq, Eq, Structural)]
pub struct NoNeighborsError {}

/// The feature vectors of a dataset, in order.
pub open spec fn features_of(data: Seq<Data>) -> Seq<Seq<i32>> {
    Seq::new(data.len(), |i: int| data[i].features@)
}

/// The kernel value of each neighbour.
pub open spec fn kernel_values_of(hyper: Hyperparameters, found: Seq<(u128, usize)>) -> Seq<u64> {
    Seq::new(
        found.len(),
        |j: int|
            hyper.kernel.value(
                normalized(hyper.metric, found[j].0 as int, window_scale(hyper, found)),
            ) as u64,
    )
}

/// The label of each neighbour.
pub open spec fn targets_of(data: Seq<Data>, found: Seq<(u128, usize)>) -> Seq<Diagnosis> {
    Seq::new(found.len(), |j: int| data[found[j].1 as int].label)
}

/// The sample weight of each neighbour.
pub open spec fn weights_of(weights: Seq<u64>, found: Seq<(u128, usize)>) -> Seq<u64> {
    Seq::new(found.len(), |j: int| weights[found[j].1 as int])
}

/// The label predicted for `query` from a dataset and its weights, or `None`
/// when the window around the query holds no sample.
pub open spec fn predicted(
    hyper: Hyperparameters,
    data: Seq<Data>,
    weights: Seq<u64>,
    query: Seq<i32>,
) -> Option<Diagnosis> {
    let found = neighbourhood(hyper, features_of(data), query);
    if found.len() == 0 {
        None
    } else {
        Some(
            winner(kernel_values_of(hyper, found), targets_of(data, found), weights_of(weights, found)),
        )
    }
}

/// What `predict` returns for `query`: the predicted label, or the error when
/// the window around the query holds no sample.
pub open spec fn prediction(
    hyper: Hyperparameters,
    data: Seq<Data>,
    weights: Seq<u64>,
    query: Seq<i32>,
) -> Result<Diagnosis, NoNeighborsError> {
    match predicted(hyper, data, weights, query) {
        Some(label) => Ok(label),
        None => Err(NoNeighborsError {  }),
    }
}

/// Two classifiers with the same settings, dataset and weights predict the
/// same for every query; in particular, so does one classifier asked twice.
pub proof fn lemma_prediction_is_determined(first: Knn, second: Knn, query: Seq<i32>)
    requires
        first.hyper() == second.hyper(),
        first.dataset() == second.dataset(),
        first.sample_weights() == second.sample_weights(),
    ensures
        prediction(first.hyper(), first.dataset(), first.sample_weights(), query) == prediction(
            second.hyper(),
            second.dataset(),
            second.sample_weights(),
            query,
        ),
{
}

/// A prediction is an error exactly when the query has no neighbour, and
/// otherwise a label carried by one of the neighbours.
pub proof fn lemma_prediction_comes_from_a_neighbour(
    hyper: Hyperparameters,
    data: Seq<Data>,
    weights: Seq<u64>,
    query: Seq<i32>,
)
    ensures
        prediction(hyper, data, weights, query).is_err() <==> neighbourhood(
            hyper,
            features_of(data),
            query,
        ).len() == 0,
        prediction(hyper, data, weights, query).is_ok() ==> targets_of(
            data,
            neighbourhood(hyper, features_of(data), query),
        ).contains(prediction(hyper, data, weights, query).unwrap()),
{
    let found = neighbourhood(hyper, features_of(data), query);
    if found.len() > 0 {
        let targets = targets_of(data, found);
        assert(targets[0] == Diagnosis::Malignant || targets[0] == Diagnosis::Benign);
        assert(targets.contains(targets[0]));
    }
}

/// The weights a dataset is fitted with: those given, or 1.0 for every sample.
pub open spec fn fitted_weights(count: nat, weights: Option<Seq<u64>>) -> Seq<u64> {
    match weights {
        Some(given) => given,
        None => Seq::new(count, |i: int| UNIT),
    }
}

/// The reason, if any, for which `fit` refuses a dataset. The reasons are
/// tried in the order in which `ConfigurationError` lists them.
pub open spec fn fit_error(hyper: Hyperparameters, data: Seq<Data>, weights: Option<Seq<u64>>)
    -> Option<ConfigurationError> {
    if hyper.window == WindowType::Fixed && hyper.radius == 0 {
        Some(ConfigurationError::NonPositiveRadius)
    } else if hyper.window == WindowType::Unfixed && hyper.k == 0 {
        Some(ConfigurationError::ZeroNeighbours)
    } else if weights.is_some() && weights.unwrap().len() != data.len() {
        Some(ConfigurationError::WeightCountMismatch)
    } else if data.len() > MAX_POINTS {
        Some(ConfigurationError::TooManySamples)
    } else {
        None
    }
}

/// The weights of an optional vector, as a sequence.
pub open spec fn weights_view(weights: Option<Vec<u64>>) -> Option<Seq<u64>> {
    match weights {
        Some(given) => Some(given@),
        None => None,
    }
}

/// Builds the index over a dataset.
fn build_tree(data: &Vec<Data>) -> (tree: PointTree)
    requires
        data@.len() <= MAX_POINTS,
        splittable(features_of(data@)),
    ensures
        filled_in_order(tree),
        indexed_points(tree) == features_of(data@),
{
    let ghost points = features_of(data@);
    let mut tree = tree_with_capacity(data.len());
    let mut i: usize = 0;
    while i < data.len()
        invariant
            i <= data@.len() <= MAX_POINTS,
            points == features_of(data@),
            splittable(points),
            filled_in_order(tree),
            indexed_points(tree) == points.subrange(0, i as int),
        decreases data@.len() - i,
    {
        proof {
            lemma_prefix_splittable(points, i as int);
        }
        tree_add(&mut tree, &data[i].features, i);
        assert(indexed_points(tree) =~= points.subrange(0, i as int + 1));
        i += 1;
    }
    assert(points.subrange(0, points.len() as int) =~= points);
    tree
}

/// One weight of 1.0 for each of `count` samples.
fn unit_weights(count: usize) -> (weights: Vec<u64>)
    ensures
        weights@ == fitted_weights(count as nat, None),
{
    let mut weights: Vec<u64> = Vec::new();
    let mut i: usize = 0;
    while i < count
        invariant
            i <= count,
            weights@.len() == i,
            forall|j: int| 0 <= j < i ==> weights@[j] == UNIT,
        decreases count - i,
    {
        weights.push(UNIT);
        i += 1;
    }
    assert(weights@ =~= fitted_weights(count as nat, None));
    weights
}

/// A nearest-neighbour classifier.
pub struct Knn {
    hyper: Hyperparameters,
    kd_tree: PointTree,
    indexed: bool,
    data: Vec<Data>,
    weights: Vec<u64>,
    fitted: bool,
}

impl Knn {
    /// The settings the classifier was built with.
    pub closed spec fn hyper(&self) -> Hyperparameters {
        self.hyper
    }

    /// The fitted dataset; empty before the first `fit`.
    pub closed spec fn dataset(&self) -> Seq<Data> {
        self.data@
    }

    /// The weight of each fitted sample; empty before the first `fit`.
    pub closed spec fn sample_weights(&self) -> Seq<u64> {
        self.weights@
    }

    /// Whether a `fit` has succeeded.
    pub closed spec fn is_fitted(&self) -> bool {
        self.fitted
    }

    /// The classifier's invariant: one weight per sample; once fitted, a usable
    /// window, and an index that holds the samples' feature vectors in dataset
    /// order wherever the index serves.
    pub closed spec fn wf(&self) -> bool {
        &&& self.weights@.len() == self.data@.len()
        &&& self.data@.len() <= MAX_POINTS
        &&& !self.fitted ==> self.data@.len() == 0
        &&& self.fitted ==> usable_window(self.hyper)
        &&& self.fitted ==> self.indexed == index_serves(
            self.hyper.metric,
            features_of(self.data@),
        )
        &&& self.fitted && self.indexed ==> filled_in_order(self.kd_tree) && indexed_points(
            self.kd_tree,
        ) == features_of(self.data@)
    }

    /// What the invariant gives of a fitted classifier: a usable window, one
    /// weight per sample, and no more samples than a classifier holds.
    pub proof fn lemma_fitted(&self)
        requires
            self.wf(),
            self.is_fitted(),
        ensures
            usable_window(self.hyper()),
            self.sample_weights().len() == self.dataset().len(),
            self.dataset().len() <= MAX_POINTS,
    {
    }

    /// Creates a classifier that has not been fitted. `capacity` is a hint for
    /// the number of samples to come.
    pub fn new(
        k: usize,
        radius: u64,
        window: &WindowType,
        kernel: Kernel,
        metric: Metric,
        capacity: usize,
    ) -> (knn: Knn)
        ensures
            knn.wf(),
            !knn.is_fitted(),
            knn.hyper() == (Hyperparameters { k, radius, window: *window, kernel, metric }),
            knn.dataset() == Seq::<Data>::empty(),
            knn.sample_weights() == Seq::<u64>::empty(),
    {
        let reserve: usize = if capacity <= MAX_POINTS {
            capacity
        } else {
            MAX_POINTS
        };
        Knn {
            hyper: Hyperparameters { k, radius, window: *window, kernel, metric },
            kd_tree: tree_with_capacity(reserve),
            indexed: false,
            data: Vec::new(),
            weights: Vec::new(),
            fitted: false,
        }
    }

    /// The settings the classifier was built with.
    pub fn hyperparameters(&self) -> (hyper: Hyperparameters)
        ensures
            hyper == self.hyper(),
    {
        self.hyper
    }

    /// The fitted dataset.
    pub fn data(&self) -> (data: &Vec<Data>)
        ensures
            data@ == self.dataset(),
    {
        &self.data
    }

    /// The weight of each fitted sample.
    pub fn weights(&self) -> (weights: &Vec<u64>)
        ensures
            weights@ == self.sample_weights(),
    {
        &self.weights
    }

    /// Whether a `fit` has succeeded.
    pub fn fitted(&self) -> (fitted: bool)
        ensures
            fitted == self.is_fitted(),
    {
        self.fitted
    }

    /// Replaces the dataset and its weights, and rebuilds the index from
    /// scratch if it is to serve. A refused dataset leaves the classifier as it
    /// was.
    pub fn fit(&mut self, data: Vec<Data>, weights: Option<Vec<u64>>) -> (result: Result<
        (),
        ConfigurationError,
    >)
        requires
            old(self).wf(),
        ensures
            final(self).wf(),
            final(self).hyper() == old(self).hyper(),
            match fit_error(old(self).hyper(), data@, weights_view(weights)) {
                Some(reason) => result == Err::<(), ConfigurationError>(reason) && *final(self)
                    == *old(self),
                None => result == Ok::<(), ConfigurationError>(()) && final(self).is_fitted()
                    && final(self).dataset() == data@ && final(self).sample_weights()
                    == fitted_weights(data@.len(), weights_view(weights)),
            },
    {
        if matches!(self.hyper.window, WindowType::Fixed) && self.hyper.radius == 0 {
            return Err(ConfigurationError::NonPositiveRadius);
        }
        if matches!(self.hyper.window, WindowType::Unfixed) && self.hyper.k == 0 {
            return Err(ConfigurationError::ZeroNeighbours);
        }
        match &weights {
            Some(given) => {
                if given.len() != data.len() {
                    return Err(ConfigurationError::WeightCountMismatch);
                }
            },
            None => {},
        }
        if data.len() > MAX_POINTS {
            return Err(ConfigurationError::TooManySamples);
        }
        let indexed: bool = match self.hyper.metric {
            Metric::Chebyshev => false,
            _ => can_index(&data),
        };
        self.kd_tree = if indexed {
            build_tree(&data)
        } else {
            tree_with_capacity(0)
        };
        self.indexed = indexed;
        self.weights = match weights {
            Some(given) => given,
            None => unit_weights(data.len()),
        };
        self.data = data;
        self.fitted = true;
        Ok(())
    }

    /// Asks the index for the samples strictly inside `threshold`.
    fn ask_within(&self, x: &[i32; DIMENSIONS], threshold: u128) -> (found: Vec<(u128, usize)>)
        requires
            self.wf(),
            self.is_fitted(),
            self.indexed,
            threshold <= MAX_THRESHOLD,
        ensures
            is_within(
                features_of(self.dataset()),
                self.hyper().metric,
                x@,
                threshold as int,
                found@,
            ),
    {
        match self.hyper.metric {
            Metric::Manhattan => tree_within_manhattan(&self.kd_tree, x, threshold),
            Metric::SquaredEuclidean => tree_within_squared_euclidean(&self.kd_tree, x, threshold),
            Metric::Chebyshev => range_scan(&self.data, Metric::Chebyshev, x, threshold),
        }
    }

    /// Asks the index for the `k` nearest samples.
    fn ask_nearest(&self, x: &[i32; DIMENSIONS], k: usize) -> (found: Vec<(u128, usize)>)
        requires
            self.wf(),
            self.is_fitted(),
            self.indexed,
            1 <= k <= self.dataset().len(),
        ensures
            is_nearest(features_of(self.dataset()), self.hyper().metric, x@, found@),
            found@.len() >= k,
    {
        match self.hyper.metric {
            Metric::Manhattan => tree_nearest_manhattan(&self.kd_tree, x, k),
            Metric::SquaredEuclidean => tree_nearest_squared_euclidean(&self.kd_tree, x, k),
            Metric::Chebyshev => nearest_scan(&self.data, Metric::Chebyshev, x, k),
        }
    }

    /// Answers a range query from the index and ranks the answer.
    fn indexed_within(&self, x: &[i32; DIMENSIONS], threshold: u128) -> (found: Vec<(u128, usize)>)
        requires
            self.wf(),
            self.is_fitted(),
            self.indexed,
            threshold <= MAX_THRESHOLD,
        ensures
            found@ == scan_within(
                features_of(self.dataset()),
                self.hyper().metric,
                x@,
                threshold,
                self.dataset().len() as int,
            ),
    {
        let ghost points = features_of(self.data@);
        let candidates = self.ask_within(x, threshold);
        let found = rank(&candidates);
        proof {
            let scanned = scan_within(points, self.hyper.metric, x@, threshold, points.len() as int);
            lemma_rank_keeps_within(
                points,
                self.hyper.metric,
                x@,
                threshold as int,
                candidates@,
                found@,
            );
            lemma_scan_within(points, self.hyper.metric, x@, threshold, points.len() as int);
            lemma_scan_within_ranked(points, self.hyper.metric, x@, threshold, points.len() as int);
            lemma_ranked_within_unique(
                points,
                self.hyper.metric,
                x@,
                threshold as int,
                found@,
                scanned,
            );
        }
        found
    }

    /// Answers a nearest-neighbour query from the index: asks it for the `k`
    /// nearest samples, then for every sample as near as the `k`-th of them,
    /// and takes the first `k` of those in rank. The second question brings in
    /// the samples that tie with the `k`-th, of which the index may have taken
    /// any.
    fn indexed_nearest(&self, x: &[i32; DIMENSIONS], k: usize) -> (found: Vec<(u128, usize)>)
        requires
            self.wf(),
            self.is_fitted(),
            self.indexed,
            1 <= k <= self.dataset().len(),
        ensures
            found@ == scan_nearest(
                features_of(self.dataset()),
                self.hyper().metric,
                x@,
                k,
                self.dataset().len() as int,
            ),
    {
        let ghost points = features_of(self.data@);
        let nearest = self.ask_nearest(x, k);
        let reach: u128 = nearest[k - 1].0;
        proof {
            let last = nearest@[k - 1];
            assert(last.0 as int == self.hyper.metric.distance(x@, points[last.1 as int]));
            lemma_distance_bounded(self.hyper.metric, x@, points[last.1 as int]);
        }
        let threshold: u128 = reach + 1;
        let candidates = self.ask_within(x, threshold);
        let mut found = rank(&candidates);
        proof {
            // The samples within reach are at least the `k` that set it.
            let leading = nearest@.subrange(0, k as int);
            assert forall|j: int| 0 <= j < leading.len() implies mentions(
                candidates@,
                (#[trigger] leading[j]).1 as int,
            ) by {
                assert(leading[j] == nearest@[j]);
                assert(nearest@[j].0 <= nearest@[k - 1].0);
                let id = nearest@[j].1 as int;
                assert(self.hyper.metric.distance(x@, points[id]) < threshold);
            }
            assert forall|i: int, j: int| 0 <= i < j < leading.len() implies (
            #[trigger] leading[i]).1 != (#[trigger] leading[j]).1 by {
                assert(leading[i] == nearest@[i]);
                assert(leading[j] == nearest@[j]);
            }
            lemma_mentioned_count(leading, candidates@);
        }
        let ghost sorted = found@;
        found.truncate(k);
        proof {
            let scanned = scan_nearest(points, self.hyper.metric, x@, k, points.len() as int);
            lemma_rank_keeps_within(
                points,
                self.hyper.metric,
                x@,
                threshold as int,
                candidates@,
                sorted,
            );
            lemma_ranked_within_leads(
                points,
                self.hyper.metric,
                x@,
                threshold as int,
                sorted,
                k as int,
            );
            assert(found@ =~= sorted.subrange(0, k as int));
            lemma_scan_nearest(points, self.hyper.metric, x@, k, points.len() as int);
            lemma_scan_nearest_ranked(points, self.hyper.metric, x@, k, points.len() as int);
            lemma_ranked_nearest_unique(points, self.hyper.metric, x@, found@, scanned);
        }
        found
    }

    /// Retrieves the neighbours of `x`: pairs of distance, in the metric's own
    /// space, and dataset position, nearest first and in dataset order among
    /// equally distant samples.
    pub fn neighbours(&self, x: &[i32; DIMENSIONS]) -> (found: Vec<(u128, usize)>)
        requires
            self.wf(),
            self.is_fitted(),
        ensures
            found@ == neighbourhood(self.hyper(), features_of(self.dataset()), x@),
            answers_window(self.hyper(), features_of(self.dataset()), x@, found@),
    {
        proof {
            lemma_neighbourhood_answers(self.hyper, features_of(self.data@), x@);
        }
        match self.hyper.window {
            WindowType::Fixed => {
                let native: u128 = native_radius(self.hyper.metric, self.hyper.radius);
                let threshold: u128 = if native <= MAX_THRESHOLD {
                    native
                } else {
                    MAX_THRESHOLD
                };
                if self.indexed {
                    self.indexed_within(x, threshold)
                } else {
                    range_scan(&self.data, self.hyper.metric, x, threshold)
                }
            },
            WindowType::Unfixed => {
                let k: usize = if self.hyper.k <= self.data.len() {
                    self.hyper.k
                } else {
                    self.data.len()
                };
                if self.indexed && k >= 1 {
                    self.indexed_nearest(x, k)
                } else {
                    nearest_scan(&self.data, self.hyper.metric, x, k)
                }
            },
        }
    }

    /// Retrieves the neighbours of `x` and returns, for each of them in turn,
    /// its kernel value, its label and its sample weight.
    pub fn predict_with_neighbors(&self, x: &[i32; DIMENSIONS]) -> (voters: (
        Vec<u64>,
        Vec<Diagnosis>,
        Vec<u64>,
    ))
        requires
            self.wf(),
            self.is_fitted(),
        ensures
            voters.0@ == kernel_values_of(
                self.hyper(),
                neighbourhood(self.hyper(), features_of(self.dataset()), x@),
            ),
            voters.1@ == targets_of(
                self.dataset(),
                neighbourhood(self.hyper(), features_of(self.dataset()), x@),
            ),
            voters.2@ == weights_of(
                self.sample_weights(),
                neighbourhood(self.hyper(), features_of(self.dataset()), x@),
            ),
            answers_window(
                self.hyper(),
                features_of(self.dataset()),
                x@,
                neighbourhood(self.hyper(), features_of(self.dataset()), x@),
            ),
            kernel_values_in_range(voters.0@),
            voters.0@.len() <= MAX_POINTS,
    {
        let found = self.neighbours(x);
        let ghost points = features_of(self.data@);
        let scale: u128 = match self.hyper.window {
            WindowType::Fixed => native_radius(self.hyper.metric, self.hyper.radius),
            WindowType::Unfixed => if found.len() == 0 {
                0
            } else {
                found[found.len() - 1].0
            },
        };
        let mut kernel_distances: Vec<u64> = Vec::new();
        let mut targets: Vec<Diagnosis> = Vec::new();
        let mut weights: Vec<u64> = Vec::new();
        let mut j: usize = 0;
        while j < found.len()
            invariant
                j <= found@.len(),
                self.wf(),
                x@.len() == DIMENSIONS,
                points == features_of(self.data@),
                answers_window(self.hyper, points, x@, found@),
                scale as int == window_scale(self.hyper, found@),
                kernel_distances@.len() == j,
                targets@.len() == j,
                weights@.len() == j,
                forall|i: int|
                    0 <= i < j ==> #[trigger] kernel_distances@[i] == kernel_values_of(
                        self.hyper,
                        found@,
                    )[i],
                forall|i: int|
                    0 <= i < j ==> #[trigger] targets@[i] == targets_of(self.data@, found@)[i],
                forall|i: int|
                    0 <= i < j ==> #[trigger] weights@[i] == weights_of(self.weights@, found@)[i],
                kernel_values_in_range(kernel_distances@),
            decreases found@.len() - j,
        {
            let distance: u128 = found[j].0;
            let position: usize = found[j].1;
            proof {
                let pair = found@[j as int];
                assert(pair.1 < points.len());
                assert(pair.0 as int == self.hyper.metric.distance(x@, points[pair.1 as int]));
                lemma_distance_bounded(self.hyper.metric, x@, points[pair.1 as int]);
                if self.hyper.window == WindowType::Unfixed {
                    assert(found@[j as int].0 <= found@[found@.len() - 1].0);
                }
            }
            let ratio: u64 = normalize_distance(self.hyper.metric, distance, scale);
            let value: u64 = self.hyper.kernel.eval(ratio);
            kernel_distances.push(value);
            targets.push(self.data[position].label);
            weights.push(self.weights[position]);
            j += 1;
        }
        proof {
            assert(kernel_distances@ =~= kernel_values_of(self.hyper, found@));
            assert(targets@ =~= targets_of(self.data@, found@));
            assert(weights@ =~= weights_of(self.weights@, found@));
        }
        (kernel_distances, targets, weights)
    }

    /// Predicts the label of `x`: the label elected by the neighbours of `x`,
    /// or an error when `x` has no neighbour.
    pub fn predict(&self, x: &[i32; DIMENSIONS]) -> (result: Result<Diagnosis, NoNeighborsError>)
        requires
            self.wf(),
            self.is_fitted(),
        ensures
            result == prediction(self.hyper(), self.dataset(), self.sample_weights(), x@),
            result.is_err() <==> neighbourhood(
                self.hyper(),
                features_of(self.dataset()),
                x@,
            ).len() == 0,
            answers_window(
                self.hyper(),
                features_of(self.dataset()),
                x@,
                neighbourhood(self.hyper(), features_of(self.dataset()), x@),
            ),
    {
        let (kernel_distances, targets, weights) = self.predict_with_neighbors(x);
        if targets.is_empty() || weights.is_empty() {
            return Err(NoNeighborsError {  });
        }
        let predicted_class = Self::predict_class(&kernel_distances, &targets, &weights);
        Ok(predicted_class)
    }
}

} // verus!
