//! Distance-weighted nearest-neighbour classification over fixed-point
//! feature vectors, with a leave-one-out reweighting pass.
//!
//! All quantities are integers. Coordinates are `i32` values in whatever
//! fixed-point scale the caller chose; kernel values, normalized distances,
//! sample weights and scores are expressed in millionths (see
//! [`kernel::UNIT`]). Distances are kept in the metric's own space, so the
//! squared Euclidean metric never takes a square root of a distance; the root
//! enters only where a distance is normalized by the scale of its window.
//!
//! A classifier is built with [`knn::Knn::new`], given a dataset with
//! [`knn::Knn::fit`] and asked with [`knn::Knn::predict`]. What a prediction is
//! follows from four definitions: the neighbours of the query
//! ([`window::neighbourhood`]), their normalized distances
//! ([`scale::normalized`]), the kernel ([`kernel::Kernel::value`]) and the vote
//! ([`vote::winner`]).
//!
//! The neighbours are defined as a scan of the dataset finds them, ranked by
//! distance and by dataset position among equals. Where a k-d tree can hold the
//! dataset, the classifier asks the tree instead and ranks what it returns;
//! [`ranking`] shows that this is the same list.

pub mod crowding;
pub mod distance_metric;
pub mod evaluation;
pub mod index;
pub mod kernel;
pub mod knn;
pub mod lowess;
pub mod neighbours;
pub mod parse;
pub mod ranking;
pub mod scale;
pub mod text;
pub mod vote;
pub mod window;
