//! Clustering and classification over fixed-point coordinates.
//!
//! A coordinate is an `i64` counting millionths: the value `v` stands for
//! `v / UNITS_PER_ONE`. Distances are computed exactly on these integers, so the
//! order of points by distance is the order of the real numbers they stand for.
//!
//! - `distance`: squared and Euclidean distance between points.
//! - `seeding`: K-Means++ choice of the initial centroids.
//! - `kmeans`: assignment, centroid update and Lloyd's iteration to convergence.
//! - `labels`: cluster labels and membership counts.
//! - `knn`: k-nearest-neighbour search and majority vote.
//! - `decision_tree`: prediction with an ID3 decision tree.
//! - `dataset`, `generate`: datasets and random data to run the above on.

pub mod dataset;
pub mod decision_tree;
pub mod distance;
pub mod generate;
pub mod kmeans;
pub mod knn;
pub mod labels;
mod random;
pub mod seeding;
