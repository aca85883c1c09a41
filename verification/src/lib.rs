//! Clinical-similarity graph engine.
//!
//! Feature vectors of clinical measurements are compared by a weighted
//! Euclidean metric, assembled into a weighted undirected graph, partitioned
//! into communities by synchronous label propagation, and scored by a
//! silhouette-style validator.  All real-valued quantities are carried as
//! fixed-point integers: measurements in thousandths of their unit, and
//! similarities in millionths (`SIM_ONE` is the similarity of a vector with
//! itself).

pub mod num;
pub mod graph;
pub mod store;
pub mod connect;
pub mod cluster;
pub mod validation;
