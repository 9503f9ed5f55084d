//! Infostop: detect stop locations in mobility trajectories.
//!
//! This crate holds the discrete core of the Infostop pipeline, proved with
//! Verus: the deterministic random generator that drives community search,
//! partition relabeling, stay segmentation bookkeeping, unique-ing of stay
//! positions, neighbor-list and edge construction, the label assignment
//! around community detection, and the mapping of labels back onto every
//! trajectory point.

pub mod types;
pub mod rng;
pub mod partition;
pub mod stay;
pub mod unique;
pub mod neighbors;
pub mod cluster;
pub mod labels;
pub mod plot;
