//! Clustering of numeric samples by population-based search: discrete
//! labelings, their optimal alignment against a reference labeling, accuracy,
//! and the integer decisions of the search algorithms.

pub mod model;
pub mod utilities;
pub mod utility;
