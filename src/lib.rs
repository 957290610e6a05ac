//! Lloyd's k-means over labelled integer points, with exact centroids.

pub mod math;
pub mod observation;
pub mod centroid;
pub mod assign;
pub mod purity;
pub mod seed;
pub mod run;
