//! Labelled observations and the well-formedness of a data set.
use vstd::prelude::*;
use crate::math::{coords_within, MAX_COORD, MAX_DIM, MAX_POINTS};

verus! {

/// A point with integer coordinates, its cluster id (once seeded) and its
/// ground-truth label.
pub struct Observation {
    pub position: Vec<i64>,
    pub cluster: Option<usize>,
    pub label: String,
}

impl Observation {
    /// An observation that belongs to no cluster yet.
    pub fn new(position: Vec<i64>, label: String) -> (r: Self)
        ensures
            r.position == position,
            r.cluster is None,
            r.label == label,
    {
        Observation { position, cluster: None, label }
    }
}

/// The dimensionality of a data set: that of its first observation.
pub open spec fn dim_of(obs: Seq<Observation>) -> int {
    obs[0].position@.len() as int
}

/// A non-empty data set whose points share one dimensionality and whose sizes
/// and coordinates fit the exact arithmetic of this crate.
pub open spec fn valid_data(obs: Seq<Observation>) -> bool {
    &&& 0 < obs.len() <= MAX_POINTS
    &&& 1 <= dim_of(obs) <= MAX_DIM
    &&& forall|j: int|
        0 <= j < obs.len() ==> (#[trigger] obs[j]).position@.len() == dim_of(obs)
            && coords_within(obs[j].position@, MAX_COORD as int)
}

/// Every observation carries a cluster id in `[1, k]`.
pub open spec fn seeded(obs: Seq<Observation>, k: int) -> bool {
    forall|j: int|
        0 <= j < obs.len() ==> (#[trigger] obs[j]).cluster is Some && 1 <= obs[j].cluster->0
            <= k
}

/// Two data sets that differ at most in their cluster ids.
pub open spec fn same_points(a: Seq<Observation>, b: Seq<Observation>) -> bool {
    &&& a.len() == b.len()
    &&& forall|j: int|
        0 <= j < a.len() ==> (#[trigger] a[j]).position@ == b[j].position@ && a[j].label@
            == b[j].label@
}

} // verus!
