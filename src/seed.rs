//! Initial cluster ids, drawn at random or given.
use vstd::prelude::*;
use crate::observation::{same_points, seeded, valid_data, Observation};

verus! {

/// Relies on `rand::random::<usize>`: a value drawn from the thread-local
/// generator. Nothing is known of the value.
#[verifier::external_body]
fn random_usize() -> (r: usize) {
    rand::random::<usize>()
}

/// Sets the cluster of observation `j` to `draws[j] % k + 1`.
pub fn assign_clusters_from(observations: &mut Vec<Observation>, draws: &Vec<usize>, k: usize)
    requires
        k >= 1,
        draws@.len() == old(observations)@.len(),
    ensures
        same_points(old(observations)@, final(observations)@),
        valid_data(old(observations)@) ==> valid_data(final(observations)@),
        seeded(final(observations)@, k as int),
        forall|j: int|
            0 <= j < final(observations)@.len() ==> (#[trigger] final(observations)@[j]).cluster
                == Some((draws@[j] % k + 1) as usize),
{
    let ghost start = observations@;
    let mut j: usize = 0;
    while j < observations.len()
        invariant
            k >= 1,
            draws@.len() == start.len(),
            same_points(start, observations@),
            j <= observations@.len(),
            forall|t: int|
                0 <= t < j ==> (#[trigger] observations@[t]).cluster == Some((draws@[t] % k + 1) as usize),
        decreases observations@.len() - j,
    {
        let c: usize = draws[j] % k + 1;
        observations[j].cluster = Some(c);
        j = j + 1;
    }
    proof {
        if valid_data(start) {
            assert forall|t: int| 0 <= t < observations@.len() implies (#[trigger] observations@[t]).position@ == start[t].position@ by {}
            assert(observations@[0].position@ == start[0].position@);
        }
    }
}

/// Gives every observation a cluster id drawn at random from `[1, k]`.
pub fn assign_random_clusters(observations: &mut Vec<Observation>, k: usize)
    requires
        k >= 1,
    ensures
        same_points(old(observations)@, final(observations)@),
        valid_data(old(observations)@) ==> valid_data(final(observations)@),
        seeded(final(observations)@, k as int),
{
    let mut draws: Vec<usize> = Vec::new();
    let mut j: usize = 0;
    while j < observations.len()
        invariant
            j <= observations@.len(),
            draws@.len() == j,
        decreases observations@.len() - j,
    {
        draws.push(random_usize());
        j = j + 1;
    }
    assign_clusters_from(observations, &draws, k);
}

} // verus!
