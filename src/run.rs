//! The clustering loop: seeded assignments are refined until no cluster id
//! changes, recording the metrics of every pass.
use vstd::prelude::*;
use crate::assign::{
    assign_nearest, at_nearest, dist_key, lemma_nearest_is_first_minimum, nearest_index,
};
use crate::centroid::{
    all_centroids_of, centroid_fits, coord_total, get_all_centroids, is_centroid_of,
    lemma_totals_agree, member_count, Centroid, ClusterError,
};
use crate::math::scaled_sq;
use crate::observation::{dim_of, same_points, seeded, valid_data, Observation};
use crate::purity::{cluster_purity, is_purity_of, sum_counts, ClusterPurity};

verus! {

/// How a run ended.
#[derive(Debug, Clone, Copy, PartialEq, Eq, Structural)]
pub enum Outcome {
    /// A pass changed no cluster id.
    Converged,
    /// After `iteration` passes (0: right after seeding), cluster `cluster`
    /// had no member.
    EmptyCluster { iteration: usize, cluster: usize },
    /// The pass limit was reached while ids still changed.
    IterationLimit,
}

/// What one pass of the loop saw and produced.
pub struct IterationReport {
    /// The centroids the observations were assigned against.
    pub centroids: Vec<Centroid>,
    /// Some cluster id changed in this pass.
    pub changed: bool,
    /// For each observation, its squared distance to the centroid of its new
    /// cluster, scaled by the square of that centroid's member count.
    pub offsets: Vec<u128>,
    /// The label breakdown of each cluster `1..=k` after the pass.
    pub purity: Vec<ClusterPurity>,
}

/// The history and result of a run.
pub struct RunReport {
    pub iterations: Vec<IterationReport>,
    /// On convergence, the centroids of the final clusters.
    pub centroids: Vec<Centroid>,
    pub outcome: Outcome,
}

/// `rep` holds the metrics of `obs` against `cents`: the label breakdown of
/// each cluster `1..=k` and each observation's offset from its centroid.
pub open spec fn pass_metrics(rep: IterationReport, obs: Seq<Observation>, cents: Seq<Centroid>, k: int) -> bool {
    &&& rep.purity@.len() == k
    &&& forall|c: int| 0 <= c < k ==> is_purity_of(#[trigger] rep.purity@[c], obs, c + 1)
    &&& rep.offsets@.len() == obs.len()
    &&& forall|j: int|
        0 <= j < obs.len() ==> #[trigger] rep.offsets@[j] == dist_key(
            obs[j].position@,
            cents[obs[j].cluster->0 - 1],
        )
}

/// Two centroids with the same cluster id, member count and sums.
pub open spec fn same_centroid(a: Centroid, b: Centroid) -> bool {
    a.cluster == b.cluster && a.count == b.count && a.sum@ == b.sum@
}

/// Two data sets with the same positions and cluster ids.
pub open spec fn same_state(a: Seq<Observation>, b: Seq<Observation>) -> bool {
    &&& a.len() == b.len()
    &&& forall|j: int|
        0 <= j < a.len() ==> (#[trigger] a[j]).cluster == b[j].cluster && a[j].position@
            == b[j].position@
}

proof fn lemma_nearest_agrees(x: Seq<i64>, c1: Seq<Centroid>, c2: Seq<Centroid>, n: int)
    requires
        0 <= n <= c1.len(),
        c1.len() == c2.len(),
        forall|c: int| 0 <= c < c1.len() ==> same_centroid(#[trigger] c1[c], c2[c]),
    ensures
        nearest_index(x, c1, n) == nearest_index(x, c2, n),
        n >= 1 ==> 0 <= nearest_index(x, c1, n) < n,
    decreases n,
{
    if n > 1 {
        lemma_nearest_agrees(x, c1, c2, n - 1);
        let r = nearest_index(x, c1, n - 1);
        assert(same_centroid(c1[r], c2[r]));
        assert(dist_key(x, c1[r]) == dist_key(x, c2[r]));
        assert(dist_key(x, c1[n - 1]) == dist_key(x, c2[n - 1]));
        assert(same_centroid(c1[n - 1], c2[n - 1]));
    }
}

/// A pass is determined by the state it starts from: two runs at the same
/// positions and cluster ids compute the same centroids, and after a pass
/// against those centroids they hold the same cluster ids again. Repeating a
/// run from one seeded state thus repeats its centroids and its metrics.
pub proof fn lemma_pass_deterministic(
    o1: Seq<Observation>,
    o2: Seq<Observation>,
    c1: Seq<Centroid>,
    c2: Seq<Centroid>,
    after1: Seq<Observation>,
    after2: Seq<Observation>,
    k: int,
)
    requires
        valid_data(o1),
        same_state(o1, o2),
        all_centroids_of(c1, o1, k),
        all_centroids_of(c2, o2, k),
        same_points(o1, after1),
        same_points(o2, after2),
        at_nearest(after1, c1),
        at_nearest(after2, c2),
    ensures
        forall|c: int| 0 <= c < k ==> same_centroid(#[trigger] c1[c], c2[c]),
        same_state(after1, after2),
{
    assert(o1[0].position@ == o2[0].position@);
    assert forall|c: int| 0 <= c < k implies same_centroid(#[trigger] c1[c], c2[c]) by {
        lemma_totals_agree(o1, o2, c + 1, 0);
        assert forall|i: int| 0 <= i < dim_of(o1) implies #[trigger] c1[c].sum@[i] == c2[c].sum@[i] by {
            lemma_totals_agree(o1, o2, c + 1, i);
        }
        assert(c1[c].sum@ =~= c2[c].sum@);
    }
    assert forall|j: int| 0 <= j < after1.len() implies (#[trigger] after1[j]).cluster == after2[j].cluster
        && after1[j].position@ == after2[j].position@ by {
        assert(after1[j].position@ == o1[j].position@);
        assert(after2[j].position@ == o2[j].position@);
        lemma_nearest_agrees(after1[j].position@, c1, c2, c1.len() as int);
    }
}

/// For each observation, the scaled squared distance to the centroid of its
/// own cluster (`centroids[cluster - 1]`).
pub fn offsets(observations: &Vec<Observation>, centroids: &Vec<Centroid>) -> (r: Vec<u128>)
    requires
        valid_data(observations@),
        seeded(observations@, centroids@.len() as int),
        forall|c: int|
            0 <= c < centroids@.len() ==> centroid_fits(#[trigger] centroids@[c], dim_of(observations@)),
    ensures
        r@.len() == observations@.len(),
        forall|j: int|
            0 <= j < r@.len() ==> #[trigger] r@[j] == dist_key(
                observations@[j].position@,
                centroids@[observations@[j].cluster->0 - 1],
            ),
{
    let mut r: Vec<u128> = Vec::new();
    let mut j: usize = 0;
    while j < observations.len()
        invariant
            valid_data(observations@),
            seeded(observations@, centroids@.len() as int),
            forall|c: int|
                0 <= c < centroids@.len() ==> centroid_fits(#[trigger] centroids@[c], dim_of(observations@)),
            j <= observations@.len(),
            r@.len() == j,
            forall|t: int|
                0 <= t < j ==> #[trigger] r@[t] == dist_key(
                    observations@[t].position@,
                    centroids@[observations@[t].cluster->0 - 1],
                ),
        decreases observations@.len() - j,
    {
        let o = &observations[j];
        assert(observations@[j as int].position@.len() == dim_of(observations@));
        let c: usize = match o.cluster {
            Some(c) => c,
            None => 1,
        };
        let cen = &centroids[c - 1];
        assert(centroid_fits(centroids@[c - 1], dim_of(observations@)));
        let d = scaled_sq(&o.position, &cen.sum, cen.count);
        r.push(d);
        j = j + 1;
    }
    r
}

/// The label breakdown of each cluster `1..=k`, at index `c - 1` for cluster `c`.
pub fn purity_all(observations: &Vec<Observation>, k: usize) -> (r: Vec<ClusterPurity>)
    ensures
        r@.len() == k,
        forall|c: int|
            0 <= c < k ==> is_purity_of(#[trigger] r@[c], observations@, c + 1) && sum_counts(
                r@[c].labels@,
            ) == r@[c].total,
{
    let mut r: Vec<ClusterPurity> = Vec::new();
    let mut c: usize = 0;
    while c < k
        invariant
            c <= k,
            r@.len() == c,
            forall|d: int|
                0 <= d < c ==> is_purity_of(#[trigger] r@[d], observations@, d + 1) && sum_counts(
                    r@[d].labels@,
                ) == r@[d].total,
        decreases k - c,
    {
        r.push(cluster_purity(observations, c + 1));
        c = c + 1;
    }
    r
}

/// Runs the loop on seeded observations for at most `max_iterations` passes.
/// Each pass moves every observation to its nearest centroid, records the
/// metrics, and recomputes the centroids; the run converges when a pass
/// changes no cluster id. On convergence the final clustering is a fixed
/// point: every observation sits at the nearest centroid of the clusters as
/// they end. A cluster left without members stops the run.
pub fn run(observations: &mut Vec<Observation>, k: usize, max_iterations: usize) -> (r: RunReport)
    requires
        k >= 1,
        valid_data(old(observations)@),
        seeded(old(observations)@, k as int),
    ensures
        same_points(old(observations)@, final(observations)@),
        valid_data(final(observations)@),
        seeded(final(observations)@, k as int),
        r.iterations@.len() <= max_iterations,
        r.outcome == Outcome::Converged ==> all_centroids_of(r.centroids@, final(observations)@, k as int)
            && at_nearest(final(observations)@, r.centroids@) && r.iterations@.len() >= 1 && !r.iterations@.last().changed
            && pass_metrics(r.iterations@.last(), final(observations)@, r.centroids@, k as int),
        r.outcome matches Outcome::EmptyCluster { iteration, cluster } ==> 1 <= cluster <= k
            && member_count(final(observations)@, cluster as int) == 0 && iteration
            == r.iterations@.len(),
        r.outcome == Outcome::IterationLimit ==> r.iterations@.len() == max_iterations,
{
    let ghost start = observations@;
    let mut iterations: Vec<IterationReport> = Vec::new();
    let mut cents = match get_all_centroids(observations, k) {
        Ok(cs) => cs,
        Err(ClusterError::EmptyCluster(c)) => {
            return RunReport {
                iterations,
                centroids: Vec::new(),
                outcome: Outcome::EmptyCluster { iteration: 0, cluster: c },
            };
        },
    };
    let mut it: usize = 0;
    while it < max_iterations
        invariant
            k >= 1,
            valid_data(observations@),
            seeded(observations@, k as int),
            start == old(observations)@,
            same_points(start, observations@),
            all_centroids_of(cents@, observations@, k as int),
            forall|c: int| 0 <= c < k ==> centroid_fits(#[trigger] cents@[c], dim_of(observations@)),
            it <= max_iterations,
            iterations@.len() == it,
        decreases max_iterations - it,
    {
        let ghost before = observations@;
        let changed = assign_nearest(observations, &cents);
        proof {
            assert forall|j: int| 0 <= j < observations@.len() implies (#[trigger] observations@[j]).cluster is Some
                && 1 <= observations@[j].cluster->0 <= k by {
                lemma_nearest_is_first_minimum(observations@[j].position@, cents@, cents@.len() as int);
            }
            assert(observations@[0].position@ == before[0].position@);
            assert forall|j: int| 0 <= j < start.len() implies (#[trigger] start[j]).position@
                == observations@[j].position@ && start[j].label@ == observations@[j].label@ by {
                assert(before[j].position@ == observations@[j].position@);
                assert(before[j].label@ == observations@[j].label@);
            }
        }
        let offs = offsets(observations, &cents);
        let purity = purity_all(observations, k);
        match get_all_centroids(observations, k) {
            Ok(next) => {
                if !changed {
                    proof {
                        assert forall|j: int| 0 <= j < before.len() implies (#[trigger] before[j]).cluster
                            == observations@[j].cluster && before[j].position@ == observations@[j].position@ by {}
                        assert forall|c: int| 0 <= c < k implies is_centroid_of(
                            #[trigger] cents@[c],
                            observations@,
                            c + 1,
                            dim_of(observations@),
                        ) by {
                            lemma_totals_agree(before, observations@, c + 1, 0);
                            assert forall|i: int| 0 <= i < dim_of(observations@) implies #[trigger] cents@[c].sum@[i]
                                == coord_total(observations@, c + 1, i) by {
                                lemma_totals_agree(before, observations@, c + 1, i);
                            }
                        }
                    }
                    proof {
                        let obs = observations@;
                        assert forall|c: int| 0 <= c < k implies same_centroid(#[trigger] cents@[c], next@[c]) by {
                            assert(cents@[c].sum@ =~= next@[c].sum@);
                        }
                        assert forall|j: int| 0 <= j < obs.len() implies (#[trigger] obs[j]).cluster == Some(
                            (nearest_index(obs[j].position@, next@, next@.len() as int) + 1) as usize,
                        ) by {
                            lemma_nearest_agrees(obs[j].position@, cents@, next@, k as int);
                        }
                        assert forall|j: int| 0 <= j < obs.len() implies #[trigger] offs@[j] == dist_key(
                            obs[j].position@,
                            next@[obs[j].cluster->0 - 1],
                        ) by {
                            assert(same_centroid(cents@[obs[j].cluster->0 - 1], next@[obs[j].cluster->0 - 1]));
                        }
                    }
                    let rep = IterationReport { centroids: cents, changed, offsets: offs, purity };
                    assert(pass_metrics(rep, observations@, next@, k as int));
                    iterations.push(rep);
                    return RunReport { iterations, centroids: next, outcome: Outcome::Converged };
                }
                let used = cents;
                cents = next;
                iterations.push(IterationReport { centroids: used, changed, offsets: offs, purity });
            },
            Err(ClusterError::EmptyCluster(c)) => {
                iterations.push(IterationReport { centroids: cents, changed, offsets: offs, purity });
                return RunReport {
                    iterations,
                    centroids: Vec::new(),
                    outcome: Outcome::EmptyCluster { iteration: it + 1, cluster: c },
                };
            },
        }
        it = it + 1;
    }
    RunReport { iterations, centroids: Vec::new(), outcome: Outcome::IterationLimit }
}

} // verus!
