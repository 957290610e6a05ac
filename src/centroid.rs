//! Cluster membership and exact centroids.
use vstd::prelude::*;
use crate::math::{coords_within, MAX_COORD, MAX_POINTS};
use crate::observation::{dim_of, valid_data, Observation};

verus! {

/// A failure of the clustering computation.
#[derive(Debug, Clone, Copy, PartialEq, Eq, Structural)]
pub enum ClusterError {
    /// The cluster with this id has no member, so it has no centroid.
    EmptyCluster(usize),
}

/// The mean of a cluster's members, held exactly as the coordinate-wise sum of
/// the members' positions and their number: the mean is `sum[i] / count`.
pub struct Centroid {
    pub cluster: usize,
    pub sum: Vec<i64>,
    pub count: usize,
}

/// `o` belongs to cluster `c`.
pub open spec fn in_cluster(o: Observation, c: int) -> bool {
    o.cluster is Some && o.cluster->0 == c
}

/// The number of members of cluster `c`.
pub open spec fn member_count(obs: Seq<Observation>, c: int) -> nat
    decreases obs.len(),
{
    if obs.len() == 0 {
        0
    } else {
        member_count(obs.drop_last(), c) + if in_cluster(obs.last(), c) {
            1nat
        } else {
            0nat
        }
    }
}

/// The sum of coordinate `i` over the members of cluster `c`.
pub open spec fn coord_total(obs: Seq<Observation>, c: int, i: int) -> int
    decreases obs.len(),
{
    if obs.len() == 0 {
        0
    } else {
        coord_total(obs.drop_last(), c, i) + if in_cluster(obs.last(), c) {
            obs.last().position@[i] as int
        } else {
            0
        }
    }
}

/// `cen` is the centroid of cluster `c` of `obs`, in `dim` dimensions.
pub open spec fn is_centroid_of(cen: Centroid, obs: Seq<Observation>, c: int, dim: int) -> bool {
    &&& cen.cluster == c
    &&& cen.count == member_count(obs, c)
    &&& cen.sum@.len() == dim
    &&& forall|i: int| 0 <= i < dim ==> #[trigger] cen.sum@[i] == coord_total(obs, c, i)
}

/// A centroid whose numbers fit the exact distance comparisons.
pub open spec fn centroid_fits(cen: Centroid, dim: int) -> bool {
    &&& 1 <= cen.count <= MAX_POINTS
    &&& cen.sum@.len() == dim
    &&& coords_within(cen.sum@, cen.count * MAX_COORD)
}

/// `cents` holds, at index `c - 1`, the centroid of cluster `c`, for each `c` in `[1, k]`.
pub open spec fn all_centroids_of(cents: Seq<Centroid>, obs: Seq<Observation>, k: int) -> bool {
    &&& cents.len() == k
    &&& forall|c: int|
        0 <= c < k ==> is_centroid_of(#[trigger] cents[c], obs, c + 1, dim_of(obs))
}

proof fn lemma_member_count_bound(obs: Seq<Observation>, c: int)
    ensures
        member_count(obs, c) <= obs.len(),
    decreases obs.len(),
{
    if obs.len() > 0 {
        lemma_member_count_bound(obs.drop_last(), c);
    }
}

proof fn lemma_coord_total_bound(obs: Seq<Observation>, c: int, i: int)
    requires
        0 <= i,
        forall|j: int|
            0 <= j < obs.len() ==> i < (#[trigger] obs[j]).position@.len() && coords_within(
                obs[j].position@,
                MAX_COORD as int,
            ),
    ensures
        -member_count(obs, c) * MAX_COORD <= coord_total(obs, c, i) <= member_count(obs, c)
            * MAX_COORD,
    decreases obs.len(),
{
    if obs.len() > 0 {
        let p = obs.drop_last();
        assert forall|j: int| 0 <= j < p.len() implies i < (#[trigger] p[j]).position@.len()
            && coords_within(p[j].position@, MAX_COORD as int) by {
            assert(p[j] == obs[j]);
        }
        lemma_coord_total_bound(p, c, i);
        assert(obs.last() == obs[obs.len() - 1]);
    }
}

/// Membership counts and coordinate sums depend only on positions and
/// cluster ids.
pub proof fn lemma_totals_agree(a: Seq<Observation>, b: Seq<Observation>, c: int, i: int)
    requires
        a.len() == b.len(),
        forall|j: int|
            0 <= j < a.len() ==> (#[trigger] a[j]).cluster == b[j].cluster && a[j].position@
                == b[j].position@,
    ensures
        member_count(a, c) == member_count(b, c),
        coord_total(a, c, i) == coord_total(b, c, i),
    decreases a.len(),
{
    if a.len() > 0 {
        let (pa, pb) = (a.drop_last(), b.drop_last());
        assert forall|j: int| 0 <= j < pa.len() implies (#[trigger] pa[j]).cluster == pb[j].cluster
            && pa[j].position@ == pb[j].position@ by {
            assert(pa[j] == a[j] && pb[j] == b[j]);
        }
        lemma_totals_agree(pa, pb, c, i);
        assert(a.last() == a[a.len() - 1] && b.last() == b[b.len() - 1]);
    }
}

/// A centroid of the data set fits the exact distance comparisons once its
/// cluster has a member.
pub proof fn lemma_centroid_fits(cen: Centroid, obs: Seq<Observation>, c: int)
    requires
        valid_data(obs),
        is_centroid_of(cen, obs, c, dim_of(obs)),
        cen.count >= 1,
    ensures
        centroid_fits(cen, dim_of(obs)),
{
    lemma_member_count_bound(obs, c);
    assert forall|i: int| 0 <= i < cen.sum@.len() implies -(cen.count * MAX_COORD) <= #[trigger] cen.sum@[i]
        <= cen.count * MAX_COORD by {
        lemma_coord_total_bound(obs, c, i);
    }
}

/// The centroid of cluster `cluster`: the sum and number of its members.
/// Fails with `EmptyCluster` exactly when the cluster has no member.
pub fn get_centroid(observations: &Vec<Observation>, cluster: usize) -> (r: Result<
    Centroid,
    ClusterError,
>)
    requires
        valid_data(observations@),
    ensures
        r is Err <==> member_count(observations@, cluster as int) == 0,
        r matches Err(e) ==> e == ClusterError::EmptyCluster(cluster),
        r matches Ok(cen) ==> is_centroid_of(cen, observations@, cluster as int, dim_of(observations@))
            && centroid_fits(cen, dim_of(observations@)),
{
    let ghost obs = observations@;
    let dim = observations[0].position.len();
    let mut sum: Vec<i64> = Vec::new();
    let mut i: usize = 0;
    while i < dim
        invariant
            i <= dim,
            sum@.len() == i,
            forall|t: int| 0 <= t < i ==> #[trigger] sum@[t] == 0,
        decreases dim - i,
    {
        sum.push(0);
        i = i + 1;
    }
    let mut count: usize = 0;
    let mut j: usize = 0;
    while j < observations.len()
        invariant
            valid_data(obs),
            obs == observations@,
            dim == dim_of(obs),
            j <= obs.len(),
            sum@.len() == dim,
            count == member_count(obs.take(j as int), cluster as int),
            forall|t: int|
                0 <= t < dim ==> #[trigger] sum@[t] == coord_total(obs.take(j as int), cluster as int, t),
        decreases obs.len() - j,
    {
        let ghost pre = obs.take(j as int);
        assert(obs.take(j + 1).drop_last() =~= pre);
        assert(obs.take(j + 1).last() == obs[j as int]);
        proof {
            lemma_member_count_bound(pre, cluster as int);
        }
        let o = &observations[j];
        let member = match o.cluster {
            Some(c) => c == cluster,
            None => false,
        };
        if member {
            let mut t: usize = 0;
            while t < dim
                invariant
                    valid_data(obs),
                    obs == observations@,
                    dim == dim_of(obs),
                    j < obs.len(),
                    *o == obs[j as int],
                    in_cluster(*o, cluster as int),
                    pre == obs.take(j as int),
                    obs.take(j + 1).drop_last() == pre,
                    obs.take(j + 1).last() == *o,
                    t <= dim,
                    sum@.len() == dim,
                    forall|u: int|
                        0 <= u < t ==> #[trigger] sum@[u] == coord_total(obs.take(j + 1), cluster as int, u),
                    forall|u: int|
                        t <= u < dim ==> #[trigger] sum@[u] == coord_total(pre, cluster as int, u),
                decreases dim - t,
            {
                proof {
                    assert(pre.len() < MAX_POINTS);
                    assert forall|v: int| 0 <= v < pre.len() implies t < (#[trigger] pre[v]).position@.len()
                        && coords_within(pre[v].position@, MAX_COORD as int) by {
                        assert(pre[v] == obs[v]);
                    }
                    lemma_coord_total_bound(pre, cluster as int, t as int);
                    lemma_member_count_bound(pre, cluster as int);
                    assert(pre.len() * MAX_COORD <= MAX_POINTS * MAX_COORD) by (nonlinear_arith)
                        requires pre.len() <= MAX_POINTS;
                    assert(member_count(pre, cluster as int) * MAX_COORD <= pre.len() * MAX_COORD) by (nonlinear_arith)
                        requires member_count(pre, cluster as int) <= pre.len();
                    assert(valid_data(obs));
                    assert(obs[j as int].position@.len() == dim);
                    assert(coords_within(obs[j as int].position@, MAX_COORD as int));
                    assert(-MAX_COORD <= o.position@[t as int] <= MAX_COORD);
                }
                let v = sum[t] + o.position[t];
                sum.set(t, v);
                assert(coord_total(obs.take(j + 1), cluster as int, t as int) == coord_total(
                    pre,
                    cluster as int,
                    t as int,
                ) + o.position@[t as int]);
                t = t + 1;
            }
            count = count + 1;
        }
        j = j + 1;
    }
    assert(obs.take(obs.len() as int) =~= obs);
    if count == 0 {
        return Err(ClusterError::EmptyCluster(cluster));
    }
    let cen = Centroid { cluster, sum, count };
    proof {
        lemma_centroid_fits(cen, obs, cluster as int);
    }
    Ok(cen)
}

/// The centroids of clusters `1..=k`, in ascending order of cluster id, so
/// that index `c - 1` holds the centroid of cluster `c`. Fails with the
/// smallest cluster id that has no member, if there is one.
pub fn get_all_centroids(observations: &Vec<Observation>, k: usize) -> (r: Result<
    Vec<Centroid>,
    ClusterError,
>)
    requires
        valid_data(observations@),
    ensures
        r is Ok <==> forall|c: int| 1 <= c <= k ==> #[trigger] member_count(observations@, c) > 0,
        r matches Err(e) ==> exists|c: int|
            1 <= c <= k && e == ClusterError::EmptyCluster(c as usize) && member_count(
                observations@,
                c,
            ) == 0 && forall|d: int| 1 <= d < c ==> #[trigger] member_count(observations@, d) > 0,
        r matches Ok(cents) ==> all_centroids_of(cents@, observations@, k as int) && forall|
            c: int,
        | 0 <= c < k ==> centroid_fits(#[trigger] cents@[c], dim_of(observations@)),
{
    let mut centroids: Vec<Centroid> = Vec::new();
    let mut i: usize = 0;
    while i < k
        invariant
            valid_data(observations@),
            i <= k,
            centroids@.len() == i,
            forall|d: int| 1 <= d <= i ==> #[trigger] member_count(observations@, d) > 0,
            forall|c: int|
                0 <= c < i ==> is_centroid_of(
                    #[trigger] centroids@[c],
                    observations@,
                    c + 1,
                    dim_of(observations@),
                ) && centroid_fits(centroids@[c], dim_of(observations@)),
        decreases k - i,
    {
        match get_centroid(observations, i + 1) {
            Ok(cen) => {
                centroids.push(cen);
            },
            Err(e) => {
                assert(member_count(observations@, i + 1) == 0);
                return Err(e);
            },
        }
        i = i + 1;
    }
    Ok(centroids)
}

} // verus!
