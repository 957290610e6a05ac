//! Assignment of observations to their nearest centroid.
use vstd::prelude::*;
use crate::centroid::{centroid_fits, Centroid};
use crate::math::{coords_within, scaled_sq, scaled_sq_dist, MAX_COORD, MAX_DIM, MAX_POINTS};
use crate::observation::{dim_of, same_points, valid_data, Observation};

verus! {

/// The squared distance from `x` to the centroid `cen`, scaled by `cen.count^2`.
pub open spec fn dist_key(x: Seq<i64>, cen: Centroid) -> int {
    scaled_sq_dist(x, cen.sum@, cen.count as int)
}

/// `a` lies strictly nearer to `x` than `b` does. With `key / count^2` the
/// squared distance to each centroid, the comparison is made cross-multiplied.
pub open spec fn nearer(x: Seq<i64>, a: Centroid, b: Centroid) -> bool {
    dist_key(x, a) * (b.count * b.count) < dist_key(x, b) * (a.count * a.count)
}

/// The index of the centroid nearest to `x` among the first `n` of `cents`,
/// scanning from index 0 and moving only to a strictly nearer one.
pub open spec fn nearest_index(x: Seq<i64>, cents: Seq<Centroid>, n: int) -> int
    decreases n,
{
    if n <= 1 {
        0
    } else {
        let r = nearest_index(x, cents, n - 1);
        if nearer(x, cents[n - 1], cents[r]) {
            n - 1
        } else {
            r
        }
    }
}

proof fn lemma_ratio_trans(ka: int, kb: int, kc: int, wa: int, wb: int, wc: int)
    requires
        wa > 0,
        wb > 0,
        wc > 0,
        ka * wb < kb * wa,
        kb * wc <= kc * wb,
    ensures
        ka * wc < kc * wa,
{
    assert(ka * wb * wc < kb * wa * wc) by (nonlinear_arith)
        requires
            ka * wb < kb * wa,
            wc > 0,
    ;
    assert(kb * wc * wa <= kc * wb * wa) by (nonlinear_arith)
        requires
            kb * wc <= kc * wb,
            wa > 0,
    ;
    assert(ka * wc * wb < kc * wa * wb) by (nonlinear_arith)
        requires
            ka * wb * wc < kb * wa * wc,
            kb * wc * wa <= kc * wb * wa,
    ;
    assert(ka * wc < kc * wa) by (nonlinear_arith)
        requires
            ka * wc * wb < kc * wa * wb,
            wb > 0,
    ;
}

/// The scan picks a centroid at least as near as every other one, and
/// strictly nearer than each that comes before it: ties go to the first.
pub proof fn lemma_nearest_is_first_minimum(x: Seq<i64>, cents: Seq<Centroid>, n: int)
    requires
        1 <= n <= cents.len(),
        forall|j: int| 0 <= j < n ==> (#[trigger] cents[j]).count >= 1,
    ensures
        0 <= nearest_index(x, cents, n) < n,
        forall|j: int| 0 <= j < n ==> !nearer(x, #[trigger] cents[j], cents[nearest_index(x, cents, n)]),
        forall|j: int|
            0 <= j < nearest_index(x, cents, n) ==> nearer(x, cents[nearest_index(x, cents, n)], #[trigger] cents[j]),
    decreases n,
{
    if n > 1 {
        lemma_nearest_is_first_minimum(x, cents, n - 1);
        let r = nearest_index(x, cents, n - 1);
        let m = cents[n - 1];
        assert(m.count * m.count > 0) by (nonlinear_arith)
            requires m.count >= 1;
        if nearer(x, m, cents[r]) {
            assert forall|j: int| 0 <= j < n - 1 implies nearer(x, m, #[trigger] cents[j]) by {
                let b = cents[r];
                let c = cents[j];
                assert(b.count * b.count > 0) by (nonlinear_arith)
                    requires b.count >= 1;
                assert(c.count * c.count > 0) by (nonlinear_arith)
                    requires c.count >= 1;
                lemma_ratio_trans(
                    dist_key(x, m),
                    dist_key(x, b),
                    dist_key(x, c),
                    m.count * m.count,
                    b.count * b.count,
                    c.count * c.count,
                );
            }
            assert forall|j: int| 0 <= j < n implies !nearer(x, #[trigger] cents[j], m) by {
                if j < n - 1 {
                    let c = cents[j];
                    assert(c.count * c.count > 0) by (nonlinear_arith)
                        requires c.count >= 1;
                    assert(nearer(x, m, c));
                    assert(dist_key(x, m) * (c.count * c.count) < dist_key(x, c) * (m.count * m.count));
                }
            }
        }
    }
}

/// The 0-based index of the centroid nearest to the observation; on equal
/// distances the first such centroid wins.
pub fn get_nearest_centroid(observation: &Observation, centroids: &Vec<Centroid>) -> (r: usize)
    requires
        centroids@.len() >= 1,
        observation.position@.len() <= MAX_DIM,
        coords_within(observation.position@, MAX_COORD as int),
        forall|c: int|
            0 <= c < centroids@.len() ==> centroid_fits(
                #[trigger] centroids@[c],
                observation.position@.len() as int,
            ),
    ensures
        r < centroids@.len(),
        r == nearest_index(observation.position@, centroids@, centroids@.len() as int),
        forall|j: int|
            0 <= j < centroids@.len() ==> !nearer(observation.position@, #[trigger] centroids@[j], centroids@[r as int]),
        forall|j: int| 0 <= j < r ==> nearer(observation.position@, centroids@[r as int], #[trigger] centroids@[j]),
{
    let ghost x = observation.position@;
    let ghost cs = centroids@;
    let first = &centroids[0];
    let mut nearest: usize = 0;
    let mut min_key: u128 = scaled_sq(&observation.position, &first.sum, first.count);
    proof {
        assert(centroid_fits(cs[0], x.len() as int));
        assert(first.count * first.count <= 0x100000000) by (nonlinear_arith)
            requires first.count <= MAX_POINTS;
    }
    let mut min_w: u128 = (first.count as u128) * (first.count as u128);
    let mut i: usize = 1;
    while i < centroids.len()
        invariant
            x == observation.position@,
            cs == centroids@,
            1 <= i <= cs.len(),
            x.len() <= MAX_DIM,
            coords_within(x, MAX_COORD as int),
            forall|c: int| 0 <= c < cs.len() ==> centroid_fits(#[trigger] cs[c], x.len() as int),
            nearest == nearest_index(x, cs, i as int),
            nearest < i,
            min_key == dist_key(x, cs[nearest as int]),
            min_w == cs[nearest as int].count * cs[nearest as int].count,
            min_key <= 0x10000000000000000000000,
            min_w <= 0x100000000,
        decreases cs.len() - i,
    {
        let cen = &centroids[i];
        let key = scaled_sq(&observation.position, &cen.sum, cen.count);
        proof {
            assert(cen.count * cen.count <= 0x100000000) by (nonlinear_arith)
                requires cen.count <= MAX_POINTS;
            assert(key * min_w <= 0x10000000000000000000000 * 0x100000000) by (nonlinear_arith)
                requires key <= 0x10000000000000000000000, min_w <= 0x100000000;
            assert(min_key * (cen.count * cen.count) <= 0x10000000000000000000000 * 0x100000000) by (nonlinear_arith)
                requires min_key <= 0x10000000000000000000000, cen.count * cen.count <= 0x100000000;
        }
        let w: u128 = (cen.count as u128) * (cen.count as u128);
        if key * min_w < min_key * w {
            nearest = i;
            min_key = key;
            min_w = w;
        }
        i = i + 1;
    }
    proof {
        assert forall|j: int| 0 <= j < cs.len() implies (#[trigger] cs[j]).count >= 1 by {
            assert(centroid_fits(cs[j], x.len() as int));
        }
        lemma_nearest_is_first_minimum(x, cs, cs.len() as int);
    }
    nearest
}

/// Each observation of `obs` carries the id of its nearest centroid of `cents`,
/// that is the centroid's index plus one.
pub open spec fn at_nearest(obs: Seq<Observation>, cents: Seq<Centroid>) -> bool {
    forall|j: int|
        0 <= j < obs.len() ==> (#[trigger] obs[j]).cluster == Some(
            (nearest_index(obs[j].position@, cents, cents.len() as int) + 1) as usize,
        )
}

/// One assignment pass: moves every observation to its nearest centroid and
/// reports whether any cluster id changed. Positions and labels stay as they
/// were; afterwards every observation sits at its nearest current centroid.
pub fn assign_nearest(observations: &mut Vec<Observation>, centroids: &Vec<Centroid>) -> (changed:
    bool)
    requires
        valid_data(old(observations)@),
        centroids@.len() >= 1,
        forall|c: int|
            0 <= c < centroids@.len() ==> centroid_fits(
                #[trigger] centroids@[c],
                dim_of(old(observations)@),
            ),
    ensures
        same_points(old(observations)@, final(observations)@),
        valid_data(final(observations)@),
        at_nearest(final(observations)@, centroids@),
        changed == exists|j: int|
            0 <= j < old(observations)@.len() && (#[trigger] old(observations)@[j]).cluster
                != final(observations)@[j].cluster,
{
    let ghost start = observations@;
    let ghost cs = centroids@;
    let mut changed = false;
    let mut j: usize = 0;
    while j < observations.len()
        invariant
            cs == centroids@,
            valid_data(start),
            cs.len() >= 1,
            forall|c: int| 0 <= c < cs.len() ==> centroid_fits(#[trigger] cs[c], dim_of(start)),
            same_points(start, observations@),
            j <= observations@.len(),
            forall|t: int| j <= t < observations@.len() ==> #[trigger] observations@[t] == start[t],
            forall|t: int|
                0 <= t < j ==> (#[trigger] observations@[t]).cluster == Some(
                    (nearest_index(observations@[t].position@, cs, cs.len() as int) + 1) as usize,
                ),
            changed == exists|t: int| 0 <= t < j && (#[trigger] start[t]).cluster != observations@[t].cluster,
        decreases observations@.len() - j,
    {
        assert(observations@[j as int] == start[j as int]);
        assert(start[j as int].position@.len() == dim_of(start));
        let n = get_nearest_centroid(&observations[j], centroids);
        let len = centroids.len();
        assert(n < len);
        let target: usize = n + 1;
        let same = match observations[j].cluster {
            Some(c) => c == target,
            None => false,
        };
        if !same {
            observations[j].cluster = Some(target);
            changed = true;
        }
        assert(start[j as int].cluster != observations@[j as int].cluster <==> !same);
        j = j + 1;
    }
    proof {
        assert forall|t: int| 0 <= t < observations@.len() implies (#[trigger] observations@[t]).position@.len()
            == dim_of(observations@) && coords_within(observations@[t].position@, MAX_COORD as int) by {
            assert(observations@[t].position@ == start[t].position@);
            assert(observations@[0].position@ == start[0].position@);
        }
    }
    changed
}

} // verus!
