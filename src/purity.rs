//! Label purity of clusters: how the ground-truth labels spread over a cluster.
use vstd::prelude::*;
use crate::centroid::{in_cluster, member_count};
use crate::observation::Observation;

verus! {

/// The number of members of a cluster that carry one label.
pub struct LabelCount {
    pub label: String,
    pub count: usize,
}

/// The label breakdown of one cluster: its size, and one entry per distinct
/// label among its members. A label's share is `count / total`.
pub struct ClusterPurity {
    pub cluster: usize,
    pub total: usize,
    pub labels: Vec<LabelCount>,
}

/// The number of members of cluster `c` that carry label `l`.
pub open spec fn label_count(obs: Seq<Observation>, c: int, l: Seq<char>) -> nat
    decreases obs.len(),
{
    if obs.len() == 0 {
        0
    } else {
        label_count(obs.drop_last(), c, l) + if in_cluster(obs.last(), c) && obs.last().label@
            == l {
            1nat
        } else {
            0nat
        }
    }
}

/// The sum of the counts of `s`.
pub open spec fn sum_counts(s: Seq<LabelCount>) -> int
    decreases s.len(),
{
    if s.len() == 0 {
        0
    } else {
        sum_counts(s.drop_last()) + s.last().count
    }
}

/// The entries of `s` carry pairwise distinct labels.
pub open spec fn distinct_labels(s: Seq<LabelCount>) -> bool {
    forall|a: int, b: int| 0 <= a < b < s.len() ==> (#[trigger] s[a]).label@ != (#[trigger] s[b]).label@
}

/// `p` is the label breakdown of cluster `c` of `obs`: each distinct label of
/// the members once, with the number of members that carry it.
pub open spec fn is_purity_of(p: ClusterPurity, obs: Seq<Observation>, c: int) -> bool {
    &&& p.cluster == c
    &&& p.total == member_count(obs, c)
    &&& distinct_labels(p.labels@)
    &&& forall|a: int|
        0 <= a < p.labels@.len() ==> (#[trigger] p.labels@[a]).count == label_count(
            obs,
            c,
            p.labels@[a].label@,
        ) && p.labels@[a].count >= 1
    &&& forall|j: int|
        0 <= j < obs.len() && in_cluster(#[trigger] obs[j], c) ==> exists|a: int|
            0 <= a < p.labels@.len() && (#[trigger] p.labels@[a]).label@ == obs[j].label@
}

proof fn lemma_sum_counts_update(s: Seq<LabelCount>, p: int, x: LabelCount)
    requires
        0 <= p < s.len(),
    ensures
        sum_counts(s.update(p, x)) == sum_counts(s) - s[p].count + x.count,
    decreases s.len(),
{
    let u = s.update(p, x);
    if p == s.len() - 1 {
        assert(u.drop_last() =~= s.drop_last());
    } else {
        assert(u.drop_last() =~= s.drop_last().update(p, x));
        lemma_sum_counts_update(s.drop_last(), p, x);
    }
}

proof fn lemma_sum_counts_push(s: Seq<LabelCount>, x: LabelCount)
    ensures
        sum_counts(s.push(x)) == sum_counts(s) + x.count,
{
    assert(s.push(x).drop_last() =~= s);
}

proof fn lemma_label_count_bound(obs: Seq<Observation>, c: int, l: Seq<char>)
    ensures
        label_count(obs, c, l) <= obs.len(),
    decreases obs.len(),
{
    if obs.len() > 0 {
        lemma_label_count_bound(obs.drop_last(), c, l);
    }
}

proof fn lemma_label_absent(obs: Seq<Observation>, c: int, l: Seq<char>)
    requires
        forall|t: int| 0 <= t < obs.len() && in_cluster(#[trigger] obs[t], c) ==> obs[t].label@ != l,
    ensures
        label_count(obs, c, l) == 0,
    decreases obs.len(),
{
    if obs.len() > 0 {
        let p = obs.drop_last();
        assert forall|t: int| 0 <= t < p.len() && in_cluster(#[trigger] p[t], c) implies p[t].label@ != l by {
            assert(p[t] == obs[t]);
        }
        lemma_label_absent(p, c, l);
        assert(obs.last() == obs[obs.len() - 1]);
    }
}

/// The label breakdown of cluster `cluster`. The counts of its entries add up
/// to the cluster's size, so the shares of a non-empty cluster sum to one.
pub fn cluster_purity(observations: &Vec<Observation>, cluster: usize) -> (r: ClusterPurity)
    ensures
        is_purity_of(r, observations@, cluster as int),
        sum_counts(r.labels@) == r.total,
{
    let ghost obs = observations@;
    let mut labels: Vec<LabelCount> = Vec::new();
    let mut total: usize = 0;
    let mut j: usize = 0;
    while j < observations.len()
        invariant
            obs == observations@,
            j <= obs.len(),
            total == member_count(obs.take(j as int), cluster as int),
            total <= j,
            sum_counts(labels@) == total,
            distinct_labels(labels@),
            forall|a: int|
                0 <= a < labels@.len() ==> (#[trigger] labels@[a]).count == label_count(
                    obs.take(j as int),
                    cluster as int,
                    labels@[a].label@,
                ) && labels@[a].count >= 1,
            forall|t: int|
                0 <= t < j && in_cluster(#[trigger] obs[t], cluster as int) ==> exists|a: int|
                    0 <= a < labels@.len() && (#[trigger] labels@[a]).label@ == obs[t].label@,
        decreases obs.len() - j,
    {
        let ghost pre = obs.take(j as int);
        let ghost next = obs.take(j + 1);
        assert(next.drop_last() =~= pre);
        assert(next.last() == obs[j as int]);
        let o = &observations[j];
        let member = match o.cluster {
            Some(c) => c == cluster,
            None => false,
        };
        if member {
            let mut p: usize = 0;
            let mut found = false;
            #[verifier::loop_isolation(false)]
            while p < labels.len()
                invariant
                    p <= labels@.len(),
                    !found ==> forall|a: int| 0 <= a < p ==> (#[trigger] labels@[a]).label@ != o.label@,
                    found ==> p < labels@.len() && labels@[p as int].label@ == o.label@,
                decreases labels@.len() - p + if found { 0int } else { 1int },
            {
                if labels[p].label == o.label {
                    found = true;
                    break;
                }
                p = p + 1;
            }
            let ghost old_labels = labels@;
            if found {
                proof {
                    lemma_label_count_bound(pre, cluster as int, o.label@);
                }
                let cnt = labels[p].count;
                let lbl = labels[p].label.clone();
                let entry = LabelCount { label: lbl, count: cnt + 1 };
                labels.set(p, entry);
                proof {
                    lemma_sum_counts_update(old_labels, p as int, entry);
                    assert forall|a: int|
                        0 <= a < labels@.len() implies (#[trigger] labels@[a]).count == label_count(
                            next,
                            cluster as int,
                            labels@[a].label@,
                        ) && labels@[a].count >= 1 by {
                        if a != p {
                            assert(labels@[a] == old_labels[a]);
                            assert(old_labels[a].label@ != old_labels[p as int].label@);
                        }
                    }
                    assert forall|t: int|
                        0 <= t < j + 1 && in_cluster(#[trigger] obs[t], cluster as int) implies exists|a: int|
                            0 <= a < labels@.len() && (#[trigger] labels@[a]).label@ == obs[t].label@ by {
                        if t < j {
                            let a = choose|a: int|
                                0 <= a < old_labels.len() && (#[trigger] old_labels[a]).label@ == obs[t].label@;
                            assert(labels@[a].label@ == old_labels[a].label@);
                        } else {
                            assert(labels@[p as int].label@ == obs[t].label@);
                        }
                    }
                }
            } else {
                let entry = LabelCount { label: o.label.clone(), count: 1 };
                labels.push(entry);
                proof {
                    lemma_sum_counts_push(old_labels, entry);
                    assert forall|a: int|
                        0 <= a < labels@.len() implies (#[trigger] labels@[a]).count == label_count(
                            next,
                            cluster as int,
                            labels@[a].label@,
                        ) && labels@[a].count >= 1 by {
                        if a < old_labels.len() {
                            assert(labels@[a] == old_labels[a]);
                        } else {
                            assert forall|t: int|
                                0 <= t < pre.len() && in_cluster(#[trigger] pre[t], cluster as int) implies pre[t].label@
                                    != o.label@ by {
                                assert(pre[t] == obs[t]);
                                let a = choose|a: int|
                                    0 <= a < old_labels.len() && (#[trigger] old_labels[a]).label@ == obs[t].label@;
                            }
                            lemma_label_absent(pre, cluster as int, o.label@);
                        }
                    }
                    assert forall|t: int|
                        0 <= t < j + 1 && in_cluster(#[trigger] obs[t], cluster as int) implies exists|a: int|
                            0 <= a < labels@.len() && (#[trigger] labels@[a]).label@ == obs[t].label@ by {
                        if t < j {
                            let a = choose|a: int|
                                0 <= a < old_labels.len() && (#[trigger] old_labels[a]).label@ == obs[t].label@;
                            assert(labels@[a] == old_labels[a]);
                        } else {
                            assert(labels@[old_labels.len() as int].label@ == obs[t].label@);
                        }
                    }
                }
            }
            total = total + 1;
        } else {
            proof {
                assert forall|a: int|
                    0 <= a < labels@.len() implies (#[trigger] labels@[a]).count == label_count(
                        next,
                        cluster as int,
                        labels@[a].label@,
                    ) && labels@[a].count >= 1 by {}
            }
        }
        j = j + 1;
    }
    assert(obs.take(obs.len() as int) =~= obs);
    assert forall|a: int| 0 <= a < labels@.len() implies (#[trigger] labels@[a]).count == label_count(
        obs,
        cluster as int,
        labels@[a].label@,
    ) && labels@[a].count >= 1 by {
        assert(obs.take(j as int) == obs);
    }
    let r = ClusterPurity { cluster, total, labels };
    assert(r.labels@ == labels@);
    r
}

/// The labels of a sequence of observations.
pub open spec fn label_seq(obs: Seq<&Observation>) -> Seq<Seq<char>> {
    obs.map_values(|o: &Observation| o.label@)
}

/// The contents of a sequence of strings.
pub open spec fn strs(r: Seq<String>) -> Seq<Seq<char>> {
    r.map_values(|x: String| x@)
}

/// Every label of `ls` occurs among `r`.
pub open spec fn covers(r: Seq<String>, ls: Seq<Seq<char>>) -> bool {
    forall|j: int| 0 <= j < ls.len() ==> strs(r).contains(#[trigger] ls[j])
}

/// Every string of `r` is a label of `ls`.
pub open spec fn drawn_from(r: Seq<String>, ls: Seq<Seq<char>>) -> bool {
    forall|a: int| 0 <= a < r.len() ==> ls.contains(#[trigger] strs(r)[a])
}

/// The strings of `r` are pairwise distinct.
pub open spec fn all_distinct(r: Seq<String>) -> bool {
    forall|a: int, b: int| 0 <= a < b < r.len() ==> (#[trigger] r[a])@ != (#[trigger] r[b])@
}

proof fn lemma_labels_push(prev: Seq<String>, x: String, ls: Seq<Seq<char>>, j: int)
    requires
        0 <= j < ls.len(),
        x@ == ls[j],
        all_distinct(prev),
        forall|a: int| 0 <= a < prev.len() ==> (#[trigger] prev[a])@ != x@,
        covers(prev, ls.take(j)),
        drawn_from(prev, ls.take(j)),
    ensures
        all_distinct(prev.push(x)),
        covers(prev.push(x), ls.take(j + 1)),
        drawn_from(prev.push(x), ls.take(j + 1)),
{
    let new = prev.push(x);
    let pre = ls.take(j);
    let next = ls.take(j + 1);
    assert(strs(new) =~= strs(prev).push(x@));
    assert forall|a: int, b: int| 0 <= a < b < new.len() implies (#[trigger] new[a])@ != (#[trigger] new[b])@ by {
        if b < prev.len() {
            assert(new[a] == prev[a] && new[b] == prev[b]);
        } else {
            assert(new[a] == prev[a]);
        }
    }
    assert forall|t: int| 0 <= t < next.len() implies strs(new).contains(#[trigger] next[t]) by {
        if t < j {
            assert(next[t] == pre[t]);
            assert(strs(prev).contains(pre[t]));
            let a = choose|a: int| 0 <= a < strs(prev).len() && strs(prev)[a] == pre[t];
            assert(strs(new)[a] == next[t]);
        } else {
            assert(strs(new)[prev.len() as int] == next[t]);
        }
    }
    assert forall|a: int| 0 <= a < new.len() implies next.contains(#[trigger] strs(new)[a]) by {
        if a < prev.len() {
            assert(strs(new)[a] == strs(prev)[a]);
            assert(pre.contains(strs(prev)[a]));
            let t = choose|t: int| 0 <= t < pre.len() && pre[t] == strs(prev)[a];
            assert(next[t] == pre[t]);
        } else {
            assert(strs(new)[a] == next[j]);
        }
    }
}

proof fn lemma_labels_found(labels: Seq<String>, p: int, ls: Seq<Seq<char>>, j: int)
    requires
        0 <= j < ls.len(),
        0 <= p < labels.len(),
        labels[p]@ == ls[j],
        covers(labels, ls.take(j)),
        drawn_from(labels, ls.take(j)),
    ensures
        covers(labels, ls.take(j + 1)),
        drawn_from(labels, ls.take(j + 1)),
{
    let pre = ls.take(j);
    let next = ls.take(j + 1);
    assert forall|t: int| 0 <= t < next.len() implies strs(labels).contains(#[trigger] next[t]) by {
        if t < j {
            assert(next[t] == pre[t]);
        } else {
            assert(strs(labels)[p] == next[t]);
        }
    }
    assert forall|a: int| 0 <= a < labels.len() implies next.contains(#[trigger] strs(labels)[a]) by {
        assert(pre.contains(strs(labels)[a]));
        let t = choose|t: int| 0 <= t < pre.len() && pre[t] == strs(labels)[a];
        assert(next[t] == pre[t]);
    }
}

/// The distinct labels of `observations`, each once, in order of first
/// appearance.
pub fn get_unique_labels(observations: &Vec<&Observation>) -> (r: Vec<String>)
    ensures
        all_distinct(r@),
        covers(r@, label_seq(observations@)),
        drawn_from(r@, label_seq(observations@)),
{
    let ghost ls = label_seq(observations@);
    let mut labels: Vec<String> = Vec::new();
    let mut j: usize = 0;
    while j < observations.len()
        invariant
            ls == label_seq(observations@),
            j <= observations@.len(),
            all_distinct(labels@),
            covers(labels@, ls.take(j as int)),
            drawn_from(labels@, ls.take(j as int)),
        decreases observations@.len() - j,
    {
        let o: &Observation = observations[j];
        assert(ls[j as int] == o.label@);
        let mut p: usize = 0;
        let mut found = false;
        #[verifier::loop_isolation(false)]
        while p < labels.len()
            invariant
                p <= labels@.len(),
                !found ==> forall|a: int| 0 <= a < p ==> (#[trigger] labels@[a])@ != o.label@,
                found ==> p < labels@.len() && labels@[p as int]@ == o.label@,
            decreases labels@.len() - p + if found { 0int } else { 1int },
        {
            if labels[p] == o.label {
                found = true;
                break;
            }
            p = p + 1;
        }
        if !found {
            let x = o.label.clone();
            proof {
                assert(x@ == o.label@);
                lemma_labels_push(labels@, x, ls, j as int);
            }
            labels.push(x);
        } else {
            proof {
                lemma_labels_found(labels@, p as int, ls, j as int);
            }
        }
        j = j + 1;
    }
    assert(ls.take(j as int) =~= ls);
    labels
}

} // verus!
