use kmeans::assign::{assign_nearest, get_nearest_centroid};
use kmeans::centroid::{get_all_centroids, get_centroid, Centroid, ClusterError};
use kmeans::math::sq_dist;
use kmeans::observation::Observation;
use kmeans::purity::{cluster_purity, get_unique_labels};
use kmeans::run::{offsets, purity_all, run, Outcome};
use kmeans::seed::{assign_clusters_from, assign_random_clusters};

fn obs(x: i64, y: i64, label: &str, cluster: Option<usize>) -> Observation {
    let mut o = Observation::new(vec![x, y], label.to_string());
    o.cluster = cluster;
    o
}

fn cen(cluster: usize, sum: Vec<i64>, count: usize) -> Centroid {
    Centroid { cluster, sum, count }
}

#[test]
fn new_observation_has_no_cluster() {
    let o = Observation::new(vec![1, 2, 3], "x".to_string());
    assert_eq!(o.position, vec![1, 2, 3]);
    assert_eq!(o.cluster, None);
    assert_eq!(o.label, "x");
}

#[test]
fn distance_three_four_five() {
    let d = sq_dist(&vec![0, 0], &vec![3, 4]);
    assert_eq!(d, Some(25));
    assert_eq!((d.unwrap() as f64).sqrt(), 5.0);
}

#[test]
fn distance_of_unequal_lengths_is_none() {
    assert_eq!(sq_dist(&vec![0, 0], &vec![1, 2, 3]), None);
}

#[test]
fn distance_to_itself_is_zero() {
    assert_eq!(sq_dist(&vec![-7, 9, 4], &vec![-7, 9, 4]), Some(0));
}

#[test]
fn centroid_of_square_is_its_middle() {
    let data = vec![
        obs(0, 0, "a", Some(1)),
        obs(2, 0, "a", Some(1)),
        obs(2, 2, "b", Some(1)),
        obs(0, 2, "b", Some(1)),
        obs(50, 50, "c", Some(2)),
    ];
    let c = get_centroid(&data, 1).ok().unwrap();
    assert_eq!(c.cluster, 1);
    assert_eq!(c.count, 4);
    assert_eq!(c.sum, vec![4, 4]);
    let mean: Vec<i64> = c.sum.iter().map(|s| s / c.count as i64).collect();
    assert_eq!(mean, vec![1, 1]);
}

#[test]
fn centroid_of_empty_cluster_is_an_error() {
    let data = vec![obs(0, 0, "a", Some(1)), obs(1, 1, "a", Some(1))];
    assert_eq!(get_centroid(&data, 2).err(), Some(ClusterError::EmptyCluster(2)));
}

#[test]
fn all_centroids_in_cluster_order() {
    let data = vec![obs(10, 0, "a", Some(2)), obs(1, 1, "b", Some(1)), obs(3, 5, "b", Some(1))];
    let cs = get_all_centroids(&data, 2).ok().unwrap();
    assert_eq!(cs.len(), 2);
    assert_eq!((cs[0].cluster, cs[0].count, cs[0].sum.clone()), (1, 2, vec![4, 6]));
    assert_eq!((cs[1].cluster, cs[1].count, cs[1].sum.clone()), (2, 1, vec![10, 0]));
}

#[test]
fn all_centroids_report_first_empty_cluster() {
    let data = vec![obs(10, 0, "a", Some(2)), obs(1, 1, "b", Some(4))];
    assert_eq!(get_all_centroids(&data, 4).err(), Some(ClusterError::EmptyCluster(1)));
}

#[test]
fn nearest_centroid_tie_goes_to_first() {
    let cs = vec![cen(1, vec![0, 0], 1), cen(2, vec![2, 0], 1)];
    assert_eq!(get_nearest_centroid(&obs(1, 0, "a", None), &cs), 0);
}

#[test]
fn nearest_centroid_uses_exact_means() {
    // means (1, 0) and (2.5, 0): the point at 2 is nearer the second
    let cs = vec![cen(1, vec![2, 0], 2), cen(2, vec![5, 0], 2)];
    assert_eq!(get_nearest_centroid(&obs(2, 0, "a", None), &cs), 1);
    assert_eq!(get_nearest_centroid(&obs(1, 7, "a", None), &cs), 0);
}

#[test]
fn assignment_pass_moves_to_nearest() {
    let mut data = vec![obs(0, 0, "a", Some(2)), obs(9, 9, "b", Some(2))];
    let cs = vec![cen(1, vec![0, 1], 1), cen(2, vec![10, 10], 1)];
    assert!(assign_nearest(&mut data, &cs));
    assert_eq!(data[0].cluster, Some(1));
    assert_eq!(data[1].cluster, Some(2));
    assert!(!assign_nearest(&mut data, &cs));
}

#[test]
fn unique_labels_in_first_order() {
    let data = vec![
        obs(0, 0, "b", None),
        obs(0, 0, "a", None),
        obs(0, 0, "b", None),
        obs(0, 0, "c", None),
    ];
    let refs: Vec<&Observation> = data.iter().collect();
    assert_eq!(get_unique_labels(&refs), vec!["b".to_string(), "a".to_string(), "c".to_string()]);
    assert!(get_unique_labels(&vec![]).is_empty());
}

#[test]
fn purity_counts_sum_to_cluster_size() {
    let data = vec![
        obs(0, 0, "x", Some(1)),
        obs(0, 1, "y", Some(1)),
        obs(0, 2, "x", Some(1)),
        obs(5, 5, "y", Some(2)),
    ];
    let p = cluster_purity(&data, 1);
    assert_eq!(p.cluster, 1);
    assert_eq!(p.total, 3);
    let pairs: Vec<(String, usize)> = p.labels.iter().map(|l| (l.label.clone(), l.count)).collect();
    assert_eq!(pairs, vec![("x".to_string(), 2), ("y".to_string(), 1)]);
    let pct: f64 = p.labels.iter().map(|l| l.count as f64 / p.total as f64 * 100.0).sum();
    assert!((pct - 100.0).abs() < 1e-9);
    let empty = cluster_purity(&data, 3);
    assert_eq!(empty.total, 0);
    assert!(empty.labels.is_empty());
}

#[test]
fn purity_of_every_cluster() {
    let data = vec![obs(0, 0, "x", Some(2)), obs(0, 1, "y", Some(1))];
    let ps = purity_all(&data, 2);
    assert_eq!(ps.len(), 2);
    assert_eq!((ps[0].cluster, ps[0].total), (1, 1));
    assert_eq!(ps[1].labels[0].label, "x");
}

#[test]
fn offsets_are_scaled_squared_distances() {
    let data = vec![obs(0, 0, "a", Some(1)), obs(3, 0, "a", Some(1)), obs(7, 7, "b", Some(2))];
    let cs = vec![cen(1, vec![3, 0], 2), cen(2, vec![7, 7], 1)];
    // mean (1.5, 0): distances 1.5 and 1.5, scaled by 2^2
    assert_eq!(offsets(&data, &cs), vec![9, 9, 0]);
}

#[test]
fn seeding_from_given_draws() {
    let mut data = vec![obs(0, 0, "a", None), obs(1, 1, "a", None), obs(2, 2, "a", None)];
    assign_clusters_from(&mut data, &vec![5, 2, 0], 3);
    let ids: Vec<Option<usize>> = data.iter().map(|o| o.cluster).collect();
    assert_eq!(ids, vec![Some(3), Some(3), Some(1)]);
}

#[test]
fn random_seeding_stays_in_range() {
    let mut data: Vec<Observation> = (0..50).map(|i| obs(i, i, "a", None)).collect();
    assign_random_clusters(&mut data, 4);
    assert!(data.iter().all(|o| matches!(o.cluster, Some(c) if (1..=4).contains(&c))));
}

fn four_points(seed: [usize; 4]) -> Vec<Observation> {
    let mut data = vec![
        obs(0, 0, "A", None),
        obs(0, 1, "A", None),
        obs(10, 10, "B", None),
        obs(10, 11, "B", None),
    ];
    assign_clusters_from(&mut data, &seed.to_vec(), 2);
    data
}

#[test]
fn end_to_end_groups_two_blobs() {
    for bits in 0..16usize {
        let seed = [bits & 1, (bits >> 1) & 1, (bits >> 2) & 1, (bits >> 3) & 1];
        let mut data = four_points(seed);
        let report = run(&mut data, 2, 100);
        if bits == 0 || bits == 15 {
            assert_eq!(report.outcome, Outcome::EmptyCluster { iteration: 0, cluster: if bits == 0 { 2 } else { 1 } });
            continue;
        }
        if bits == 6 || bits == 9 {
            // both seeded centroids sit at (5, 5.5): every point ties and goes to cluster 1
            assert_eq!(report.outcome, Outcome::EmptyCluster { iteration: 1, cluster: 2 });
            continue;
        }
        assert_eq!(report.outcome, Outcome::Converged);
        assert_eq!(data[0].cluster, data[1].cluster);
        assert_eq!(data[2].cluster, data[3].cluster);
        assert_ne!(data[0].cluster, data[2].cluster);
        let last = report.iterations.last().unwrap();
        for p in &last.purity {
            assert_eq!(p.labels.len(), 1);
            assert_eq!(p.labels[0].count, p.total);
        }
    }
}

#[test]
fn repeated_run_is_identical() {
    let mut a = four_points([0, 1, 0, 1]);
    let mut b = four_points([0, 1, 0, 1]);
    let ra = run(&mut a, 2, 100);
    let rb = run(&mut b, 2, 100);
    assert_eq!(ra.outcome, rb.outcome);
    assert_eq!(ra.iterations.len(), rb.iterations.len());
    for (x, y) in ra.iterations.iter().zip(rb.iterations.iter()) {
        assert_eq!(x.offsets, y.offsets);
        let sx: Vec<(Vec<i64>, usize)> = x.centroids.iter().map(|c| (c.sum.clone(), c.count)).collect();
        let sy: Vec<(Vec<i64>, usize)> = y.centroids.iter().map(|c| (c.sum.clone(), c.count)).collect();
        assert_eq!(sx, sy);
    }
    let ca: Vec<Option<usize>> = a.iter().map(|o| o.cluster).collect();
    let cb: Vec<Option<usize>> = b.iter().map(|o| o.cluster).collect();
    assert_eq!(ca, cb);
}

#[test]
fn run_with_no_passes_hits_the_limit() {
    let mut data = four_points([0, 1, 0, 1]);
    let report = run(&mut data, 2, 0);
    assert_eq!(report.outcome, Outcome::IterationLimit);
    assert!(report.iterations.is_empty());
}

#[test]
fn converged_run_reports_final_centroids() {
    let mut data = four_points([0, 0, 1, 1]);
    let report = run(&mut data, 2, 10);
    assert_eq!(report.outcome, Outcome::Converged);
    assert_eq!(report.iterations.len(), 1);
    assert!(!report.iterations[0].changed);
    assert_eq!(report.centroids[0].sum, vec![0, 1]);
    assert_eq!(report.centroids[1].sum, vec![20, 21]);
}
