//! Splitting clusters, sharing them out, listing their members, and how even they are.
use superkmeans::balance::count_members;
use superkmeans::hierarchical::translate_assignments;
use superkmeans::partition::{arrange_fine_clusters, cluster_offsets, list_samples};
use superkmeans::rng::RandomStream;
use superkmeans::splitting::{fill_empty_clusters, pull_small_clusters};
use superkmeans::{Single, SuperKMeans};

fn single(x: f32) -> Single {
    Single { bits: x.to_bits() }
}

fn float(x: Single) -> f32 {
    f32::from_bits(x.bits)
}

fn singles(x: &[f32]) -> Vec<Single> {
    x.iter().map(|v| single(*v)).collect()
}

fn floats(x: &[Single]) -> Vec<f32> {
    x.iter().map(|v| float(*v)).collect()
}

#[test]
fn an_empty_cluster_takes_half_of_a_donor() {
    // Only cluster 2 has members to spare, so only it can give.
    let mut centroids = singles(&[1.0, 2.0, 0.0, 0.0, 8.0, 16.0]);
    let mut sizes = vec![1_u32, 0, 9];
    let mut stream = RandomStream::new(42);
    let split = fill_empty_clusters(&mut centroids, &mut sizes, &mut stream, 2, 10, 3);
    assert_eq!(split, 1);
    assert_eq!(sizes, vec![1, 4, 5]);
    let (more, less) = (1.0 + 1.0_f32 / 1024.0, 1.0 - 1.0_f32 / 1024.0);
    assert_eq!(
        floats(&centroids),
        vec![1.0, 2.0, 8.0 * more, 16.0 * less, 8.0 * less, 16.0 * more]
    );
    assert!(stream.position > 0);
}

#[test]
fn full_clusters_stay_as_they_are() {
    let mut centroids = singles(&[1.0, 2.0]);
    let mut sizes = vec![3_u32, 1];
    let mut stream = RandomStream::new(42);
    assert_eq!(fill_empty_clusters(&mut centroids, &mut sizes, &mut stream, 1, 4, 2), 0);
    assert_eq!(sizes, vec![3, 1]);
    assert_eq!(floats(&centroids), vec![1.0, 2.0]);
    assert_eq!(stream, RandomStream::new(42));
}

#[test]
fn every_empty_cluster_is_filled_and_no_member_is_lost() {
    let k = 12_usize;
    let mut centroids: Vec<Single> = (0..k * 3).map(|i| single(i as f32)).collect();
    let mut sizes = vec![0_u32; k];
    sizes[3] = 40;
    sizes[7] = 1;
    sizes[11] = 19;
    let mut stream = RandomStream::new(5);
    let split = fill_empty_clusters(&mut centroids, &mut sizes, &mut stream, 3, 60, k);
    assert_eq!(split, 9);
    assert_eq!(sizes.iter().sum::<u32>(), 60);
    assert!(sizes.iter().all(|s| *s > 0));
    assert_eq!(sizes[7], 1);
}

#[test]
fn a_small_cluster_is_pulled_to_a_large_one() {
    let mut centroids = singles(&[10.0, -4.0, 2.0, 4.0]);
    let sizes = vec![18_u32, 2];
    let mut stream = RandomStream::new(42);
    let split = pull_small_clusters(&mut centroids, &sizes, &mut stream, 2, 20, 2, 3);
    assert_eq!(split, 4);
    assert_eq!(
        floats(&centroids),
        vec![10.0, -4.0, (2.0_f32 * 2.0 + 10.0) / 3.0, (2.0_f32 * 4.0 + -4.0) / 3.0]
    );
}

#[test]
fn the_pull_weighs_at_most_seven_members() {
    let mut centroids = singles(&[10.0, 2.0]);
    let sizes = vec![190_u32, 10];
    let mut stream = RandomStream::new(1);
    assert_eq!(pull_small_clusters(&mut centroids, &sizes, &mut stream, 1, 200, 2, 0), 1);
    assert_eq!(floats(&centroids), vec![10.0, (7.0_f32 * 2.0 + 10.0) / 8.0]);
}

#[test]
fn even_clusters_are_not_pulled() {
    let mut centroids = singles(&[10.0, 2.0]);
    let mut stream = RandomStream::new(1);
    assert_eq!(pull_small_clusters(&mut centroids, &vec![6, 4], &mut stream, 1, 10, 2, 2), 2);
    assert_eq!(floats(&centroids), vec![10.0, 2.0]);
}

fn fresh(k: usize, d: usize) -> SuperKMeans {
    let normals: Vec<Single> = (0..d * d).map(|i| single((i * i % 7) as f32 - 2.5)).collect();
    SuperKMeans::new(k, d, &normals)
}

#[test]
fn a_model_is_split_by_its_arguments() {
    let mut km = fresh(2, 2);
    km.horizontal_centroids = singles(&[1024.0, 1024.0, 0.0, 0.0]);
    km.cluster_sizes = vec![4, 0];
    km.split_clusters(4, 2);
    assert_eq!(floats(&km.horizontal_centroids), vec![1023.0, 1025.0, 1025.0, 1023.0]);
    assert_eq!(km.cluster_sizes, vec![2, 2]);
    assert_eq!(km.n_split, 1);
}

#[test]
fn samples_are_added_to_what_stands_there() {
    let data = singles(&[1.0, 2.0, 3.0, 4.0, 5.0, 6.0]);
    for n_threads in [1_usize, 5] {
        let mut km = fresh(3, 2);
        km.n_threads = n_threads;
        km.horizontal_centroids = singles(&[10.0, 10.0, 20.0, 20.0, 30.0, 30.0, 40.0, 40.0]);
        km.cluster_sizes = vec![7, 8, 9, 1];
        km.assignments = vec![1, 0, 1];
        km.update_centroids(&data, 3, 2);
        assert_eq!(floats(&km.horizontal_centroids), vec![13.0, 14.0, 26.0, 28.0, 30.0, 30.0, 40.0, 40.0]);
        assert_eq!(km.cluster_sizes, vec![8, 10, 9, 1]);
        assert_eq!(km.assignments, vec![1, 0, 1]);
    }
}

#[test]
fn means_and_shift_of_the_first_clusters() {
    let mut km = fresh(5, 1);
    km.horizontal_centroids = singles(&[8.0, 9.0, 5.0]);
    km.prev_centroids = singles(&[1.0, 1.0, 1.0]);
    km.cluster_sizes = vec![2, 3, 1];
    km.consolidate_centroids(6, 3);
    assert_eq!(floats(&km.horizontal_centroids), vec![4.0, 9.0 * (1.0 / 3.0), 5.0]);
    assert_eq!(km.n_split, 0);
    km.compute_shift(1);
    assert_eq!(float(km.shift), 9.0);
    km.compute_shift(2);
    assert_eq!(float(km.shift), 13.0);
}

#[test]
fn clusters_are_shared_out_in_proportion() {
    assert_eq!(arrange_fine_clusters(10, 3, 100, &[50, 30, 20]), vec![5, 3, 2]);
    assert_eq!(arrange_fine_clusters(9, 3, 100, &[97, 2, 1]), vec![7, 1, 1]);
    assert_eq!(arrange_fine_clusters(4, 4, 10, &[0, 7, 0, 3]), vec![0, 3, 0, 1]);
    assert_eq!(arrange_fine_clusters(5, 1, 8, &[8]), vec![5]);
    // Fewer clusters than mesoclusters, but one for each that has samples.
    assert_eq!(arrange_fine_clusters(2, 4, 10, &[0, 7, 0, 3]), vec![0, 1, 0, 1]);
    assert_eq!(arrange_fine_clusters(0, 0, 0, &[]), Vec::<usize>::new());
    // The last one gets what is left, and nobody gets more than it has samples.
    assert_eq!(arrange_fine_clusters(6, 3, 6, &[1, 2, 3]), vec![1, 2, 3]);
}

#[test]
fn members_are_listed_cluster_by_cluster() {
    let assignments = [2_u32, 0, 1, 0, 2, 2];
    let sizes = [2_u32, 1, 3];
    assert_eq!(cluster_offsets(&sizes, 3), vec![0, 2, 3, 6]);
    assert_eq!(list_samples(&assignments, &sizes, 3, 6), Some(vec![1, 3, 2, 0, 4, 5]));
}

#[test]
fn assignments_are_translated_up_to_the_largest() {
    let mut out = vec![u32::MAX, 1, 2, 3];
    translate_assignments(&[3, 1], &mut out, &[5, u32::MAX - 7, 9], 7);
    assert_eq!(out, vec![u32::MAX, u32::MAX, 2, 12]);
}

#[test]
fn other_sizes_may_leave_no_list() {
    // Cluster 1 has two members but room for none: the last one falls out of the list.
    assert_eq!(list_samples(&[0, 1, 1], &[3, 0], 2, 3), None);
    // With room left at the end, the list exists, though it is not cluster by cluster.
    assert_eq!(list_samples(&[0, 0, 1], &[1, 2], 2, 3), Some(vec![0, 2, 0]));
}

#[test]
fn balance_of_uneven_clusters() {
    let assignments = [0_u32, 0, 1, 2, 2, 2];
    assert_eq!(count_members(&assignments, 6, 3), vec![2, 1, 3]);
    let stats = SuperKMeans::cluster_balance_stats(&assignments, 6, 3, single(1.8171206));
    assert_eq!(float(stats.mean), 2.0);
    assert_eq!(float(stats.geometric_mean), 1.8171206);
    let stdev = (14.0_f32 / 3.0 - 2.0 * 2.0).max(0.0).sqrt();
    assert_eq!(float(stats.stdev), stdev);
    assert_eq!(float(stats.cv), stdev / 2.0);
    assert_eq!((stats.min, stats.max), (1, 3));
}

#[test]
fn balance_of_even_clusters_and_of_none() {
    let stats = SuperKMeans::cluster_balance_stats(&[1, 0, 1, 0], 4, 2, single(2.0));
    assert_eq!(float(stats.stdev), 0.0);
    assert_eq!(float(stats.cv), 0.0);
    assert_eq!((stats.min, stats.max), (2, 2));
    let empty = SuperKMeans::cluster_balance_stats(&[], 0, 3, single(0.0));
    assert_eq!(float(empty.mean), 0.0);
    assert_eq!(float(empty.cv), 0.0);
    assert_eq!((empty.min, empty.max), (0, 0));
}
