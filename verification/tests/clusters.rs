use turbovec::clustering::{clustering_sample, count_sizes, Clustering};
use turbovec::coarse::{
    balanced_owners, farthest, group_capacity, group_count, initial_rows, is_stale, order_by_group, CoarseIndex,
};
use turbovec::lire::{flag_shrunk, nearest_others, rows_of_flagged, split_sample};
use turbovec::repartition::{Phase, Repartition, Work};
use turbovec::replicate::{closure_candidates, select_replicas};
use turbovec::upkeep::{balance_round, count_balance_moves, partition_count, sampled_rows};

fn b(v: f32) -> u32 {
    v.to_bits()
}

fn clustering() -> Clustering {
    Clustering { dim: 2, nlist: 2, centroids: vec![1, 2, 3, 4], assignments: vec![0, 0, 1, 0, 1, 0] }
}

#[test]
fn sizes_and_members() {
    let c = clustering();
    assert_eq!(c.counts(), vec![4, 2]);
    assert_eq!(count_sizes(&c.assignments, 3), vec![4, 2, 0]);
    assert_eq!(c.members(1), vec![2, 4]);
    assert_eq!(c.oversized(1), Some(0));
    assert_eq!(c.oversized(2), None);
}

#[test]
fn undersized_clusters_need_more_than_the_least_number() {
    let c = clustering();
    assert_eq!(c.undersized(100), None);
    let c = Clustering { dim: 1, nlist: 3, centroids: vec![0, 0, 0], assignments: vec![0, 0, 1, 2, 2] };
    assert_eq!(c.undersized(8), Some(1));
    assert_eq!(c.undersized(4), None);
}

#[test]
fn a_split_keeps_every_row() {
    let mut c = clustering();
    assert!(c.split(0, &vec![10, 11, 12, 13], &vec![0, 1, 1, 0]));
    assert_eq!(c.assignments, vec![0, 2, 1, 2, 1, 0]);
    assert_eq!(c.centroids, vec![10, 11, 3, 4, 12, 13]);
    assert_eq!(c.counts().iter().sum::<usize>(), 6);
    let mut c = clustering();
    assert!(!c.split(0, &vec![10, 11, 12, 13], &vec![0, 0, 0, 0]));
    assert_eq!(c.assignments, clustering().assignments);
    assert!(!c.split(0, &vec![10, 11], &vec![0, 1, 1, 0]));
}

#[test]
fn a_dissolved_cluster_goes_to_the_others() {
    let mut c = Clustering { dim: 1, nlist: 3, centroids: vec![5, 6, 7], assignments: vec![0, 1, 2, 1] };
    assert_eq!(c.centroids_without(1), vec![5, 7]);
    c.dissolve(1, &vec![0, 1]);
    assert_eq!(c.nlist, 2);
    assert_eq!(c.centroids, vec![5, 7]);
    assert_eq!(c.assignments, vec![0, 0, 1, 1]);
}

#[test]
fn rows_move_only_when_closer() {
    let mut c = clustering();
    let mut changed = vec![false, false];
    c.apply_moves(&vec![0, 1, 2], &vec![1, 1, 1], &vec![true, false, true], &mut changed);
    assert_eq!(c.assignments, vec![1, 0, 1, 0, 1, 0]);
    assert_eq!(changed, vec![true, true]);
}

#[test]
fn added_rows_take_the_chosen_clusters() {
    let c = Clustering::from_sources(1, 2, vec![0, 0], &vec![1, u32::MAX, 0, u32::MAX], &vec![0, 1]);
    assert_eq!(c.assignments, vec![1, 0, 0, 1]);
}

#[test]
fn shrunk_clusters_are_flagged() {
    assert_eq!(flag_shrunk(&vec![0, 0, 1, u32::MAX], &vec![2, 2]), vec![false, true]);
}

#[test]
fn neighbours_leave_the_cluster_itself_out() {
    assert_eq!(nearest_others(&vec![b(0.0), b(3.0), b(1.0), b(2.0)], 0, 2), vec![2, 3]);
    assert_eq!(nearest_others(&vec![b(0.0)], 0, 2), Vec::<u32>::new());
    assert_eq!(rows_of_flagged(&vec![0, 1, 2, 1], &vec![false, true, false]), vec![1, 3]);
}

#[test]
fn samples_cover_the_rows_evenly() {
    assert_eq!(clustering_sample(5, 2), vec![0, 1, 2, 3, 4]);
    let s = clustering_sample(2_000_000, 4);
    assert_eq!(s.len(), 66_667);
    assert!(s.iter().enumerate().all(|(i, &r)| r == 30 * i));
    // A stride of one where fewer rows would not do.
    assert_eq!(clustering_sample(200_000, 2_000), (0..200_000).collect::<Vec<usize>>());
    assert_eq!(clustering_sample(100_000, 1).len(), 100_000);
    // Only the cap asks for a greater one.
    let s = clustering_sample(1_000_000, 10_000);
    assert_eq!(s.len(), 500_000);
    assert!(s.iter().enumerate().all(|(i, &r)| r == 2 * i));
    assert_eq!(clustering_sample(524_288, 1_000_000).len(), 524_288);
    assert_eq!(clustering_sample(0, 3), Vec::<usize>::new());
    let (fit, held) = split_sample(9);
    assert_eq!(held, vec![0, 4, 8]);
    assert_eq!(fit, vec![1, 2, 3, 5, 6, 7]);
    assert_eq!(sampled_rows(&vec![0, 3, 4, 9], 3, 4), vec![0, 1]);
}

#[test]
fn replicas_lie_within_the_bound() {
    let d = vec![b(1.0), b(1.2), b(3.0), b(1.1)];
    assert_eq!(closure_candidates(&d, b(2.0), 0), vec![3, 1]);
    // Partition 1 lies closer to partition 3 than to the row: it is redundant.
    let far = b(5.0);
    let near = vec![b(0.0), far, far, far, b(0.0), b(0.1), far, b(0.1), b(0.0)];
    assert_eq!(select_replicas(&vec![3, 1], &vec![b(1.1), b(1.2)], &near, true), vec![3]);
    assert_eq!(select_replicas(&vec![3, 1], &vec![b(1.1), b(1.2)], &near, false), vec![3, 1]);
}

#[test]
fn seeds_are_drawn_without_repetition() {
    let a = initial_rows(1000, 10, 42);
    assert_eq!(a, initial_rows(1000, 10, 42));
    assert_ne!(a, initial_rows(1000, 10, 43));
    assert_ne!(a, (0..10).collect::<Vec<usize>>());
    let mut sorted = a.clone();
    sorted.sort();
    sorted.dedup();
    assert_eq!(sorted.len(), 10);
    assert!(a.iter().all(|&i| i < 1000));
    assert_eq!(initial_rows(3, 10, 1).len(), 3);
    assert_eq!(initial_rows(3, 0, 1).len(), 1);
}

#[test]
fn the_last_of_the_farthest_is_taken() {
    assert_eq!(farthest(&vec![b(1.0), b(4.0), b(4.0), b(2.0)]), 2);
    assert_eq!(farthest(&Vec::new()), 0);
}

#[test]
fn group_counts_are_roots() {
    assert_eq!(group_count(8, 512), 64);
    assert_eq!(group_count(8, 513), 65);
    assert_eq!(group_count(0, 100), 10);
    assert_eq!(group_count(8, 4), 4);
    assert_eq!(group_count(8, 0), 0);
    assert_eq!(group_count(1, 1), 1);
}

#[test]
fn groups_grow_stale() {
    assert!(is_stale(None, 10));
    assert!(!is_stale(Some(100), 120));
    assert!(is_stale(Some(100), 121));
    assert!(is_stale(Some(121), 100));
    assert!(!is_stale(Some(0), 1));
}

#[test]
fn owners_respect_the_capacity() {
    let prefs: Vec<Vec<u32>> = (0..6).map(|c| if c < 4 { vec![0, 1, 2] } else { vec![2, 0, 1] }).collect();
    let owner = balanced_owners(&prefs, &vec![3, 2, 1, 0, 4, 5], 3, 2);
    assert_eq!(owner, vec![1, 1, 0, 0, 2, 2]);
    // No room anywhere: the first choice.
    assert_eq!(balanced_owners(&prefs, &vec![0, 1, 2, 3, 4, 5], 3, 0), vec![0, 0, 0, 0, 2, 2]);
}

#[test]
fn groups_hold_three_halves_of_a_share_at_most() {
    assert_eq!(group_capacity(10, 4), 4);
    assert_eq!(group_capacity(8, 4), 3);
    assert_eq!(group_capacity(1, 5), 1);
    // Everyone prefers the first group.
    let prefs: Vec<Vec<u32>> = (0..10).map(|_| vec![0, 1, 2, 3]).collect();
    let order: Vec<u32> = (0..10).rev().collect();
    let c = CoarseIndex::group(&prefs, &order, 4);
    assert_eq!(c.member_counts(), vec![4, 4, 2, 0]);
    assert_eq!((c.built_for, c.n_super), (10, 4));
    assert_eq!(c.members, vec![6, 7, 8, 9, 2, 3, 4, 5, 0, 1]);
}

#[test]
fn members_stand_group_by_group() {
    let c = CoarseIndex::build(&vec![1, 0, 1, 2, 0], 4);
    assert_eq!(c.members, vec![1, 4, 0, 2, 3]);
    assert_eq!(c.member_offsets, vec![0, 2, 4, 5, 5]);
    assert_eq!(c.member_counts(), vec![2, 2, 1, 0]);
    assert_eq!(c.built_for, 5);
    assert_eq!(order_by_group(&vec![2, 0, 2, 1]), vec![(0, 1), (1, 3), (2, 0), (2, 2)]);
}

#[test]
fn a_round_evens_out_a_split() {
    assert_eq!(count_balance_moves(10, 2), 4);
    assert_eq!(count_balance_moves(6, 4), 0);
    assert_eq!(count_balance_moves(5, 0), 2);
    assert_eq!(count_balance_moves(1, 0), 0);
    assert_eq!(count_balance_moves(2, 1), 1);
    let mut children = vec![0, 0, 0, 0, 0, 1];
    assert!(balance_round(&mut children, &vec![3, 1, 0, 2, 4]));
    assert_eq!(children, vec![0, 1, 0, 1, 0, 1]);
    assert!(!balance_round(&mut children, &vec![1, 3, 5]));
}

#[test]
fn partition_counts_have_a_floor() {
    assert_eq!(partition_count(1000, 100), 10);
    assert_eq!(partition_count(150, 100), 2);
}

#[test]
fn partitioning_goes_through_its_phases() {
    let mut c = Clustering { dim: 1, nlist: 1, centroids: vec![0], assignments: vec![0; 12] };
    let mut r = Repartition::bootstrap();
    assert_eq!(r.next(&c, 4), Work::Cluster(3));
    c = Clustering { dim: 1, nlist: 3, centroids: vec![1, 2, 3], assignments: vec![0, 0, 0, 0, 0, 0, 0, 0, 0, 1, 1, 1] };
    assert_eq!(r.next(&c, 4), Work::Split(0));
    assert!(c.split(0, &vec![4, 5], &vec![0, 1, 0, 1, 0, 1, 0, 1, 0]));
    r.after_split(0, true);
    assert_eq!(r.changed, vec![true, false, false, true]);
    assert_eq!(r.next(&c, 4), Work::Reassign);
    // The third partition is empty.
    assert_eq!(r.next(&c, 4), Work::Dissolve(2));
    c.dissolve(2, &vec![]);
    assert_eq!(r.next(&c, 4), Work::Finish);
    assert_eq!(r.phase, Phase::Done);
    assert_eq!(c.counts(), vec![5, 3, 4]);
}

#[test]
fn partitions_are_taken_up_where_they_are() {
    let c = Clustering { dim: 1, nlist: 2, centroids: vec![1, 2], assignments: vec![0; 30] };
    let mut r = Repartition::resume(vec![true, false]);
    assert_eq!(r.next(&c, 4), Work::Reassign);
    assert_eq!(r.next(&c, 4), Work::TestDrift(7));
    assert_eq!(r.next(&c, 4), Work::Split(0));
    // It does not come apart.
    r.after_split(0, false);
    assert_eq!(r.next(&c, 4), Work::Finish);
    let mut r = Repartition::resume(vec![false, false]);
    assert_eq!(r.next(&c, 40), Work::TestDrift(2));
    assert_eq!(c.repair_rows(&vec![1], &vec![vec![b(1.0), b(0.0)]]).len(), 30);
}

#[test]
fn rows_are_assigned_one_by_one() {
    let mut c = clustering();
    c.assign(&vec![0, 5], &vec![1, 1]);
    assert_eq!(c.assignments, vec![1, 0, 1, 0, 1, 1]);
}
