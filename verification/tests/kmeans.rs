use iridion::cluster::{
    build_stats, cluster_members, count_labels, score, select_best_offset, CenterUpdate, KMeansState, SwatchStats,
    MAX_ROUNDS, NUM_CLUSTERS, UNASSIGNED,
};

#[test]
fn new_state_has_no_fixed_label_and_all_active() {
    let s = KMeansState::new(4);
    assert_eq!(s.num_points(), 4);
    assert_eq!(s.labels(), &vec![UNASSIGNED; 4]);
    assert_eq!(s.active(), [true; NUM_CLUSTERS]);
    assert!(s.any_active());
}

#[test]
fn empty_state() {
    let s = KMeansState::new(0);
    assert_eq!(s.num_points(), 0);
    let a = s.assign(&[]);
    assert!(a.clusters.is_empty());
    assert_eq!(a.counts, [0; NUM_CLUSTERS]);
    assert!(s.finish(&[]).is_empty());
}

#[test]
fn assign_counts_only_unfixed_points() {
    let mut s = KMeansState::new(3);
    let a = s.assign(&[1, 1, 2]);
    assert_eq!(a.clusters, vec![1, 1, 2]);
    assert_eq!(a.counts, [0, 2, 1, 0, 0, 0, 0, 0]);

    let in_sector = [true, true, false, true, true, true, true, true];
    let out = s.update(&a, &in_sector, &[false; NUM_CLUSTERS]);
    assert!(!out.converged);
    assert_eq!(out.updates[1], CenterUpdate::Move);
    assert_eq!(out.updates[2], CenterUpdate::Freeze);
    assert_eq!(out.updates[0], CenterUpdate::Keep);
    assert_eq!(s.labels(), &vec![UNASSIGNED, UNASSIGNED, 2]);
    assert!(!s.active()[2]);

    // The fixed point keeps its cluster and is not counted again.
    let a2 = s.assign(&[0, 0, 0]);
    assert_eq!(a2.clusters, vec![0, 0, 2]);
    assert_eq!(a2.counts, [2, 0, 0, 0, 0, 0, 0, 0]);
}

#[test]
fn frozen_cluster_stays_frozen_and_keeps_its_centre() {
    let mut s = KMeansState::new(2);
    let a = s.assign(&[5, 6]);
    let mut in_sector = [true; NUM_CLUSTERS];
    in_sector[5] = false;
    s.update(&a, &in_sector, &[false; NUM_CLUSTERS]);
    assert!(!s.active()[5]);
    let a2 = s.assign(&[5, 5]);
    let out = s.update(&a2, &[true; NUM_CLUSTERS], &[false; NUM_CLUSTERS]);
    assert_eq!(out.updates[5], CenterUpdate::Keep);
    assert!(!s.active()[5]);
    assert_eq!(s.labels(), &vec![5, UNASSIGNED]);
}

#[test]
fn update_converges_when_nothing_moves_or_freezes() {
    let mut s = KMeansState::new(3);
    let a = s.assign(&[0, 3, 3]);
    let out = s.update(&a, &[true; NUM_CLUSTERS], &[false; NUM_CLUSTERS]);
    assert!(out.converged);
    assert_eq!(out.updates[0], CenterUpdate::Move);
    assert_eq!(out.updates[3], CenterUpdate::Move);
    assert_eq!(out.updates[1], CenterUpdate::Keep);

    let mut moved = [false; NUM_CLUSTERS];
    moved[3] = true;
    let out2 = s.update(&a, &[true; NUM_CLUSTERS], &moved);
    assert!(!out2.converged);
    // A cluster that gained nothing does not count as moved.
    let mut moved_idle = [false; NUM_CLUSTERS];
    moved_idle[1] = true;
    let out3 = s.update(&a, &[true; NUM_CLUSTERS], &moved_idle);
    assert!(out3.converged);
}

#[test]
fn all_frozen_means_no_active_cluster() {
    let mut s = KMeansState::new(8);
    let nearest: Vec<u8> = (0..8).collect();
    let a = s.assign(&nearest);
    let out = s.update(&a, &[false; NUM_CLUSTERS], &[false; NUM_CLUSTERS]);
    assert!(!out.converged);
    assert!(!s.any_active());
    assert_eq!(s.labels(), &nearest);
}

#[test]
fn finish_fills_unfixed_labels_only() {
    let mut s = KMeansState::new(3);
    let a = s.assign(&[1, 1, 2]);
    let mut in_sector = [true; NUM_CLUSTERS];
    in_sector[2] = false;
    s.update(&a, &in_sector, &[false; NUM_CLUSTERS]);
    let labels = s.finish(&[3, 4, 5]);
    assert_eq!(labels, vec![3, 4, 2]);
}

#[test]
fn count_labels_tallies_each_cluster() {
    let counts = count_labels(&[0, 1, 1, 7]);
    assert_eq!(counts, [1, 2, 0, 0, 0, 0, 0, 1]);
    assert_eq!(counts.iter().sum::<usize>(), 4);
    assert_eq!(count_labels(&[]), [0; NUM_CLUSTERS]);
}

#[test]
fn build_stats_pairs_counts_with_activity() {
    let mut active = [false; NUM_CLUSTERS];
    active[1] = true;
    let stats = build_stats(&active, &[1, 1, 3]);
    assert_eq!(stats[1], SwatchStats { pixel_count: 2, active: true });
    assert_eq!(stats[3], SwatchStats { pixel_count: 1, active: false });
    assert_eq!(stats[0], SwatchStats { pixel_count: 0, active: false });
}

#[test]
fn score_counts_active_clusters_and_their_points() {
    let mut stats = [SwatchStats { pixel_count: 0, active: false }; NUM_CLUSTERS];
    stats[0] = SwatchStats { pixel_count: 10, active: true };
    stats[2] = SwatchStats { pixel_count: 5, active: false };
    stats[7] = SwatchStats { pixel_count: 3, active: true };
    assert_eq!(score(&stats), (2, 13));
    assert_eq!(score(&[SwatchStats { pixel_count: 0, active: true }; NUM_CLUSTERS]), (8, 0));
}

#[test]
fn select_best_offset_prefers_more_active_then_more_points_then_first() {
    assert_eq!(select_best_offset(&[(3, 10), (4, 2), (4, 2), (2, 99)]), 1);
    assert_eq!(select_best_offset(&[(4, 2), (4, 3), (4, 3)]), 1);
    assert_eq!(select_best_offset(&[(8, 0), (8, 0), (8, 0)]), 0);
    assert_eq!(select_best_offset(&[(1, 1)]), 0);
}

#[test]
fn cluster_members_lists_indices_in_order() {
    assert_eq!(cluster_members(&[2, 0, 2, 2, 1], 2), vec![0, 2, 3]);
    assert_eq!(cluster_members(&[2, 0, 2], 5), Vec::<usize>::new());
    assert_eq!(cluster_members(&[], 0), Vec::<usize>::new());
}

#[test]
fn rounds_stop_at_the_cap_or_when_nothing_is_active() {
    let mut s = KMeansState::new(8);
    assert!(s.should_run_round(0));
    assert!(s.should_run_round(MAX_ROUNDS - 1));
    assert!(!s.should_run_round(MAX_ROUNDS));
    let nearest: Vec<u8> = (0..8).collect();
    let a = s.assign(&nearest);
    s.update(&a, &[false; NUM_CLUSTERS], &[false; NUM_CLUSTERS]);
    assert!(!s.should_run_round(0));
}
