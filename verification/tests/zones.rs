use iridion::zones::{plan_zones, ZonePlan};

fn pair(plan: ZonePlan) -> (Vec<usize>, Vec<usize>, bool) {
    match plan {
        ZonePlan::Pair { primary, secondary, primary_dominant } => (primary, secondary, primary_dominant),
        ZonePlan::Single { .. } => panic!("expected two zones"),
    }
}

fn single(plan: ZonePlan) -> (usize, usize) {
    match plan {
        ZonePlan::Single { first, last } => (first, last),
        ZonePlan::Pair { .. } => panic!("expected one zone"),
    }
}

#[test]
fn one_cluster_is_one_zone() {
    assert_eq!(single(plan_zones(&[], false, &[7])), (0, 0));
    assert_eq!(single(plan_zones(&[], true, &[7])), (0, 0));
}

#[test]
fn close_clusters_form_one_zone() {
    assert_eq!(single(plan_zones(&[true, true], false, &[1, 2, 3])), (0, 2));
}

#[test]
fn the_biggest_zone_is_primary() {
    let (p, s, d) = pair(plan_zones(&[true, false], false, &[3, 5, 2]));
    assert_eq!(p, vec![0, 1]);
    assert_eq!(s, vec![2]);
    assert!(d);
}

#[test]
fn ties_keep_hue_order() {
    let (p, s, d) = pair(plan_zones(&[false, false], false, &[5, 7, 7]));
    assert_eq!(p, vec![1]);
    assert_eq!(s, vec![2]);
    assert!(d);
    let (p, s, _) = pair(plan_zones(&[false, false, false], false, &[4, 4, 4, 4]));
    assert_eq!((p, s), (vec![0], vec![1]));
}

#[test]
fn secondary_is_biggest_of_the_rest() {
    let (p, s, _) = pair(plan_zones(&[false, false, false], false, &[1, 9, 3, 6]));
    assert_eq!(p, vec![1]);
    assert_eq!(s, vec![3]);
}

#[test]
fn wrap_joins_last_zone_before_first() {
    // zones [0], [1, 2], [3]; the seam joins [3] in front of [0].
    let (p, s, _) = pair(plan_zones(&[false, true, false], true, &[4, 2, 2, 5]));
    assert_eq!(p, vec![3, 0]);
    assert_eq!(s, vec![1, 2]);
}

#[test]
fn wrap_of_two_zones_gives_one() {
    assert_eq!(single(plan_zones(&[true, false], true, &[1, 1, 1])), (2, 1));
}

#[test]
fn no_wrap_without_several_zones() {
    assert_eq!(single(plan_zones(&[true], true, &[1, 1])), (0, 1));
}
