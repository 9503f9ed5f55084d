use infostop::stay::{label_stays, stay_groups};
use infostop::types::NON_STOP;
use infostop::unique::unique_points;

#[test]
fn stay_groups_split_at_non_joining_points() {
    let joins = vec![false, true, true, true, true, false, false, true, true, true, true];
    let groups = stay_groups(&joins);
    assert_eq!(groups, vec![(0, 5), (5, 6), (6, 11)]);
}

#[test]
fn stay_groups_empty_and_single() {
    assert!(stay_groups(&vec![]).is_empty());
    assert_eq!(stay_groups(&vec![true]), vec![(0, 1)]);
    assert_eq!(stay_groups(&vec![false, false]), vec![(0, 1), (1, 2)]);
}

#[test]
fn label_stays_two_stays_around_a_trip() {
    let groups = vec![(0, 5), (5, 6), (6, 11)];
    let (event_map, stays) = label_stays(11, &groups, 2, &vec![true, true, true]);
    assert_eq!(event_map, vec![0, 0, 0, 0, 0, NON_STOP, 1, 1, 1, 1, 1]);
    assert_eq!(stays, vec![(0, 5), (6, 11)]);
}

#[test]
fn label_stays_rejects_short_duration() {
    let groups = vec![(0, 3), (3, 4)];
    let (event_map, stays) = label_stays(4, &groups, 2, &vec![false, false]);
    assert!(event_map.iter().all(|&l| l == NON_STOP));
    assert!(stays.is_empty());
}

#[test]
fn label_stays_min_size_boundary() {
    let groups = vec![(0, 2), (2, 3), (3, 6)];
    let (event_map, stays) = label_stays(6, &groups, 3, &vec![true, true, true]);
    assert_eq!(event_map, vec![NON_STOP, NON_STOP, NON_STOP, 0, 0, 0]);
    assert_eq!(stays, vec![(3, 6)]);
    let (event_map2, _) = label_stays(6, &groups, 2, &vec![true, true, true]);
    assert_eq!(event_map2, vec![0, 0, NON_STOP, 1, 1, 1]);
}

#[test]
fn label_stays_empty_trajectory() {
    let (event_map, stays) = label_stays(0, &vec![], 2, &vec![]);
    assert!(event_map.is_empty());
    assert!(stays.is_empty());
}

#[test]
fn unique_points_first_seen_order_and_counts() {
    let pts: Vec<(u64, u64)> = vec![(1, 2), (3, 4), (1, 2), (5, 6), (3, 4), (1, 2)];
    let (unique, inverse, counts) = unique_points(&pts);
    assert_eq!(unique, vec![(1, 2), (3, 4), (5, 6)]);
    assert_eq!(inverse, vec![0, 1, 0, 2, 1, 0]);
    assert_eq!(counts, vec![3, 2, 1]);
}

#[test]
fn unique_points_same_position_from_float_bits() {
    let a = (0.5f64.to_bits(), 1.25f64.to_bits());
    let b = (0.5f64.to_bits(), 1.5f64.to_bits());
    let (unique, inverse, counts) = unique_points(&vec![a, b, a]);
    assert_eq!(unique.len(), 2);
    assert_eq!(inverse[0], inverse[2]);
    assert_ne!(inverse[0], inverse[1]);
    assert_eq!(counts, vec![2, 1]);
}

#[test]
fn unique_points_empty() {
    let (unique, inverse, counts) = unique_points(&vec![]);
    assert!(unique.is_empty() && inverse.is_empty() && counts.is_empty());
}
