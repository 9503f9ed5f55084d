use infostop::cluster::{cluster_labels, dense_index, edge_slots, EdgeSlot, InfomapDetector};
use infostop::neighbors::BruteForceNeighbors;
use infostop::types::NON_STOP;

fn euclid(a: (f64, f64), b: (f64, f64)) -> f64 {
    ((a.0 - b.0).powi(2) + (a.1 - b.1).powi(2)).sqrt()
}

fn within_table(pts: &[(f64, f64)], radius: f64) -> Vec<Vec<bool>> {
    pts.iter()
        .map(|&a| pts.iter().map(|&b| euclid(a, b) <= radius).collect())
        .collect()
}

#[test]
fn finds_close_pair() {
    let pts = vec![(0.0, 0.0), (1.0, 0.0), (100.0, 0.0)];
    let nbrs = BruteForceNeighbors.neighbor_lists(&within_table(&pts, 2.0));
    assert_eq!(nbrs[0], vec![0, 1]);
    assert_eq!(nbrs[2], vec![2]);
}

#[test]
fn neighbor_lists_symmetric_and_sorted() {
    let pts = vec![(0.0, 0.0), (3.0, 0.0), (1.0, 0.0), (50.0, 0.0), (2.0, 0.0)];
    let nbrs = BruteForceNeighbors.neighbor_lists(&within_table(&pts, 1.5));
    assert_eq!(nbrs[0], vec![0, 2]);
    assert_eq!(nbrs[1], vec![1, 4]);
    assert_eq!(nbrs[2], vec![0, 2, 4]);
    assert_eq!(nbrs[3], vec![3]);
    assert_eq!(nbrs[4], vec![1, 2, 4]);
}

#[test]
fn neighbor_lists_reads_upper_triangle_only() {
    // Only within[i][j] with i < j is consulted.
    let within = vec![vec![false, true], vec![false, false]];
    let nbrs = BruteForceNeighbors.neighbor_lists(&within);
    assert_eq!(nbrs, vec![vec![0, 1], vec![0, 1]]);
}

#[test]
fn build_edges_unweighted_uses_max_count() {
    let neighbors = vec![vec![0, 1], vec![1, 0]];
    let counts = vec![3usize, 5];
    let (edges, singletons) = edge_slots(&neighbors, &counts);
    assert!(singletons.is_empty());
    assert_eq!(edges.len(), 1);
    assert_eq!(edges[0].node, 0);
    assert_eq!(edges[0].neighbor, 1);
    assert!((edges[0].count_weight as f64 - 5.0).abs() < 1e-12);
}

#[test]
fn edge_slots_records_slot_and_isolated_nodes() {
    let neighbors = vec![vec![0, 2], vec![1], vec![0, 2, 3], vec![2, 3]];
    let counts = vec![1usize, 4, 2, 7];
    let (edges, singletons) = edge_slots(&neighbors, &counts);
    assert_eq!(singletons, vec![1]);
    assert_eq!(
        edges,
        vec![
            EdgeSlot { node: 0, neighbor: 2, slot: 1, count_weight: 2 },
            EdgeSlot { node: 2, neighbor: 3, slot: 2, count_weight: 7 },
        ]
    );
}

#[test]
fn dense_index_skips_singletons() {
    let (name_map, inverse) = dense_index(5, &vec![1, 3]);
    assert_eq!(name_map, vec![Some(0), None, Some(1), None, Some(2)]);
    assert_eq!(inverse, vec![0, 2, 4]);
}

#[test]
fn singleton_labels_follow_modules() {
    // Two connected nodes in one module, node 2 isolated.
    let labels = cluster_labels(3, true, &vec![2], &vec![0, 0]);
    assert_eq!(labels, vec![0, 0, 1]);
}

#[test]
fn singleton_labels_non_stop_when_disabled() {
    let labels = cluster_labels(3, false, &vec![2], &vec![0, 0]);
    assert_eq!(labels, vec![0, 0, NON_STOP]);
}

#[test]
fn cluster_labels_several_modules_and_singletons() {
    let labels = cluster_labels(6, true, &vec![4, 1], &vec![1, 0, 2, 0]);
    assert_eq!(labels, vec![1, 4, 0, 2, 3, 0]);
}

#[test]
fn cluster_labels_all_singletons() {
    let labels = cluster_labels(2, true, &vec![0, 1], &vec![]);
    assert_eq!(labels, vec![0, 1]);
}

#[test]
fn infomap_detector_defaults() {
    let d = InfomapDetector::default();
    assert_eq!(d.seed, 42);
    assert_eq!(d.trials, 3);
}
