use infostop::labels::{label_buckets, trace_labels};
use infostop::plot::{color_for_label, CDN_HEAD};
use infostop::types::{Error, MetricKind, NON_STOP};

#[test]
fn cdn_head_includes_sri() {
    assert!(CDN_HEAD.contains("integrity=\"sha384-"));
    assert!(CDN_HEAD.contains("crossorigin=\"anonymous\""));
    assert_eq!(CDN_HEAD.matches("integrity=").count(), 3);
    assert_eq!(CDN_HEAD.matches("crossorigin=").count(), 3);
}

#[test]
fn color_for_label_wraps_euclidean() {
    assert_eq!(color_for_label(0), "#e41a1c");
    assert_eq!(color_for_label(1), "#377eb8");
    assert_eq!(color_for_label(12), "#e41a1c");
    assert_eq!(color_for_label(NON_STOP), "#e78ac3");
    assert_eq!(color_for_label(-12), "#e41a1c");
    assert_eq!(color_for_label(-13), "#e78ac3");
    assert_eq!(color_for_label(i32::MIN), color_for_label(i32::MIN.rem_euclid(12)));
    assert_eq!(color_for_label(i32::MAX), color_for_label(i32::MAX.rem_euclid(12)));
}

#[test]
fn trace_labels_maps_events_through_unique_positions() {
    // Trace 0 has two stays, trace 1 one stay; the second stay of trace 0
    // and the stay of trace 1 share a position.
    let inverse = vec![0, 1, 1];
    let unique_labels = vec![4, 9];
    let stay_counts = vec![2, 1];
    let event_maps = vec![vec![0, 0, -1, 1, 1], vec![-1, 0, 0]];
    let out = trace_labels(&inverse, &unique_labels, &stay_counts, &event_maps);
    assert_eq!(out, vec![vec![4, 4, NON_STOP, 9, 9], vec![NON_STOP, 9, 9]]);
}

#[test]
fn trace_labels_one_past_last_stay_is_non_stop() {
    let out = trace_labels(&vec![0], &vec![3], &vec![1], &vec![vec![1, 0]]);
    assert_eq!(out, vec![vec![NON_STOP, 3]]);
}

#[test]
fn label_buckets_groups_by_first_appearance() {
    let labels = vec![2, NON_STOP, 0, 2, 0, 5];
    let buckets = label_buckets(&labels);
    assert_eq!(buckets, vec![(2, vec![0, 3]), (0, vec![2, 4]), (5, vec![5])]);
    assert!(label_buckets(&vec![NON_STOP, NON_STOP]).is_empty());
}

#[test]
fn error_messages() {
    assert_eq!(Error::InvalidInput("x".to_string()).message(), "invalid input: x");
    assert_eq!(Error::NotFitted.message(), "model must be fitted before this method can be used");
    assert_eq!(
        Error::NoStopsFound.message(),
        "no stop events found; check that `r1`, `min_staying_time`, and `min_size` are chosen correctly"
    );
    assert_eq!(Error::Io("disk".to_string()).message(), "I/O error: disk");
}

#[test]
fn metric_kind_default_is_haversine() {
    assert_eq!(MetricKind::default(), MetricKind::Haversine);
}
