use kate::metrics::{millis_from_parts, MetricActions, MetricDetail, MetricKind};

#[test]
fn kind_numbers_round_trip() {
    for kind in [MetricKind::PROPOSAL, MetricKind::SYNC, MetricKind::IMPORT] {
        assert_eq!(MetricKind::from_u8(kind.to_u8()), Some(kind));
    }
    assert_eq!(MetricKind::PROPOSAL.to_u8(), 0);
    assert_eq!(MetricKind::SYNC.to_u8(), 1);
    assert_eq!(MetricKind::IMPORT.to_u8(), 2);
    assert_eq!(MetricKind::from_u8(3), None);
    assert_eq!(MetricKind::from_u8(255), None);
}

#[test]
fn detail_new_keeps_fields() {
    let d = MetricDetail::new(MetricKind::SYNC, 42, 100, 200);
    assert_eq!(d.kind(), 1);
    assert_eq!(d.block_number(), 42);
    assert_eq!(d.start_timestamp(), 100);
    assert_eq!(d.end_timestamp(), 200);
}

#[test]
fn observe_metric_appends_with_low_bits() {
    let mut store = MetricActions::new();
    store.observe_metric(MetricKind::IMPORT, 7, 10, 20);
    store.observe_metric(MetricKind::PROPOSAL, 8, (1u128 << 64) + 5, 30);
    assert_eq!(store.len(), 2);
    assert_eq!(store.get(0), MetricDetail::new(MetricKind::IMPORT, 7, 10, 20));
    assert_eq!(store.get(1), MetricDetail::new(MetricKind::PROPOSAL, 8, 5, 30));
}

#[test]
fn observe_metric_option_needs_all_parts() {
    let mut store = MetricActions::new();
    store.observe_metric_option(MetricKind::SYNC, None, Some(1), Some(2));
    store.observe_metric_option(MetricKind::SYNC, Some(1), None, Some(2));
    store.observe_metric_option(MetricKind::SYNC, Some(1), Some(1), None);
    assert_eq!(store.len(), 0);
    store.observe_metric_option(MetricKind::SYNC, Some(3), Some(4), Some(5));
    assert_eq!(store.len(), 1);
    assert_eq!(store.get(0), MetricDetail::new(MetricKind::SYNC, 3, 4, 5));
}

#[test]
fn partial_halves_make_whole_metric() {
    let mut a = MetricActions::new();
    a.observe_metric_partial(MetricKind::IMPORT, Some(9), Some(100), true);
    assert_eq!(a.get(0), MetricDetail::new(MetricKind::IMPORT, 9, 100, 0));
    a.observe_metric_partial(MetricKind::IMPORT, Some(9), Some(150), false);
    assert_eq!(a.len(), 1);
    assert_eq!(a.get(0), MetricDetail::new(MetricKind::IMPORT, 9, 100, 150));

    let mut b = MetricActions::new();
    b.observe_metric_partial(MetricKind::IMPORT, Some(9), Some(150), false);
    assert_eq!(b.get(0), MetricDetail::new(MetricKind::IMPORT, 9, 0, 150));
    b.observe_metric_partial(MetricKind::IMPORT, Some(9), Some(100), true);
    assert_eq!(b.len(), 1);
    assert_eq!(b.get(0), MetricDetail::new(MetricKind::IMPORT, 9, 100, 150));
}

#[test]
fn partial_updates_first_matching_metric_only() {
    let mut a = MetricActions::new();
    a.observe_metric(MetricKind::SYNC, 5, 1, 2);
    a.observe_metric(MetricKind::IMPORT, 5, 3, 4);
    a.observe_metric(MetricKind::IMPORT, 5, 6, 7);
    a.observe_metric_partial(MetricKind::IMPORT, Some(5), Some(99), true);
    assert_eq!(a.len(), 3);
    assert_eq!(a.get(0), MetricDetail::new(MetricKind::SYNC, 5, 1, 2));
    assert_eq!(a.get(1), MetricDetail::new(MetricKind::IMPORT, 5, 99, 4));
    assert_eq!(a.get(2), MetricDetail::new(MetricKind::IMPORT, 5, 6, 7));
    // another block of the same kind is a new metric
    a.observe_metric_partial(MetricKind::IMPORT, Some(6), Some(11), false);
    assert_eq!(a.len(), 4);
    assert_eq!(a.get(3), MetricDetail::new(MetricKind::IMPORT, 6, 0, 11));
}

#[test]
fn partial_without_block_or_time_does_nothing() {
    let mut a = MetricActions::new();
    a.observe_metric_partial(MetricKind::SYNC, None, Some(1), true);
    a.observe_metric_partial(MetricKind::SYNC, Some(1), None, false);
    assert_eq!(a.len(), 0);
}

#[test]
fn take_metrics_empties_store() {
    let mut a = MetricActions::new();
    a.observe_metric(MetricKind::SYNC, 1, 2, 3);
    a.observe_metric(MetricKind::PROPOSAL, 4, 5, 6);
    let taken = a.take_metrics();
    assert_eq!(taken, vec![
        MetricDetail::new(MetricKind::SYNC, 1, 2, 3),
        MetricDetail::new(MetricKind::PROPOSAL, 4, 5, 6),
    ]);
    assert_eq!(a.len(), 0);
    a.observe_metric(MetricKind::IMPORT, 7, 8, 9);
    assert_eq!(a.take_metrics(), vec![MetricDetail::new(MetricKind::IMPORT, 7, 8, 9)]);
}

#[test]
fn millis_from_seconds_and_fraction() {
    assert_eq!(millis_from_parts(0, 0), 0);
    assert_eq!(millis_from_parts(2, 345), 2345);
    assert_eq!(millis_from_parts(u64::MAX, 999), (u64::MAX as u128) * 1000 + 999);
}

#[test]
fn current_timestamp_is_after_2020() {
    let ms = MetricActions::get_current_timestamp_in_ms().unwrap();
    // 2020-01-01T00:00:00Z in milliseconds since the Unix epoch.
    assert!(ms > 1_577_836_800_000);
}
