use chrono::{DateTime, Duration, Utc};
use kiditrade::time_buckets::{ConfigError, Step, TimeBuckets, TimeStreamExt, Timestamp};

fn nanos(at: DateTime<Utc>) -> i128 {
    at.timestamp() as i128 * 1_000_000_000 + at.timestamp_subsec_nanos() as i128
}

const SECOND: i128 = 1_000_000_000;

#[test]
fn test_time_buckets() {
    let now = Utc::now();
    let items = vec![
        now,
        now + Duration::seconds(10),
        now + Duration::seconds(30),
        now + Duration::seconds(60),
        now + Duration::seconds(70),
    ];

    let expected = vec![items[0..3].to_vec(), items[3..].to_vec()];

    let stamped: Vec<(i128, DateTime<Utc>)> = items.iter().map(|at| (nanos(*at), *at)).collect();
    let period = Duration::seconds(60).to_std().unwrap().as_nanos() as i128;
    let result: Vec<Vec<DateTime<Utc>>> = stamped
        .time_buckets(period)
        .unwrap()
        .into_iter()
        .map(|window| window.into_iter().map(|item| item.1).collect())
        .collect();

    assert_eq!(expected, result);
}

#[test]
fn offsets_split_at_the_minute() {
    let base: i128 = 1_546_300_800 * SECOND;
    let items: Vec<i128> = vec![0, 10, 30, 60, 70].into_iter().map(|s| base + s * SECOND).collect();
    let windows = items.clone().time_buckets(60 * SECOND).unwrap();
    assert_eq!(windows, vec![items[0..3].to_vec(), items[3..].to_vec()]);
}

#[test]
fn zero_period_is_refused() {
    let items: Vec<i128> = vec![1, 2, 3];
    assert_eq!(items.time_buckets(0), Err(ConfigError::InvalidArgument));
    assert!(matches!(TimeBuckets::<i128>::new(0), Err(ConfigError::InvalidArgument)));
}

#[test]
fn negative_period_is_refused() {
    let items: Vec<i128> = vec![1, 2, 3];
    assert_eq!(items.time_buckets(-60 * SECOND), Err(ConfigError::InvalidArgument));
    assert!(matches!(TimeBuckets::<i128>::new(-1), Err(ConfigError::InvalidArgument)));
}

#[test]
fn positive_period_is_kept() {
    let buckets = TimeBuckets::<i128>::new(42).unwrap();
    assert_eq!(buckets.period(), 42);
}

#[test]
fn no_items_give_no_window() {
    let items: Vec<i128> = Vec::new();
    assert_eq!(items.time_buckets(60), Ok(Vec::new()));
}

#[test]
fn right_edge_is_exclusive() {
    let items: Vec<i128> = vec![100, 159, 160, 219, 220];
    let windows = items.time_buckets(60).unwrap();
    assert_eq!(windows, vec![vec![100, 159], vec![160, 219], vec![220]]);
}

#[test]
fn window_starts_at_its_first_item() {
    // The second window starts at 170, not at 160, so 229 still belongs to it.
    let items: Vec<i128> = vec![100, 170, 229, 230];
    let windows = items.time_buckets(60).unwrap();
    assert_eq!(windows, vec![vec![100], vec![170, 229], vec![230]]);
}

#[test]
fn early_item_joins_the_open_window() {
    let items: Vec<i128> = vec![100, 50, 120, 200];
    let windows = items.time_buckets(60).unwrap();
    assert_eq!(windows, vec![vec![100, 50, 120], vec![200]]);
}

#[test]
fn windows_join_to_the_input() {
    let items: Vec<i128> = vec![3, 4, 4, 9, 10, 11, 30, 31, 100, 104, 105, 106, 1000];
    let windows = items.clone().time_buckets(5).unwrap();
    let joined: Vec<i128> = windows.iter().flatten().copied().collect();
    assert_eq!(joined, items);
    for window in &windows {
        assert!(!window.is_empty());
        for item in window {
            assert!(*item < window[0] + 5);
        }
    }
    for pair in windows.windows(2) {
        assert!(pair[1][0] >= pair[0][0] + 5);
    }
}

#[test]
fn edge_beyond_the_largest_instant_never_closes() {
    let items: Vec<i128> = vec![i128::MAX - 5, i128::MAX - 1, i128::MAX];
    let windows = items.clone().time_buckets(10).unwrap();
    assert_eq!(windows, vec![items]);
}

#[test]
fn poll_next_step_by_step() {
    let mut buckets = TimeBuckets::<(i128, char)>::new(60).unwrap();
    assert!(matches!(buckets.poll_next(Some((0, 'a'))), Step::Pending));
    assert!(matches!(buckets.poll_next(Some((59, 'b'))), Step::Pending));
    match buckets.poll_next(Some((60, 'c'))) {
        Step::Window(window) => assert_eq!(window, vec![(0, 'a'), (59, 'b')]),
        other => panic!("{:?}", other),
    }
    match buckets.poll_next(None) {
        Step::Window(window) => assert_eq!(window, vec![(60, 'c')]),
        other => panic!("{:?}", other),
    }
    assert!(matches!(buckets.poll_next(None), Step::Done));
    assert!(matches!(buckets.poll_next(None), Step::Done));
}

#[test]
fn end_of_empty_input_is_done() {
    let mut buckets = TimeBuckets::<i128>::new(1).unwrap();
    assert!(matches!(buckets.poll_next(None), Step::Done));
}

#[test]
fn timestamps_of_plain_items() {
    assert_eq!(7i128.timestamp(), 7);
    assert_eq!((8i128, "x").timestamp(), 8);
    assert_eq!((9i128, "x", 1u8).timestamp(), 9);
}
