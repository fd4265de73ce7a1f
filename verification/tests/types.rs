use mm_engine::types::{now_nanos, stamp_reading, time_stamp, BookResync, Side};

#[test]
fn each_side_is_opposite_to_the_other() {
    assert_eq!(Side::Bid.opposite(), Side::Ask);
    assert_eq!(Side::Ask.opposite(), Side::Bid);
}

#[test]
fn default_resync_is_empty() {
    let resync = BookResync::default();
    assert!(resync.bids.is_empty());
    assert!(resync.asks.is_empty());
    assert_eq!(resync.seq_at_snapshot, 0);
}

#[test]
fn time_stamp_is_the_low_half() {
    assert_eq!(time_stamp(0), 0);
    assert_eq!(time_stamp(1_700_000_000_123_456_789), 1_700_000_000_123_456_789);
    assert_eq!(time_stamp(u64::MAX as u128), u64::MAX);
    assert_eq!(time_stamp(u64::MAX as u128 + 1), 0);
    assert_eq!(time_stamp(u128::MAX), u64::MAX);
}

#[test]
fn reading_is_stamped_and_a_missing_one_is_not() {
    assert_eq!(stamp_reading(None), None);
    assert_eq!(stamp_reading(Some(0)), Some(0));
    assert_eq!(stamp_reading(Some(1_700_000_000_123_456_789)), Some(1_700_000_000_123_456_789));
    assert_eq!(stamp_reading(Some(u64::MAX as u128 + 8)), Some(7));
}

#[test]
fn now_counts_nanoseconds_since_the_epoch() {
    let before = std::time::SystemTime::now()
        .duration_since(std::time::UNIX_EPOCH)
        .unwrap()
        .as_nanos() as u64;
    let now = now_nanos().unwrap();
    let after = std::time::SystemTime::now()
        .duration_since(std::time::UNIX_EPOCH)
        .unwrap()
        .as_nanos() as u64;
    assert!(before <= now && now <= after);
}
