use kvtxn::error::Error;
use kvtxn::timestamp::{Timestamp, TimestampOracle, LOGICAL_SPAN, MAX_PHYSICAL};

#[test]
fn timestamp_parts_compose() {
    let t = Timestamp::from_parts(5, 7);
    assert_eq!(t.version, 5 * 262144 + 7);
    assert_eq!(t.physical(), 5);
    assert_eq!(t.logical(), 7);
    assert!(Timestamp::from_parts(5, 7).before(&Timestamp::from_parts(6, 0)));
    assert_eq!(LOGICAL_SPAN, 262144);
}

#[test]
fn timestamps_strictly_increase() {
    let mut o = TimestampOracle::new();
    let mut last = 0u64;
    for now in [10u64, 10, 10, 9, 11, 0, 11] {
        let t = o.request_timestamp(now).unwrap();
        assert!(t.version > last);
        last = t.version;
    }
    assert_eq!(o.last(), last);
}

#[test]
fn oracle_ticks_logical_within_one_physical_time() {
    let mut o = TimestampOracle::new();
    assert_eq!(o.request_timestamp(3).unwrap(), Timestamp::from_parts(3, 0));
    assert_eq!(o.request_timestamp(3).unwrap(), Timestamp::from_parts(3, 1));
    assert_eq!(o.request_timestamp(2).unwrap(), Timestamp::from_parts(3, 2));
    assert_eq!(o.request_timestamp(4).unwrap(), Timestamp::from_parts(4, 0));
}

#[test]
fn oracle_overflow_is_reported() {
    let mut o = TimestampOracle::new();
    assert_eq!(o.request_timestamp(MAX_PHYSICAL + 1), Err(Error::TimestampOverflow));
    assert_eq!(o.last(), 0);
    let mut o = TimestampOracle::resume_after(Timestamp { version: u64::MAX });
    assert_eq!(o.request_timestamp(1), Err(Error::TimestampOverflow));
    let mut o = TimestampOracle::resume_after(Timestamp { version: u64::MAX - 1 });
    assert_eq!(o.request_timestamp(0).unwrap().version, u64::MAX);
}
