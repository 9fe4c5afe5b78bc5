use agentos_domain::time::{MAX_SECS, MIN_SECS, Span, Timestamp};
use chrono::{DateTime, Utc};

#[test]
fn the_calendar_is_the_one_that_chrono_has() {
    assert_eq!(DateTime::<Utc>::MIN_UTC.timestamp(), MIN_SECS);
    assert_eq!(DateTime::<Utc>::MAX_UTC.timestamp(), MAX_SECS);
    assert_eq!(
        DateTime::<Utc>::MAX_UTC.timestamp_subsec_nanos(),
        Timestamp::max().nanos()
    );
    for (secs, nanos) in [
        (0, 0),
        (MIN_SECS, 0),
        (MIN_SECS - 1, 0),
        (MAX_SECS, 999_999_999),
        (MAX_SECS + 1, 0),
        (59, 1_999_999_999),
        (-1, 1_000_000_000),
        (-2, 1_000_000_000),
        (60, 1_000_000_000),
        (59, 2_000_000_000),
    ] {
        assert_eq!(
            DateTime::<Utc>::from_timestamp(secs, nanos).is_some(),
            Timestamp::from_parts(secs, nanos).is_some(),
            "{secs} {nanos}"
        );
    }
}

#[test]
fn adding_a_span_carries_nanoseconds_and_leaves_a_leap_second() {
    let start = Timestamp::from_parts(10, 900_000_000).unwrap();
    let later = start.saturating_plus(Span::from_parts(1, 200_000_000).unwrap());
    assert_eq!((later.secs(), later.nanos()), (12, 100_000_000));

    let leap = Timestamp::from_parts(59, 1_500_000_000).unwrap();
    let within = leap.saturating_plus(Span::from_parts(0, 100_000_000).unwrap());
    assert_eq!((within.secs(), within.nanos()), (59, 1_600_000_000));
    let beyond = leap.saturating_plus(Span::from_parts(0, 600_000_000).unwrap());
    assert_eq!((beyond.secs(), beyond.nanos()), (60, 100_000_000));
    let next = leap.saturating_plus(Span::from_secs(1));
    assert_eq!((next.secs(), next.nanos()), (60, 500_000_000));
}

#[test]
fn spans_add_up_and_stop_at_the_longest() {
    let a = Span::from_parts(1, 600_000_000).unwrap();
    let b = Span::from_parts(2, 500_000_000).unwrap();
    assert_eq!(a.saturating_add(b), Span::from_parts(4, 100_000_000).unwrap());
    let longest = Span::from_parts(u64::MAX, 999_999_999).unwrap();
    assert_eq!(longest.saturating_add(a), longest);
    assert_eq!(a.saturating_add(longest), longest);
    assert!(a.is_shorter(b));
    assert!(!b.is_shorter(a));
    assert_eq!(Span::from_parts(0, 1_000_000_000), None);
}

#[test]
fn instants_are_ordered_to_the_nanosecond() {
    let a = Timestamp::from_parts(5, 1).unwrap();
    let b = Timestamp::from_parts(5, 2).unwrap();
    assert!(a.is_before(b));
    assert!(!b.is_before(a));
    assert!(!a.is_before(a));
}
