use agentos_domain::employee::Lifecycle;
use agentos_domain::initiative::{
    Cadence, CadenceError, Initiative, MAX_INTERVAL, MIN_INTERVAL, initiative,
};
use agentos_domain::time::{Span, Timestamp};

fn at(secs: i64) -> Timestamp {
    Timestamp::from_parts(secs, 0).expect("timestamp")
}

fn cadence(secs: u64) -> Cadence {
    Cadence::every(Span::from_secs(secs)).expect("cadence")
}

#[test]
fn a_cadence_cannot_be_faster_than_the_floor_or_slower_than_the_ceiling() {
    assert_eq!(
        Cadence::every(Span::from_secs(1)),
        Err(CadenceError::TooFast),
        "an operator typo must not cost money every second"
    );
    assert_eq!(
        Cadence::every(Span::from_secs(MIN_INTERVAL)).map(Cadence::interval),
        Ok(Span::from_secs(MIN_INTERVAL)),
        "the floor itself is allowed"
    );
    assert_eq!(
        Cadence::every(Span::from_secs(MAX_INTERVAL + 1)),
        Err(CadenceError::TooSlow),
        "a cadence must not be a disguised way to say never"
    );
    assert_eq!(
        Cadence::every(Span::from_parts(MAX_INTERVAL, 1).unwrap()),
        Err(CadenceError::TooSlow)
    );
    assert_eq!(
        Cadence::every(Span::from_parts(MIN_INTERVAL - 1, 999_999_999).unwrap()),
        Err(CadenceError::TooFast)
    );
    assert_eq!(CadenceError::TooFast.code(), "cadence_too_fast");
    assert_eq!(CadenceError::TooSlow.code(), "cadence_too_slow");
}

#[test]
fn only_an_active_employee_may_act_on_its_own() {
    let past = at(0);
    let now = at(1_000);
    for barred in [
        Lifecycle::Draft,
        Lifecycle::Suspended,
        Lifecycle::Terminated,
    ] {
        assert_eq!(
            initiative(barred, past, now),
            Initiative::Barred { lifecycle: barred },
            "{barred:?} must never be due"
        );
    }
    assert_eq!(initiative(Lifecycle::Active, past, now), Initiative::Due);
    assert_eq!(Initiative::Due.code(), "due");
    assert_eq!(Initiative::NotYet { at: past }.code(), "not_yet");
}

#[test]
fn a_deadline_in_the_future_is_not_yet_and_the_exact_instant_is_due() {
    let now = at(1_000);
    assert_eq!(
        initiative(Lifecycle::Active, at(1_001), now),
        Initiative::NotYet { at: at(1_001) }
    );
    assert_eq!(
        initiative(Lifecycle::Active, now, now),
        Initiative::Due,
        "the boundary is inclusive; a deadline that has arrived has arrived"
    );
}

#[test]
fn a_missed_slot_is_missed_rather_than_owed() {
    let hourly = cadence(3_600);
    let finally_taken_up_at = at(7 * 24 * 3_600);

    let next = hourly.advance(finally_taken_up_at, Span::from_secs(0));

    assert_eq!(next, at(7 * 24 * 3_600 + 3_600));
    assert!(
        next > finally_taken_up_at,
        "a backlog would put the next deadline in the past and spin"
    );
    assert_eq!(
        initiative(Lifecycle::Active, next, finally_taken_up_at),
        Initiative::NotYet { at: next },
        "and the employee is immediately not-due, rather than owing 168 turns"
    );
}

#[test]
fn jitter_separates_employees_that_would_otherwise_share_a_schedule() {
    let hourly = cadence(3_600);
    let created = at(0);

    let deadlines: Vec<_> = (0..10)
        .map(|i| hourly.advance(created, Span::from_secs(i * 17)))
        .collect();

    let mut unique = deadlines.clone();
    unique.sort_unstable();
    unique.dedup();
    assert_eq!(unique.len(), deadlines.len(), "all ten must differ");
    assert!(
        deadlines.iter().all(|d| *d >= at(3_600)),
        "jitter only ever delays; it must never pull a turn earlier than the cadence"
    );
}

#[test]
fn advancing_past_the_end_of_time_saturates_instead_of_panicking() {
    assert_eq!(
        cadence(3_600).advance(Timestamp::max(), Span::from_secs(0)),
        Timestamp::max()
    );
    assert_eq!(
        cadence(3_600).advance(at(0), Span::from_parts(u64::MAX, 999_999_999).unwrap()),
        Timestamp::max()
    );
    assert_eq!(
        cadence(3_600).advance(at(0), Span::from_secs(u64::MAX)),
        Timestamp::max()
    );
    assert_eq!(
        cadence(3_600).advance(at(0), Span::from_secs(17)),
        at(3_617)
    );
}
