//! When an employee is allowed to act on its own.
//!
//! One question, answered purely: may this employee start a turn of its own
//! right now? What it should do then, and whether it can afford to, are decided
//! elsewhere.
use crate::employee::Lifecycle;
use crate::time;
use crate::time::{Span, Timestamp};
use vstd::prelude::*;
use vstd::string::*;

verus! {

/// Nothing is allowed to act more often than this, in seconds, whatever an
/// operator asks for.
pub const MIN_INTERVAL: u64 = 300;

/// The ceiling in seconds, thirty days, so that a cadence cannot silently mean
/// "never".
pub const MAX_INTERVAL: u64 = 30 * 24 * 3600;

/// Why a cadence was refused.
#[derive(Debug, Clone, Copy, PartialEq, Eq, Structural)]
pub enum CadenceError {
    /// Below [`MIN_INTERVAL`].
    TooFast,
    /// Above [`MAX_INTERVAL`].
    TooSlow,
}

impl CadenceError {
    /// The metric label of an error.
    pub open spec fn label(self) -> Seq<char> {
        match self {
            CadenceError::TooFast => "cadence_too_fast"@,
            CadenceError::TooSlow => "cadence_too_slow"@,
        }
    }

    /// Stable, low-cardinality metric label.
    pub fn code(self) -> (r: &'static str)
        ensures
            r@ == self.label(),
    {
        match self {
            CadenceError::TooFast => "cadence_too_fast",
            CadenceError::TooSlow => "cadence_too_slow",
        }
    }
}

/// How often an employee wakes up to work on its own objective.
#[derive(Debug, Clone, Copy, PartialEq, Eq, Structural)]
pub struct Cadence {
    interval: Span,
}

impl Cadence {
    #[verifier::type_invariant]
    spec fn bounded(self) -> bool {
        Cadence::fault(self.interval.length()) is None
    }

    /// What keeps an interval of so many nanoseconds from being a cadence.
    pub open spec fn fault(length: nat) -> Option<CadenceError> {
        if length < MIN_INTERVAL * 1_000_000_000 {
            Some(CadenceError::TooFast)
        } else if length > MAX_INTERVAL * 1_000_000_000 {
            Some(CadenceError::TooSlow)
        } else {
            None
        }
    }

    /// The interval itself.
    pub closed spec fn interval_spec(self) -> Span {
        self.interval
    }

    /// A cadence, or the reason this one is not allowed.
    pub fn every(interval: Span) -> (r: Result<Cadence, CadenceError>)
        ensures
            match r {
                Ok(c) => Cadence::fault(interval.length()) is None && c.interval() == interval,
                Err(e) => Cadence::fault(interval.length()) == Some(e),
            },
    {
        let floor = Span::from_secs(MIN_INTERVAL);
        let ceiling = Span::from_secs(MAX_INTERVAL);
        assert(floor.length() == MIN_INTERVAL * 1_000_000_000);
        assert(ceiling.length() == MAX_INTERVAL * 1_000_000_000);
        if interval.is_shorter(floor) {
            return Err(CadenceError::TooFast);
        }
        if ceiling.is_shorter(interval) {
            return Err(CadenceError::TooSlow);
        }
        Ok(Cadence { interval })
    }

    /// The interval itself.
    #[verifier::when_used_as_spec(interval_spec)]
    pub fn interval(self) -> (r: Span)
        ensures
            r == self.interval(),
            Cadence::fault(r.length()) is None,
    {
        proof {
            use_type_invariant(&self);
        }
        self.interval
    }

    /// The next deadline, measured from `from`, the instant the turn was taken
    /// up, and never from the deadline that was missed. `offset` spreads
    /// employees that would otherwise share a schedule.
    ///
    /// Saturates: past the end of the calendar it is the calendar's last
    /// instant. Up to that end the deadline lies after `from`, and by a cadence
    /// at least.
    pub fn advance(self, from: Timestamp, offset: Span) -> (r: Timestamp)
        ensures
            (r.secs() as int, r.nanos() as int) == time::instant_after(
                from.secs() as int,
                from.nanos() as int,
                self.interval().length() + offset.length(),
            ),
            from.secs() < time::MAX_SECS ==> from.before(r),
            r.secs() < time::MAX_SECS ==> r.secs() - from.secs() >= self.interval().secs(),
    {
        proof {
            use_type_invariant(&self);
        }
        from.saturating_plus(self.interval.saturating_add(offset))
    }
}

/// What the scheduler should do with one employee.
#[derive(Debug, Clone, Copy, PartialEq, Eq, Structural)]
pub enum Initiative {
    /// Start a turn.
    Due,
    /// Not yet; this is when.
    NotYet {
        /// The stored deadline, unchanged.
        at: Timestamp,
    },
    /// This employee may not act at all, whatever the clock says.
    Barred {
        /// The lifecycle that barred it.
        lifecycle: Lifecycle,
    },
}

impl Initiative {
    /// The metric label of an initiative.
    pub open spec fn label(self) -> Seq<char> {
        match self {
            Initiative::Due => "due"@,
            Initiative::NotYet { .. } => "not_yet"@,
            Initiative::Barred { .. } => "barred"@,
        }
    }

    /// Stable, low-cardinality metric label.
    pub fn code(self) -> (r: &'static str)
        ensures
            r@ == self.label(),
    {
        match self {
            Initiative::Due => "due",
            Initiative::NotYet { .. } => "not_yet",
            Initiative::Barred { .. } => "barred",
        }
    }
}

/// What [`initiative`] answers. The lifecycle is asked first, so a terminated
/// employee whose deadline has passed is barred and not due.
pub open spec fn may_start(lifecycle: Lifecycle, next_at: Timestamp, now: Timestamp) -> Initiative {
    if !(lifecycle is Active) {
        Initiative::Barred { lifecycle }
    } else if now.before(next_at) {
        Initiative::NotYet { at: next_at }
    } else {
        Initiative::Due
    }
}

/// May this employee start a turn of its own? The lifecycle is asked first and
/// separately from the clock; a deadline that has arrived has arrived.
pub fn initiative(lifecycle: Lifecycle, next_at: Timestamp, now: Timestamp) -> (r: Initiative)
    ensures
        r == may_start(lifecycle, next_at, now),
{
    if lifecycle != Lifecycle::Active {
        return Initiative::Barred { lifecycle };
    }
    if now.is_before(next_at) {
        return Initiative::NotYet { at: next_at };
    }
    Initiative::Due
}

/// A missed slot is missed rather than owed: an employee whose deadline was set
/// when its turn was taken up is not due at that instant, however many deadlines
/// went by before.
pub proof fn law_a_missed_slot_is_not_owed(
    cadence: Cadence,
    taken_up: Timestamp,
    offset: Span,
    next_at: Timestamp,
)
    requires
        taken_up.valid(),
        taken_up.secs() < time::MAX_SECS,
        Cadence::fault(cadence.interval().length()) is None,
        (next_at.secs() as int, next_at.nanos() as int) == time::instant_after(
            taken_up.secs() as int,
            taken_up.nanos() as int,
            cadence.interval().length() + offset.length(),
        ),
    ensures
        may_start(Lifecycle::Active, next_at, taken_up) == (Initiative::NotYet { at: next_at }),
{
}

/// Offsets spread a shared schedule: of two employees taken up at one instant
/// with one cadence, the one with the longer offset has the later deadline, as
/// long as both deadlines lie before the calendar's last second.
pub proof fn law_offsets_spread_deadlines(
    cadence: Cadence,
    taken_up: Timestamp,
    shorter: Span,
    longer: Span,
    first: Timestamp,
    second: Timestamp,
)
    requires
        taken_up.valid(),
        Cadence::fault(cadence.interval().length()) is None,
        shorter.length() < longer.length(),
        (first.secs() as int, first.nanos() as int) == time::instant_after(
            taken_up.secs() as int,
            taken_up.nanos() as int,
            cadence.interval().length() + shorter.length(),
        ),
        (second.secs() as int, second.nanos() as int) == time::instant_after(
            taken_up.secs() as int,
            taken_up.nanos() as int,
            cadence.interval().length() + longer.length(),
        ),
        first.secs() < time::MAX_SECS,
        second.secs() < time::MAX_SECS,
    ensures
        first.before(second),
{
}

/// Only an active employee is ever due.
pub proof fn law_only_the_active_are_due(
    lifecycle: Lifecycle,
    next_at: Timestamp,
    now: Timestamp,
)
    ensures
        may_start(lifecycle, next_at, now) is Due ==> lifecycle is Active,
        may_start(lifecycle, next_at, now) is Barred <==> !(lifecycle is Active),
{
}

/// A turn is due exactly where the employee is active and its deadline is not after
/// now; before that the deadline is told, and whoever is not active is told by which
/// lifecycle it is barred.
pub proof fn law_a_turn_is_due_from_its_deadline_on(
    lifecycle: Lifecycle,
    next_at: Timestamp,
    now: Timestamp,
)
    ensures
        ({
            let arrived = next_at.secs() < now.secs() || (next_at.secs() == now.secs()
                && next_at.nanos() <= now.nanos());
            &&& may_start(lifecycle, next_at, now) is Due <==> lifecycle is Active && arrived
            &&& may_start(lifecycle, next_at, now) == (Initiative::NotYet { at: next_at })
                <==> lifecycle is Active && !arrived
            &&& may_start(lifecycle, next_at, now) == (Initiative::Barred { lifecycle })
                <==> !(lifecycle is Active)
        }),
{
}

/// A cadence is from five minutes to thirty days long, both included.
pub proof fn law_a_cadence_is_from_minutes_to_a_month(length: nat)
    ensures
        Cadence::fault(length) is None <==> 5 * 60 * 1_000_000_000 <= length <= 30 * 24 * 60 * 60
            * 1_000_000_000,
        length < 5 * 60 * 1_000_000_000 <==> Cadence::fault(length) == Some(CadenceError::TooFast),
        length > 30 * 24 * 60 * 60 * 1_000_000_000 <==> Cadence::fault(length) == Some(
            CadenceError::TooSlow,
        ),
{
}

/// A deadline lies the cadence and the offset after the instant the turn was taken
/// up, to the nanosecond, up to the end of the calendar.
pub proof fn law_a_deadline_is_a_cadence_and_an_offset_away(
    cadence: Cadence,
    taken_up: Timestamp,
    offset: Span,
    next_at: Timestamp,
)
    requires
        taken_up.valid(),
        taken_up.nanos() < 1_000_000_000,
        next_at.secs() < time::MAX_SECS,
        (next_at.secs() as int, next_at.nanos() as int) == time::instant_after(
            taken_up.secs() as int,
            taken_up.nanos() as int,
            cadence.interval().length() + offset.length(),
        ),
    ensures
        next_at.secs() * 1_000_000_000 + next_at.nanos() == taken_up.secs() * 1_000_000_000
            + taken_up.nanos() + cadence.interval().length() + offset.length(),
{
}

} // verus!
