//! Instants and spans of time.
//!
//! Nothing here reads a clock: every instant is handed in.
use chrono::{DateTime, TimeDelta, Utc};
use vstd::prelude::*;

verus! {

/// The first second of the calendar, counted from the Unix epoch.
pub const MIN_SECS: i64 = -8334601228800;

/// The last second of the calendar, counted from the Unix epoch.
pub const MAX_SECS: i64 = 8210266876799;

/// Nanoseconds in a second.
pub const NANOS_PER_SEC: u32 = 1_000_000_000;

/// The longest span that can be added to an instant: 2^63 - 1 milliseconds,
/// in whole seconds.
pub const MAX_STEP_SECS: i64 = 9223372036854775;

/// What is left of the longest span beyond its whole seconds.
pub const MAX_STEP_NANOS: u32 = 807_000_000;

/// Seconds since the Unix epoch and nanoseconds within the second name an
/// instant of the calendar. A leap second shares the number of the second
/// before it and counts its nanoseconds from one billion on.
pub open spec fn is_instant(secs: int, nanos: int) -> bool {
    &&& MIN_SECS <= secs <= MAX_SECS
    &&& 0 <= nanos
    &&& nanos < NANOS_PER_SEC || (secs % 60 == 59 && nanos < 2 * NANOS_PER_SEC)
}

/// The instant a step after another, before the calendar's end is looked at.
/// A step that leaves a leap second drops it first.
pub open spec fn instant_plus(secs: int, nanos: int, step_secs: int, step_nanos: int) -> (int, int) {
    if nanos >= NANOS_PER_SEC && step_secs == 0 && nanos + step_nanos < 2 * NANOS_PER_SEC {
        (secs, nanos + step_nanos)
    } else {
        let n = (if nanos >= NANOS_PER_SEC {
            nanos - NANOS_PER_SEC
        } else {
            nanos
        }) + step_nanos;
        if n >= NANOS_PER_SEC {
            (secs + step_secs + 1, n - NANOS_PER_SEC)
        } else {
            (secs + step_secs, n)
        }
    }
}

/// The instant a span of so many nanoseconds after another; the last instant of
/// the calendar where there is none so late.
pub open spec fn instant_after(secs: int, nanos: int, length: nat) -> (int, int) {
    let step_secs = length as int / 1_000_000_000;
    let step_nanos = length as int % 1_000_000_000;
    let (s, n) = if step_secs > MAX_STEP_SECS || (step_secs == MAX_STEP_SECS && step_nanos
        > MAX_STEP_NANOS) {
        instant_plus(secs, nanos, MAX_STEP_SECS as int, 0)
    } else {
        instant_plus(secs, nanos, step_secs, step_nanos)
    };
    if s <= MAX_SECS {
        (s, n)
    } else {
        (MAX_SECS as int, NANOS_PER_SEC - 1)
    }
}

/// `chrono::DateTime::checked_add_signed` on UTC, over seconds and nanoseconds:
/// the sum of the instant and the step, and `None` where the sum lies past the
/// end of the calendar. A leap second is kept only by a step that stays within
/// it.
#[verifier::external_body]
fn chrono_add(secs: i64, nanos: u32, step_secs: i64, step_nanos: u32) -> (r: Option<(i64, u32)>)
    requires
        is_instant(secs as int, nanos as int),
        0 <= step_secs <= MAX_STEP_SECS,
        step_nanos < NANOS_PER_SEC,
        step_secs == MAX_STEP_SECS ==> step_nanos <= MAX_STEP_NANOS,
    ensures
        ({
            let (s, n) = instant_plus(
                secs as int,
                nanos as int,
                step_secs as int,
                step_nanos as int,
            );
            match r {
                Some(t) => s <= MAX_SECS && t.0 == s && t.1 == n,
                None => s > MAX_SECS,
            }
        }),
{
    let at = DateTime::<Utc>::from_timestamp(secs, nanos)?;
    let step = TimeDelta::new(step_secs, step_nanos)?;
    let sum = at.checked_add_signed(step)?;
    Some((sum.timestamp(), sum.timestamp_subsec_nanos()))
}

/// `chrono::TimeDelta::from_std`, over seconds and nanoseconds: the same span,
/// and `None` where it is longer than 2^63 - 1 milliseconds.
#[verifier::external_body]
fn chrono_step(secs: u64, nanos: u32) -> (r: Option<(i64, u32)>)
    requires
        nanos < NANOS_PER_SEC,
    ensures
        match r {
            Some(t) => t.0 == secs && t.1 == nanos && secs <= MAX_STEP_SECS && (secs
                == MAX_STEP_SECS ==> nanos <= MAX_STEP_NANOS),
            None => secs > MAX_STEP_SECS || (secs == MAX_STEP_SECS && nanos > MAX_STEP_NANOS),
        },
{
    let step = TimeDelta::from_std(core::time::Duration::new(secs, nanos)).ok()?;
    Some((step.num_seconds(), step.subsec_nanos() as u32))
}

/// An instant, to the nanosecond, in UTC.
#[derive(Debug, Clone, Copy, PartialEq, Eq, Structural, PartialOrd, Ord, Hash)]
pub struct Timestamp {
    secs: i64,
    nanos: u32,
}

impl Timestamp {
    #[verifier::type_invariant]
    spec fn on_the_calendar(self) -> bool {
        is_instant(self.secs as int, self.nanos as int)
    }

    /// Seconds since the Unix epoch.
    pub closed spec fn secs_spec(self) -> i64 {
        self.secs
    }

    /// Nanoseconds within the second.
    pub closed spec fn nanos_spec(self) -> u32 {
        self.nanos
    }

    /// What holds of every instant there is.
    pub open spec fn valid(self) -> bool {
        is_instant(self.secs() as int, self.nanos() as int)
    }

    /// `self` is strictly earlier than `other`.
    pub open spec fn before(self, other: Timestamp) -> bool {
        self.secs() < other.secs() || (self.secs() == other.secs() && self.nanos() < other.nanos())
    }

    /// An instant is its seconds and its nanoseconds.
    pub proof fn lemma_ext(a: Timestamp, b: Timestamp)
        ensures
            a.secs() == b.secs() && a.nanos() == b.nanos() ==> a == b,
    {
    }

    /// The instant so many seconds after the Unix epoch and so many
    /// nanoseconds into that second, where the calendar has it.
    pub fn from_parts(secs: i64, nanos: u32) -> (r: Option<Timestamp>)
        ensures
            match r {
                Some(t) => is_instant(secs as int, nanos as int) && t.secs() == secs && t.nanos()
                    == nanos,
                None => !is_instant(secs as int, nanos as int),
            },
    {
        if secs < MIN_SECS || secs > MAX_SECS {
            return None;
        }
        let ahead: u64 = (secs - MIN_SECS) as u64;
        assert(MIN_SECS as int % 60 == 0);
        assert(ahead as int % 60 == secs as int % 60);
        if nanos < NANOS_PER_SEC || (ahead % 60 == 59 && nanos < 2_000_000_000) {
            Some(Timestamp { secs, nanos })
        } else {
            None
        }
    }

    /// The last instant of the calendar, leap seconds aside.
    pub fn max() -> (r: Timestamp)
        ensures
            r.secs() == MAX_SECS,
            r.nanos() == NANOS_PER_SEC - 1,
    {
        Timestamp { secs: MAX_SECS, nanos: 999_999_999 }
    }

    /// Seconds since the Unix epoch.
    #[verifier::when_used_as_spec(secs_spec)]
    pub fn secs(self) -> (r: i64)
        ensures
            r == self.secs(),
            MIN_SECS <= r <= MAX_SECS,
    {
        proof {
            use_type_invariant(&self);
        }
        self.secs
    }

    /// Nanoseconds within the second.
    #[verifier::when_used_as_spec(nanos_spec)]
    pub fn nanos(self) -> (r: u32)
        ensures
            r == self.nanos(),
            r < 2 * NANOS_PER_SEC,
    {
        proof {
            use_type_invariant(&self);
        }
        self.nanos
    }

    /// Whether this instant is strictly earlier than `other`.
    pub fn is_before(self, other: Timestamp) -> (r: bool)
        ensures
            r == self.before(other),
    {
        self.secs < other.secs || (self.secs == other.secs && self.nanos < other.nanos)
    }

    /// The instant `step` later; the last instant of the calendar where there
    /// is none so late.
    pub fn saturating_plus(self, step: Span) -> (r: Timestamp)
        ensures
            (r.secs() as int, r.nanos() as int) == instant_after(
                self.secs() as int,
                self.nanos() as int,
                step.length(),
            ),
            self.valid(),
            r.valid(),
    {
        proof {
            use_type_invariant(&self);
            use_type_invariant(&step);
        }
        let (step_secs, step_nanos): (i64, u32) = match chrono_step(step.secs, step.nanos) {
            Some(t) => t,
            None => (MAX_STEP_SECS, 0),
        };
        match chrono_add(self.secs, self.nanos, step_secs, step_nanos) {
            Some((secs, nanos)) => Timestamp { secs, nanos },
            None => Timestamp::max(),
        }
    }
}

/// A span of time, never negative, to the nanosecond.
#[derive(Debug, Clone, Copy, PartialEq, Eq, Structural, PartialOrd, Ord, Hash)]
pub struct Span {
    secs: u64,
    nanos: u32,
}

impl Span {
    #[verifier::type_invariant]
    spec fn carried(self) -> bool {
        self.nanos < NANOS_PER_SEC
    }

    /// The whole seconds of the span.
    pub closed spec fn secs_spec(self) -> u64 {
        self.secs
    }

    /// What is left beyond the whole seconds, in nanoseconds.
    pub closed spec fn nanos_spec(self) -> u32 {
        self.nanos
    }

    /// The length of the span in nanoseconds.
    pub open spec fn length(self) -> nat {
        self.secs() as nat * 1_000_000_000 + self.nanos() as nat
    }

    /// The length of the longest span in nanoseconds.
    pub open spec fn longest() -> nat {
        u64::MAX as nat * 1_000_000_000 + 999_999_999
    }

    /// What holds of every span there is.
    pub open spec fn valid(self) -> bool {
        self.nanos() < NANOS_PER_SEC
    }

    /// The span of so many seconds and nanoseconds; `None` where the
    /// nanoseconds make a second or more.
    pub fn from_parts(secs: u64, nanos: u32) -> (r: Option<Span>)
        ensures
            match r {
                Some(d) => nanos < NANOS_PER_SEC && d.secs() == secs && d.nanos() == nanos,
                None => nanos >= NANOS_PER_SEC,
            },
    {
        if nanos < NANOS_PER_SEC {
            Some(Span { secs, nanos })
        } else {
            None
        }
    }

    /// The span of so many seconds.
    pub fn from_secs(secs: u64) -> (r: Span)
        ensures
            r.secs() == secs,
            r.nanos() == 0,
    {
        Span { secs, nanos: 0 }
    }

    /// The whole seconds of the span.
    #[verifier::when_used_as_spec(secs_spec)]
    pub fn secs(self) -> (r: u64)
        ensures
            r == self.secs(),
    {
        self.secs
    }

    /// What is left beyond the whole seconds, in nanoseconds.
    #[verifier::when_used_as_spec(nanos_spec)]
    pub fn nanos(self) -> (r: u32)
        ensures
            r == self.nanos(),
            r < NANOS_PER_SEC,
    {
        proof {
            use_type_invariant(&self);
        }
        self.nanos
    }

    /// Whether this span is strictly shorter than `other`.
    pub fn is_shorter(self, other: Span) -> (r: bool)
        ensures
            r == (self.length() < other.length()),
    {
        proof {
            use_type_invariant(&self);
            use_type_invariant(&other);
        }
        self.secs < other.secs || (self.secs == other.secs && self.nanos < other.nanos)
    }

    /// The sum of two spans; the longest span where the sum is longer.
    pub fn saturating_add(self, other: Span) -> (r: Span)
        ensures
            self.valid(),
            other.valid(),
            r.valid(),
            r.length() == if self.length() + other.length() <= Span::longest() {
                self.length() + other.length()
            } else {
                Span::longest()
            },
    {
        proof {
            use_type_invariant(&self);
            use_type_invariant(&other);
        }
        let longest = Span { secs: u64::MAX, nanos: 999_999_999 };
        assert(longest.length() == Span::longest());
        let mut nanos: u32 = self.nanos + other.nanos;
        match self.secs.checked_add(other.secs) {
            None => longest,
            Some(sum) => {
                let mut secs: u64 = sum;
                if nanos >= NANOS_PER_SEC {
                    if secs == u64::MAX {
                        return longest;
                    }
                    nanos = nanos - NANOS_PER_SEC;
                    secs = secs + 1;
                }
                Span { secs, nanos }
            },
        }
    }
}

/// An instant and a step come to the instant that lies so many nanoseconds later,
/// leap seconds aside; past the calendar's end it is the calendar's last instant.
pub proof fn law_a_step_adds_its_nanoseconds(secs: int, nanos: int, length: nat)
    requires
        is_instant(secs, nanos),
        nanos < NANOS_PER_SEC,
    ensures
        ({
            let (s, n) = instant_after(secs, nanos, length);
            &&& s < MAX_SECS ==> s * 1_000_000_000 + n == secs * 1_000_000_000 + nanos + length
            &&& 0 <= n < 1_000_000_000
            &&& s <= MAX_SECS
            &&& secs * 1_000_000_000 + nanos + length >= (MAX_SECS + 1) * 1_000_000_000 ==> (s, n)
                == (MAX_SECS as int, 999_999_999int)
        }),
{
}

/// A longer step leads no earlier.
pub proof fn law_a_longer_step_leads_no_earlier(
    secs: int,
    nanos: int,
    shorter: nat,
    longer: nat,
)
    requires
        is_instant(secs, nanos),
        nanos < NANOS_PER_SEC,
        shorter <= longer,
    ensures
        ({
            let (a, b) = instant_after(secs, nanos, shorter);
            let (c, d) = instant_after(secs, nanos, longer);
            a * 1_000_000_000 + b <= c * 1_000_000_000 + d
        }),
{
}

} // verus!
