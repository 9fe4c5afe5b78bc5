//! What a counterparty actually does, as opposed to what it says it does.
//!
//! A belief is learned from its own surprise: the further an observation lies
//! from what was expected, the more it moves. This module keeps the state and
//! makes every decision about it: when there is a prediction at all, which rate
//! a surprise is learned at, what a refused observation leaves behind. The
//! numbers themselves are of a type `N` that it never looks into; the caller
//! computes them.
use crate::ids::Slug;
use crate::money::{Money, MoneyError};
use crate::ordered;
use crate::ordered::{OrdMap, Ordered};
use crate::text;
use crate::text::comes_before;
use crate::time::Timestamp;
use vstd::prelude::*;
use vstd::string::*;

verus! {

/// Observations required before judging reliability at all.
pub const MIN_OBSERVATIONS: u32 = 3;

/// What is being predicted about a counterparty: a plain scalar quantity, never
/// an amount of money.
#[derive(Debug, Clone, Copy, PartialEq, Eq, Structural, PartialOrd, Ord, Hash)]
pub enum Dimension {
    /// Days between order confirmation and goods actually available.
    LeadTimeDays,
    /// Signed basis points between the opening quote and the price finally
    /// agreed.
    PriceDeltaBps,
    /// Hours between our message and their reply.
    ResponseLatencyHours,
    /// Percent below the published minimum order that they have accepted.
    MoqFlexibilityPct,
    /// Percent of a shipment rejected at incoming inspection.
    DefectRatePct,
}

impl Dimension {
    /// Every dimension.
    pub const ALL: [Dimension; 5] = [
        Dimension::LeadTimeDays,
        Dimension::PriceDeltaBps,
        Dimension::ResponseLatencyHours,
        Dimension::MoqFlexibilityPct,
        Dimension::DefectRatePct,
    ];

    /// The place of a dimension in [`Dimension::ALL`].
    pub open spec fn rank(self) -> nat {
        match self {
            Dimension::LeadTimeDays => 0,
            Dimension::PriceDeltaBps => 1,
            Dimension::ResponseLatencyHours => 2,
            Dimension::MoqFlexibilityPct => 3,
            Dimension::DefectRatePct => 4,
        }
    }

    /// One notable unit of a dimension.
    pub open spec fn notable(self) -> u32 {
        match self {
            Dimension::LeadTimeDays => 3,
            Dimension::PriceDeltaBps => 200,
            Dimension::ResponseLatencyHours => 4,
            Dimension::MoqFlexibilityPct => 10,
            Dimension::DefectRatePct => 1,
        }
    }

    /// The name of a dimension's unit.
    pub open spec fn unit_name(self) -> Seq<char> {
        match self {
            Dimension::LeadTimeDays => "days"@,
            Dimension::PriceDeltaBps => "bps"@,
            Dimension::ResponseLatencyHours => "hours"@,
            Dimension::MoqFlexibilityPct => "%"@,
            Dimension::DefectRatePct => "%"@,
        }
    }

    /// One notable unit of this dimension: the deviation a buyer would actually
    /// remark on.
    pub fn scale(self) -> (r: u32)
        ensures
            r == self.notable(),
            r > 0,
    {
        match self {
            Dimension::LeadTimeDays => 3,
            Dimension::PriceDeltaBps => 200,
            Dimension::ResponseLatencyHours => 4,
            Dimension::MoqFlexibilityPct => 10,
            Dimension::DefectRatePct => 1,
        }
    }

    /// Human-readable unit.
    pub fn unit(self) -> (r: &'static str)
        ensures
            r@ == self.unit_name(),
    {
        match self {
            Dimension::LeadTimeDays => "days",
            Dimension::PriceDeltaBps => "bps",
            Dimension::ResponseLatencyHours => "hours",
            Dimension::MoqFlexibilityPct | Dimension::DefectRatePct => "%",
        }
    }

    fn place(self) -> (r: u8)
        ensures
            r == self.rank(),
    {
        match self {
            Dimension::LeadTimeDays => 0,
            Dimension::PriceDeltaBps => 1,
            Dimension::ResponseLatencyHours => 2,
            Dimension::MoqFlexibilityPct => 3,
            Dimension::DefectRatePct => 4,
        }
    }
}

// ---------------------------------------------------------------------------
// What can be wrong with a number
// ---------------------------------------------------------------------------

/// What a number is, as far as it matters here.
#[derive(Debug, Clone, Copy, PartialEq, Eq, Structural)]
pub enum Size {
    /// A number that may be learned from.
    Sound,
    /// Not a number, or infinite.
    NotFinite,
    /// Finite but absurd: almost certainly a mix-up of units.
    TooLarge,
}

/// Everything that can be wrong with an observation or a stored expectation.
#[derive(Debug, Clone, PartialEq, Eq)]
pub enum ExpectationError<N> {
    /// One of these inside the state would poison every future update.
    NotFinite,
    /// Finite but absurd.
    OutOfRange(N),
    /// Persisted state that no series of observations leads to.
    Corrupt,
}

/// What is wrong with a number of this size.
pub open spec fn size_fault<N>(value: N, size: Size) -> Option<ExpectationError<N>> {
    match size {
        Size::Sound => None,
        Size::NotFinite => Some(ExpectationError::NotFinite),
        Size::TooLarge => Some(ExpectationError::OutOfRange(value)),
    }
}

/// Reject anything that would poison the running statistics.
pub fn check<N>(value: N, size: Size) -> (r: Result<(), ExpectationError<N>>)
    ensures
        match r {
            Ok(()) => size_fault(value, size) is None,
            Err(e) => size_fault(value, size) == Some(e),
        },
{
    match size {
        Size::Sound => Ok(()),
        Size::NotFinite => Err(ExpectationError::NotFinite),
        Size::TooLarge => Err(ExpectationError::OutOfRange(value)),
    }
}

// ---------------------------------------------------------------------------
// One belief
// ---------------------------------------------------------------------------

/// How predictable a counterparty is on one dimension.
#[derive(Debug, Clone, Copy, PartialEq, Eq, Structural, PartialOrd, Ord, Hash)]
pub enum Reliability {
    /// Fewer than [`MIN_OBSERVATIONS`].
    Unknown,
    /// Tight spread: whatever they do, they do it every time.
    Predictable,
    /// Wide spread: the mean is not a plan.
    Erratic,
}

/// The running numbers of a belief.
#[derive(Debug, Clone, Copy, PartialEq, Eq)]
pub struct Figures<N> {
    /// What the next observation is predicted to be.
    pub expected: N,
    /// The mean of the observations.
    pub mean: N,
    /// The sum of squared deviations from the mean.
    pub m2: N,
    /// How long and how far the misses have pointed up.
    pub drift_up: N,
    /// How long and how far the misses have pointed down.
    pub drift_down: N,
}

/// The numbers that one observation leads to, computed from the figures before
/// it.
#[derive(Debug, Clone, Copy, PartialEq, Eq)]
pub struct Reading<N> {
    /// The value just observed.
    pub observed: N,
    /// What kind of number that is.
    pub size: Size,
    /// How far it lies from what was expected.
    pub miss: N,
    /// How salient a miss of that size is.
    pub salience: N,
    /// No miss at all.
    pub nothing: N,
    /// The salience of something entirely new.
    pub whole: N,
    /// The upward drift after it.
    pub drift_up: N,
    /// The downward drift after it.
    pub drift_down: N,
    /// The upward drift has reached its threshold.
    pub drifts_up: bool,
    /// The downward drift has reached its threshold.
    pub drifts_down: bool,
    /// The mean after it.
    pub mean: N,
    /// The sum of squared deviations after it.
    pub m2: N,
    /// What is expected when the miss is learned at the full rate.
    pub learned: N,
    /// What is expected when the rate is weighted by precision.
    pub learned_by_precision: N,
}

/// What one observation told us, measured before the belief was updated.
#[derive(Debug, Clone, Copy, PartialEq, Eq)]
pub struct PredictionError<N> {
    /// The value just observed.
    pub observed: N,
    /// What we expected before seeing it.
    pub expected_before: N,
    /// How far it lies from that.
    pub surprise: N,
    /// Several misses that point the same way say that this counterparty is
    /// moving rather than merely being noisy.
    pub regime_change: bool,
    /// How salient the observation is.
    pub weight: N,
    /// Nothing was known: no prior observation and no stated claim.
    pub first_contact: bool,
}

/// An [`Expectation`] as a mathematical value.
pub struct Known<N> {
    pub dimension: Dimension,
    pub figures: Figures<N>,
    pub n: u32,
    pub claimed: Option<N>,
    pub first_observed_at: Option<Timestamp>,
    pub last_observed_at: Option<Timestamp>,
}

impl<N> Known<N> {
    /// Nothing is known.
    pub open spec fn blank(dimension: Dimension, zero: N) -> Known<N> {
        Known {
            dimension,
            figures: Figures {
                expected: zero,
                mean: zero,
                m2: zero,
                drift_up: zero,
                drift_down: zero,
            },
            n: 0,
            claimed: None,
            first_observed_at: None,
            last_observed_at: None,
        }
    }

    /// Nothing is known to compare an observation with.
    pub open spec fn is_first_contact(self) -> bool {
        self.n == 0 && self.claimed is None
    }

    /// The counterparty is moving.
    pub open spec fn is_drifting(self, reading: Reading<N>) -> bool {
        !self.is_first_contact() && (reading.drifts_up || reading.drifts_down)
    }

    /// What an observation tells us.
    pub open spec fn told(self, reading: Reading<N>) -> PredictionError<N> {
        PredictionError {
            observed: reading.observed,
            expected_before: self.figures.expected,
            surprise: if self.is_first_contact() {
                reading.nothing
            } else {
                reading.miss
            },
            regime_change: self.is_drifting(reading),
            weight: if self.is_first_contact() {
                reading.whole
            } else {
                reading.salience
            },
            first_contact: self.is_first_contact(),
        }
    }

    /// What is expected after an observation: a first contact is adopted whole;
    /// a miss is learned at the full rate while the counterparty is moving, or
    /// while there is no spread to weigh it by; otherwise by precision.
    pub open spec fn relearned(self, reading: Reading<N>) -> N {
        if self.is_first_contact() {
            reading.observed
        } else if self.is_drifting(reading) || self.n < 2 {
            reading.learned
        } else {
            reading.learned_by_precision
        }
    }

    /// The belief after an observation.
    pub open spec fn after(self, reading: Reading<N>, now: Timestamp) -> Known<N> {
        Known {
            figures: Figures {
                expected: self.relearned(reading),
                mean: reading.mean,
                m2: reading.m2,
                drift_up: reading.drift_up,
                drift_down: reading.drift_down,
            },
            n: (self.n + 1) as u32,
            first_observed_at: if self.first_observed_at is None {
                Some(now)
            } else {
                self.first_observed_at
            },
            last_observed_at: Some(now),
            ..self
        }
    }

    /// The belief after a claim: only an untouched belief takes the claim as
    /// its expectation.
    pub open spec fn after_claim(self, claimed: N) -> Known<N> {
        Known {
            claimed: Some(claimed),
            figures: if self.n == 0 {
                Figures { expected: claimed, ..self.figures }
            } else {
                self.figures
            },
            ..self
        }
    }

    /// The belief after a series of observations.
    pub open spec fn after_all(self, series: Seq<(Reading<N>, Timestamp)>) -> Known<N>
        decreases series.len(),
    {
        if series.len() == 0 {
            self
        } else {
            self.after_all(series.drop_last()).after(series.last().0, series.last().1)
        }
    }

    /// What the next observation is predicted to be, if anything.
    pub open spec fn prediction(self) -> Option<N> {
        if self.is_first_contact() {
            None
        } else {
            Some(self.figures.expected)
        }
    }

    /// The mean of the observations, if there are any.
    pub open spec fn average(self) -> Option<N> {
        if self.n > 0 {
            Some(self.figures.mean)
        } else {
            None
        }
    }

    /// The sum of squared deviations and what it is divided by, if there is a
    /// spread.
    pub open spec fn spread(self) -> Option<(N, u32)> {
        if self.n >= 2 {
            Some((self.figures.m2, self.n))
        } else {
            None
        }
    }

    /// What is expected and what was claimed, if there are both.
    pub open spec fn gap(self) -> Option<(N, N)> {
        match self.claimed {
            Some(claimed) => if self.n > 0 {
                Some((self.figures.expected, claimed))
            } else {
                None
            },
            None => None,
        }
    }

    /// How predictable the counterparty is, given whether the spread is tight.
    pub open spec fn reliability(self, tight: bool) -> Reliability {
        if self.n < MIN_OBSERVATIONS {
            Reliability::Unknown
        } else if tight {
            Reliability::Predictable
        } else {
            Reliability::Erratic
        }
    }
}

/// A learned belief about one counterparty on one dimension.
#[derive(Debug, Clone, Copy, PartialEq, Eq)]
pub struct Expectation<N> {
    dimension: Dimension,
    figures: Figures<N>,
    n: u32,
    claimed: Option<N>,
    first_observed_at: Option<Timestamp>,
    last_observed_at: Option<Timestamp>,
}

impl<N> View for Expectation<N> {
    type V = Known<N>;

    closed spec fn view(&self) -> Known<N> {
        Known {
            dimension: self.dimension,
            figures: self.figures,
            n: self.n,
            claimed: self.claimed,
            first_observed_at: self.first_observed_at,
            last_observed_at: self.last_observed_at,
        }
    }
}

/// What a stored belief was found to be.
#[derive(Debug, Clone, Copy, PartialEq, Eq, Structural)]
pub struct StoredState {
    /// The expectation, the mean and the sum of squares are finite.
    pub figures_finite: bool,
    /// The claim is finite.
    pub claim_finite: bool,
    /// The sum of squares is below zero.
    pub m2_negative: bool,
    /// The sum of squares is zero.
    pub m2_zero: bool,
    /// Both drifts are finite and not below zero.
    pub drifts_sound: bool,
}

/// What is wrong with a stored belief of `n` observations.
pub open spec fn stored_fault<N>(
    state: StoredState,
    n: u32,
    claimed: Option<N>,
) -> Option<ExpectationError<N>> {
    if !state.figures_finite || (claimed is Some && !state.claim_finite) {
        Some(ExpectationError::NotFinite)
    } else if state.m2_negative || (n < 2 && !state.m2_zero) || !state.drifts_sound {
        Some(ExpectationError::Corrupt)
    } else {
        None
    }
}

impl<N: Copy> Expectation<N> {
    /// A belief about a counterparty we know nothing about. The first
    /// observation is adopted rather than averaged against a made-up prior.
    pub fn new(dimension: Dimension, zero: N) -> (r: Expectation<N>)
        ensures
            r@ == Known::blank(dimension, zero),
    {
        Expectation {
            dimension,
            figures: Figures {
                expected: zero,
                mean: zero,
                m2: zero,
                drift_up: zero,
                drift_down: zero,
            },
            n: 0,
            claimed: None,
            first_observed_at: None,
            last_observed_at: None,
        }
    }

    /// A belief seeded with what the counterparty claims, so that the first
    /// observation against it is a prediction error.
    pub fn with_claim(dimension: Dimension, claimed: N, size: Size, zero: N) -> (r: Result<
        Expectation<N>,
        ExpectationError<N>,
    >)
        ensures
            match r {
                Ok(e) => size_fault(claimed, size) is None && e@ == Known::blank(
                    dimension,
                    zero,
                ).after_claim(claimed),
                Err(e) => size_fault(claimed, size) == Some(e),
            },
    {
        let mut r = Expectation::new(dimension, zero);
        match r.record_claim(claimed, size) {
            Ok(()) => Ok(r),
            Err(e) => Err(e),
        }
    }

    /// Rebuild a stored belief, unless it is one that no series of observations
    /// leads to.
    pub fn restore(
        dimension: Dimension,
        figures: Figures<N>,
        n: u32,
        claimed: Option<N>,
        first_observed_at: Option<Timestamp>,
        last_observed_at: Option<Timestamp>,
        state: StoredState,
    ) -> (r: Result<Expectation<N>, ExpectationError<N>>)
        ensures
            match r {
                Ok(e) => stored_fault(state, n, claimed) is None && e@ == (Known {
                    dimension,
                    figures,
                    n,
                    claimed,
                    first_observed_at,
                    last_observed_at,
                }),
                Err(e) => stored_fault(state, n, claimed) == Some(e),
            },
    {
        if !state.figures_finite {
            return Err(ExpectationError::NotFinite);
        }
        if claimed.is_some() && !state.claim_finite {
            return Err(ExpectationError::NotFinite);
        }
        if state.m2_negative || (n < 2 && !state.m2_zero) {
            return Err(ExpectationError::Corrupt);
        }
        if !state.drifts_sound {
            return Err(ExpectationError::Corrupt);
        }
        Ok(
            Expectation {
                dimension,
                figures,
                n,
                claimed,
                first_observed_at,
                last_observed_at,
            },
        )
    }

    /// Record what the counterparty now claims, without disturbing anything
    /// learned.
    pub fn record_claim(&mut self, claimed: N, size: Size) -> (r: Result<(), ExpectationError<N>>)
        ensures
            match r {
                Ok(()) => size_fault(claimed, size) is None && final(self)@ == old(
                    self,
                )@.after_claim(claimed),
                Err(e) => size_fault(claimed, size) == Some(e) && final(self)@ == old(self)@,
            },
    {
        check(claimed, size)?;
        self.claimed = Some(claimed);
        if self.n == 0 {
            self.figures.expected = claimed;
        }
        Ok(())
    }

    /// Whether nothing is known to compare an observation with: there is no
    /// observation and no claim.
    pub fn is_first_contact(&self) -> (r: bool)
        ensures
            r == self@.is_first_contact(),
    {
        self.n == 0 && self.claimed.is_none()
    }

    /// Fold in one observation and return what it told us. A refused
    /// observation changes nothing.
    pub fn observe(&mut self, reading: Reading<N>, now: Timestamp) -> (r: Result<
        PredictionError<N>,
        ExpectationError<N>,
    >)
        requires
            old(self)@.n < u32::MAX,
        ensures
            match r {
                Ok(told) => {
                    &&& size_fault(reading.observed, reading.size) is None
                    &&& told == old(self)@.told(reading)
                    &&& final(self)@ == old(self)@.after(reading, now)
                },
                Err(e) => {
                    &&& size_fault(reading.observed, reading.size) == Some(e)
                    &&& final(self)@ == old(self)@
                },
            },
    {
        check(reading.observed, reading.size)?;
        let first_contact = self.is_first_contact();
        let expected_before = self.figures.expected;
        let surprise = if first_contact {
            reading.nothing
        } else {
            reading.miss
        };
        let weight = if first_contact {
            reading.whole
        } else {
            reading.salience
        };
        let drifting = !first_contact && (reading.drifts_up || reading.drifts_down);
        let expected = if first_contact {
            reading.observed
        } else if drifting || self.n < 2 {
            reading.learned
        } else {
            reading.learned_by_precision
        };
        self.n = self.n + 1;
        self.figures = Figures {
            expected,
            mean: reading.mean,
            m2: reading.m2,
            drift_up: reading.drift_up,
            drift_down: reading.drift_down,
        };
        if self.first_observed_at.is_none() {
            self.first_observed_at = Some(now);
        }
        self.last_observed_at = Some(now);
        Ok(
            PredictionError {
                observed: reading.observed,
                expected_before,
                surprise,
                regime_change: drifting,
                weight,
                first_contact,
            },
        )
    }

    /// What the next interaction is predicted to bring. `None` until something
    /// is known.
    pub fn expected(&self) -> (r: Option<N>)
        ensures
            r == self@.prediction(),
            r == if self@.is_first_contact() {
                None
            } else {
                Some(self@.figures.expected)
            },
    {
        if self.is_first_contact() {
            None
        } else {
            Some(self.figures.expected)
        }
    }

    /// What an observation would be compared with, without recording it.
    pub fn surprise_of(&self, observed: N, size: Size) -> (r: Result<
        Option<N>,
        ExpectationError<N>,
    >)
        ensures
            match r {
                Ok(expected) => size_fault(observed, size) is None && expected
                    == self@.prediction() && expected == if self@.is_first_contact() {
                    None
                } else {
                    Some(self@.figures.expected)
                },
                Err(e) => size_fault(observed, size) == Some(e),
            },
    {
        check(observed, size)?;
        Ok(self.expected())
    }

    /// Arithmetic mean of the observations. `None` before the first one.
    pub fn mean(&self) -> (r: Option<N>)
        ensures
            r == self@.average(),
            r == if self@.n > 0 {
                Some(self@.figures.mean)
            } else {
                None
            },
    {
        if self.n > 0 {
            Some(self.figures.mean)
        } else {
            None
        }
    }

    /// The sum of squared deviations and the number of observations that the
    /// variance is their quotient of. `None` below two observations: one
    /// datapoint has no spread.
    pub fn variance(&self) -> (r: Option<(N, u32)>)
        ensures
            r == self@.spread(),
            r == if self@.n >= 2 {
                Some((self@.figures.m2, self@.n))
            } else {
                None
            },
    {
        if self.n >= 2 {
            Some((self.figures.m2, self.n))
        } else {
            None
        }
    }

    /// Consistently late versus randomly late, given whether the spread is
    /// tight.
    pub fn reliability(&self, tight: bool) -> (r: Reliability)
        ensures
            r == self@.reliability(tight),
    {
        if self.n < MIN_OBSERVATIONS {
            return Reliability::Unknown;
        }
        if tight {
            Reliability::Predictable
        } else {
            Reliability::Erratic
        }
    }

    /// Reality and the counterparty's own claim, to be held against each other.
    /// `None` if they never claimed anything, or we have never checked.
    pub fn claim_gap(&self) -> (r: Option<(N, N)>)
        ensures
            r == self@.gap(),
            r == match self@.claimed {
                Some(claimed) => if self@.n > 0 {
                    Some((self@.figures.expected, claimed))
                } else {
                    None
                },
                None => None,
            },
    {
        match self.claimed {
            Some(claimed) => if self.n > 0 {
                Some((self.figures.expected, claimed))
            } else {
                None
            },
            None => None,
        }
    }

    /// The running numbers.
    pub fn figures(&self) -> (r: Figures<N>)
        ensures
            r == self@.figures,
    {
        self.figures
    }

    /// What the counterparty states about itself, if anything.
    pub fn claimed(&self) -> (r: Option<N>)
        ensures
            r == self@.claimed,
    {
        self.claimed
    }

    /// Number of observations folded in.
    pub fn observations(&self) -> (r: u32)
        ensures
            r == self@.n,
    {
        self.n
    }

    /// The dimension this belief is about.
    pub fn dimension(&self) -> (r: Dimension)
        ensures
            r == self@.dimension,
    {
        self.dimension
    }

    /// When this belief was first touched.
    pub fn first_observed_at(&self) -> (r: Option<Timestamp>)
        ensures
            r == self@.first_observed_at,
    {
        self.first_observed_at
    }

    /// When this belief was last touched.
    pub fn last_observed_at(&self) -> (r: Option<Timestamp>)
        ensures
            r == self@.last_observed_at,
    {
        self.last_observed_at
    }
}

// ---------------------------------------------------------------------------
// Money
// ---------------------------------------------------------------------------

/// Signed basis points between an opening quote and the price finally agreed,
/// as a quotient of whole numbers.
#[derive(Debug, Clone, Copy, PartialEq, Eq, Structural)]
pub struct PriceDelta {
    /// Ten thousand times the difference, in minor units.
    pub numerator: i128,
    /// The agreed price, in minor units.
    pub denominator: u64,
}

/// Ten thousand times what was quoted above what was agreed.
pub open spec fn bps_numerator(quoted: nat, agreed: nat) -> int {
    (quoted - agreed) * 10_000
}

/// How far above the agreed price they opened: 14% above is fourteen hundred
/// basis points. The result is a ratio and no amount.
pub fn price_delta_bps(quoted: Money, agreed: Money) -> (r: Result<PriceDelta, MoneyError>)
    ensures
        match r {
            Ok(d) => {
                &&& quoted.currency() == agreed.currency()
                &&& d.numerator == bps_numerator(quoted.minor() as nat, agreed.minor() as nat)
                &&& d.numerator == (quoted.minor() - agreed.minor()) * 10_000
                &&& d.denominator == agreed.minor()
                &&& d.denominator > 0
            },
            Err(e) => {
                &&& quoted.currency() != agreed.currency()
                &&& e == (MoneyError::CurrencyMismatch {
                    left: quoted.currency(),
                    right: agreed.currency(),
                })
            },
        },
{
    if quoted.currency() != agreed.currency() {
        return Err(
            MoneyError::CurrencyMismatch { left: quoted.currency(), right: agreed.currency() },
        );
    }
    let denominator: u64 = agreed.minor();
    let delta: i128 = quoted.minor() as i128 - denominator as i128;
    Ok(PriceDelta { numerator: delta * 10_000, denominator })
}

// ---------------------------------------------------------------------------
// Book
// ---------------------------------------------------------------------------

/// The counterparty and the dimension that a belief is about.
#[derive(Debug, PartialEq, Eq, Hash)]
pub struct BookKey {
    pub counterparty: Slug,
    pub dimension: Dimension,
}

impl Clone for BookKey {
    fn clone(&self) -> (r: BookKey)
        ensures
            r == *self,
    {
        BookKey { counterparty: self.counterparty.clone(), dimension: self.dimension }
    }
}

impl Ordered for BookKey {
    type Key = (Seq<char>, Dimension);

    open spec fn key(&self) -> (Seq<char>, Dimension) {
        (self.counterparty@, self.dimension)
    }

    open spec fn before(a: (Seq<char>, Dimension), b: (Seq<char>, Dimension)) -> bool {
        text::text_before(a.0, b.0) || (a.0 == b.0 && a.1.rank() < b.1.rank())
    }

    proof fn before_irreflexive(a: (Seq<char>, Dimension)) {
        text::lemma_text_before_irreflexive(a.0);
    }

    proof fn before_transitive(
        a: (Seq<char>, Dimension),
        b: (Seq<char>, Dimension),
        c: (Seq<char>, Dimension),
    ) {
        if text::text_before(a.0, b.0) && text::text_before(b.0, c.0) {
            text::lemma_text_before_transitive(a.0, b.0, c.0);
        }
    }

    proof fn before_total(a: (Seq<char>, Dimension), b: (Seq<char>, Dimension)) {
        if a.0 != b.0 {
            text::lemma_text_before_total(a.0, b.0);
        }
    }

    fn precedes(&self, other: &Self) -> (r: bool) {
        comes_before(self.counterparty.as_str(), other.counterparty.as_str()) || (
        self.counterparty.same(&other.counterparty) && self.dimension.place()
            < other.dimension.place())
    }

    fn duplicate(&self) -> (r: Self) {
        self.clone()
    }
}

/// Every learned expectation, by counterparty and then dimension.
#[derive(Debug, Clone, PartialEq, Eq)]
pub struct ExpectationBook<N> {
    beliefs: OrdMap<BookKey, Expectation<N>>,
}

/// The beliefs as mathematical values.
pub open spec fn known_in<N>(beliefs: Map<(Seq<char>, Dimension), Expectation<N>>) -> Map<
    (Seq<char>, Dimension),
    Known<N>,
> {
    beliefs.map_values(|e: Expectation<N>| e@)
}

/// What is known under `key`, or that nothing is.
pub open spec fn known_or_blank<N>(
    book: Map<(Seq<char>, Dimension), Known<N>>,
    key: (Seq<char>, Dimension),
    zero: N,
) -> Known<N> {
    if book.contains_key(key) {
        book[key]
    } else {
        Known::blank(key.1, zero)
    }
}

/// The book after an observation under `key`.
pub open spec fn book_after<N>(
    book: Map<(Seq<char>, Dimension), Known<N>>,
    key: (Seq<char>, Dimension),
    zero: N,
    reading: Reading<N>,
    now: Timestamp,
) -> Map<(Seq<char>, Dimension), Known<N>> {
    book.insert(key, known_or_blank(book, key, zero).after(reading, now))
}

/// The book after a claim under `key`.
pub open spec fn book_after_claim<N>(
    book: Map<(Seq<char>, Dimension), Known<N>>,
    key: (Seq<char>, Dimension),
    zero: N,
    claimed: N,
) -> Map<(Seq<char>, Dimension), Known<N>> {
    book.insert(key, known_or_blank(book, key, zero).after_claim(claimed))
}

impl<N> View for ExpectationBook<N> {
    type V = Map<(Seq<char>, Dimension), Known<N>>;

    closed spec fn view(&self) -> Map<(Seq<char>, Dimension), Known<N>> {
        known_in(self.beliefs@)
    }
}

/// The key of a stored entry.
pub open spec fn entry_key<N>(entry: (Slug, Dimension, Expectation<N>)) -> (Seq<char>, Dimension) {
    (entry.0@, entry.1)
}

/// What stored entries amount to: of several under one key the last counts.
pub open spec fn entered<N>(entries: Seq<(Slug, Dimension, Expectation<N>)>) -> Map<
    (Seq<char>, Dimension),
    Known<N>,
>
    decreases entries.len(),
{
    if entries.len() == 0 {
        Map::empty()
    } else {
        entered(entries.drop_last()).insert(entry_key(entries.last()), entries.last().2@)
    }
}

proof fn lemma_known_insert<N>(
    beliefs: Map<(Seq<char>, Dimension), Expectation<N>>,
    key: (Seq<char>, Dimension),
    e: Expectation<N>,
)
    ensures
        known_in(beliefs.insert(key, e)) == known_in(beliefs).insert(key, e@),
{
    assert(known_in(beliefs.insert(key, e)) =~= known_in(beliefs).insert(key, e@));
}

impl<N: Copy> ExpectationBook<N> {
    /// An agent that has met nobody.
    pub fn new() -> (r: ExpectationBook<N>)
        ensures
            r@ == Map::<(Seq<char>, Dimension), Known<N>>::empty(),
    {
        let r = ExpectationBook { beliefs: OrdMap::new() };
        assert(r@ =~= Map::<(Seq<char>, Dimension), Known<N>>::empty());
        r
    }

    /// Rehydrate a book from its entries.
    pub fn restore(entries: Vec<(Slug, Dimension, Expectation<N>)>) -> (r: ExpectationBook<N>)
        ensures
            r@ == entered(entries@),
    {
        let mut book = ExpectationBook::new();
        for i in 0..entries.len()
            invariant
                book@ == entered(entries@.take(i as int)),
        {
            let (who, dimension, e) = &entries[i];
            let key = BookKey { counterparty: who.clone(), dimension: *dimension };
            proof {
                assert(entries@.take(i + 1).drop_last() =~= entries@.take(i as int));
                lemma_known_insert(book.beliefs@, key.key(), *e);
            }
            book.beliefs.insert(key, *e);
        }
        assert(entries@.take(entries@.len() as int) =~= entries@);
        book
    }

    /// The belief under a key, or the one of a first contact.
    fn entry(&self, key: &BookKey, zero: N) -> (r: Expectation<N>)
        ensures
            r@ == known_or_blank(self@, key.key(), zero),
    {
        match self.beliefs.get(key) {
            Some(e) => *e,
            None => Expectation::new(key.dimension, zero),
        }
    }

    /// Fold in one observation, creating the belief if this is a first contact.
    /// A refused observation creates nothing.
    pub fn observe(
        &mut self,
        counterparty: &Slug,
        dimension: Dimension,
        zero: N,
        reading: Reading<N>,
        now: Timestamp,
    ) -> (r: Result<PredictionError<N>, ExpectationError<N>>)
        requires
            known_or_blank(old(self)@, (counterparty@, dimension), zero).n < u32::MAX,
        ensures
            ({
                let key = (counterparty@, dimension);
                let known = known_or_blank(old(self)@, key, zero);
                match r {
                    Ok(told) => {
                        &&& size_fault(reading.observed, reading.size) is None
                        &&& told == known.told(reading)
                        &&& final(self)@ == old(self)@.insert(key, known.after(reading, now))
                        &&& final(self)@ == book_after(old(self)@, key, zero, reading, now)
                    },
                    Err(e) => {
                        &&& size_fault(reading.observed, reading.size) == Some(e)
                        &&& final(self)@ == old(self)@
                    },
                }
            }),
    {
        check(reading.observed, reading.size)?;
        let key = BookKey { counterparty: counterparty.clone(), dimension };
        let mut entry = self.entry(&key, zero);
        let told = entry.observe(reading, now)?;
        proof {
            lemma_known_insert(self.beliefs@, key.key(), entry);
        }
        self.beliefs.insert(key, entry);
        Ok(told)
    }

    /// Record what a counterparty claims about itself on one dimension.
    pub fn record_claim(
        &mut self,
        counterparty: &Slug,
        dimension: Dimension,
        zero: N,
        claimed: N,
        size: Size,
    ) -> (r: Result<(), ExpectationError<N>>)
        ensures
            ({
                let key = (counterparty@, dimension);
                let known = known_or_blank(old(self)@, key, zero);
                match r {
                    Ok(()) => {
                        &&& size_fault(claimed, size) is None
                        &&& final(self)@ == old(self)@.insert(key, known.after_claim(claimed))
                        &&& final(self)@ == book_after_claim(old(self)@, key, zero, claimed)
                    },
                    Err(e) => {
                        &&& size_fault(claimed, size) == Some(e)
                        &&& final(self)@ == old(self)@
                    },
                }
            }),
    {
        check(claimed, size)?;
        let key = BookKey { counterparty: counterparty.clone(), dimension };
        let mut entry = self.entry(&key, zero);
        entry.record_claim(claimed, size)?;
        proof {
            lemma_known_insert(self.beliefs@, key.key(), entry);
        }
        self.beliefs.insert(key, entry);
        Ok(())
    }

    /// The belief about one counterparty on one dimension, if any exists.
    pub fn get(&self, counterparty: &Slug, dimension: Dimension) -> (r: Option<&Expectation<N>>)
        ensures
            match r {
                Some(e) => self@.contains_key((counterparty@, dimension)) && e@
                    == self@[(counterparty@, dimension)],
                None => !self@.contains_key((counterparty@, dimension)),
            },
    {
        let key = BookKey { counterparty: counterparty.clone(), dimension };
        self.beliefs.get(&key)
    }

    /// Everything known about one counterparty, in dimension order.
    pub fn counterparty(&self, counterparty: &Slug) -> (r: Vec<(Dimension, &Expectation<N>)>)
        ensures
            r@.map_values(|p: (Dimension, &Expectation<N>)| p.0) == Dimension::ALL@.filter(
                |d: Dimension| self@.contains_key((counterparty@, d)),
            ),
            forall|i: int|
                0 <= i < r@.len() ==> (#[trigger] r@[i]).1@ == self@[(counterparty@, r@[i].0)],
    {
        let ghost met = |d: Dimension| self@.contains_key((counterparty@, d));
        let ghost name = |p: (Dimension, &Expectation<N>)| p.0;
        let mut out: Vec<(Dimension, &Expectation<N>)> = Vec::new();
        assert(out@.map_values(name) =~= Dimension::ALL@.take(0).filter(met)) by {
            reveal(Seq::filter);
        }
        for i in 0..Dimension::ALL.len()
            invariant
                met == (|d: Dimension| self@.contains_key((counterparty@, d))),
                name == (|p: (Dimension, &Expectation<N>)| p.0),
                out@.map_values(name) == Dimension::ALL@.take(i as int).filter(met),
                forall|k: int|
                    0 <= k < out@.len() ==> (#[trigger] out@[k]).1@ == self@[(
                        counterparty@,
                        out@[k].0,
                    )],
        {
            let dimension = Dimension::ALL[i];
            proof {
                assert(Dimension::ALL@.take(i + 1).drop_last() =~= Dimension::ALL@.take(i as int));
                assert(Dimension::ALL@.take(i + 1).last() == dimension);
                reveal(Seq::filter);
            }
            let ghost before = out@;
            match self.get(counterparty, dimension) {
                Some(e) => {
                    out.push((dimension, e));
                    assert(out@.map_values(name) =~= before.map_values(name).push(dimension));
                    assert(met(dimension));
                },
                None => {
                    assert(!met(dimension));
                },
            }
        }
        assert(Dimension::ALL@.take(5) =~= Dimension::ALL@);
        out
    }

    /// Every belief, in the order of counterparty and dimension.
    pub fn iter(&self) -> (r: Vec<(&Slug, Dimension, &Expectation<N>)>)
        ensures
            r@.len() == self@.dom().len(),
            forall|i: int, k: int|
                0 <= i < k < r@.len() ==> BookKey::before(
                    ((#[trigger] r@[i]).0@, r@[i].1),
                    ((#[trigger] r@[k]).0@, r@[k].1),
                ),
            forall|i: int|
                0 <= i < r@.len() ==> {
                    &&& self@.contains_key(((#[trigger] r@[i]).0@, r@[i].1))
                    &&& r@[i].2@ == self@[(r@[i].0@, r@[i].1)]
                },
            forall|key: (Seq<char>, Dimension)| #[trigger]
                self@.contains_key(key) ==> exists|i: int|
                    0 <= i < r@.len() && ((#[trigger] r@[i]).0@, r@[i].1) == key,
    {
        let keys = self.beliefs.keys();
        let values = self.beliefs.values();
        let mut out: Vec<(&Slug, Dimension, &Expectation<N>)> = Vec::new();
        let mut i: usize = 0;
        while i < keys.len()
            invariant
                i <= keys@.len(),
                keys@.len() == values@.len(),
                keys@ == self.beliefs.key_seq(),
                out@.len() == i,
                forall|k: int|
                    0 <= k < i ==> {
                        &&& (#[trigger] out@[k]).0@ == keys@[k].counterparty@
                        &&& out@[k].1 == keys@[k].dimension
                        &&& out@[k].2 == values@[k]
                    },
            decreases keys@.len() - i,
        {
            out.push((&keys[i].counterparty, keys[i].dimension, &values[i]));
            i = i + 1;
        }
        proof {
            let names = ordered::keys_of(keys@);
            assert(self@.dom() =~= self.beliefs@.dom());
            assert forall|a: int, b: int| 0 <= a < b < out@.len() implies BookKey::before(
                ((#[trigger] out@[a]).0@, out@[a].1),
                ((#[trigger] out@[b]).0@, out@[b].1),
            ) by {
                assert(BookKey::before(keys@[a].key(), keys@[b].key()));
            }
            assert forall|k: int| 0 <= k < out@.len() implies {
                &&& self@.contains_key(((#[trigger] out@[k]).0@, out@[k].1))
                &&& out@[k].2@ == self@[(out@[k].0@, out@[k].1)]
            } by {
                assert(names[k] == keys@[k].key());
                assert(names.to_set().contains(names[k]));
                assert(values@[k] == self.beliefs@[keys@[k].key()]);
            }
            assert forall|key: (Seq<char>, Dimension)| #[trigger]
                self@.contains_key(key) implies exists|k: int|
                0 <= k < out@.len() && ((#[trigger] out@[k]).0@, out@[k].1) == key by {
                assert(names.to_set().contains(key));
                let k = names.index_of(key);
                assert(keys@[k].key() == key);
                assert((out@[k].0@, out@[k].1) == key);
            }
        }
        out
    }

    /// How many beliefs are stored.
    pub fn len(&self) -> (r: usize)
        ensures
            r == self@.dom().len(),
    {
        assert(self@.dom() =~= self.beliefs@.dom());
        self.beliefs.len()
    }

    /// Whether the agent has learned nothing at all.
    pub fn is_empty(&self) -> (r: bool)
        ensures
            r == (self@.dom().len() == 0),
    {
        self.len() == 0
    }
}

impl<N: Copy> Default for ExpectationBook<N> {
    fn default() -> (r: ExpectationBook<N>)
        ensures
            r@ == Map::<(Seq<char>, Dimension), Known<N>>::empty(),
    {
        ExpectationBook::new()
    }
}

// ---------------------------------------------------------------------------
// Laws
// ---------------------------------------------------------------------------

/// Every observation of a series is counted, the belief keeps the instant of
/// the first one it ever saw and takes that of the last, and neither what it is
/// about nor what the counterparty claimed is touched.
pub proof fn law_observations_accumulate<N>(
    known: Known<N>,
    series: Seq<(Reading<N>, Timestamp)>,
)
    requires
        known.n + series.len() <= u32::MAX,
    ensures
        ({
            let then = known.after_all(series);
            &&& then.n == known.n + series.len()
            &&& then.dimension == known.dimension
            &&& then.claimed == known.claimed
            &&& known.first_observed_at is Some ==> then.first_observed_at
                == known.first_observed_at
            &&& known.first_observed_at is None && series.len() > 0 ==> then.first_observed_at
                == Some(series[0].1)
            &&& series.len() > 0 ==> then.last_observed_at == Some(series.last().1)
        }),
    decreases series.len(),
{
    if series.len() > 0 {
        let head = series.drop_last();
        law_observations_accumulate(known, head);
        if head.len() > 0 {
            assert(head[0] == series[0]);
        }
    }
}

/// A later claim does not reset learning: once there is an observation, a claim
/// changes none of the running numbers.
pub proof fn law_claims_do_not_unlearn<N>(known: Known<N>, claimed: N)
    requires
        known.n > 0,
    ensures
        known.after_claim(claimed).figures == known.figures,
        known.after_claim(claimed).n == known.n,
        known.after_claim(claimed).claimed == Some(claimed),
{
}

/// A claim is a prediction: what is observed against it is no first contact,
/// and the miss is reported as it is.
pub proof fn law_a_claim_is_a_prediction<N>(known: Known<N>, claimed: N, reading: Reading<N>)
    ensures
        !known.after_claim(claimed).told(reading).first_contact,
        known.after_claim(claimed).told(reading).surprise == reading.miss,
{
}

/// A first contact is adopted whole: no error is made up against a prior that
/// was never there, and nothing is said about a change.
pub proof fn law_a_first_contact_is_adopted<N>(known: Known<N>, reading: Reading<N>, now: Timestamp)
    requires
        known.is_first_contact(),
    ensures
        known.told(reading).first_contact,
        known.told(reading).surprise == reading.nothing,
        !known.told(reading).regime_change,
        known.after(reading, now).figures.expected == reading.observed,
        !known.after(reading, now).is_first_contact(),
{
}

/// Reliability is judged from the third observation on, and never before.
pub proof fn law_reliability_needs_observations<N>(known: Known<N>, tight: bool)
    ensures
        known.reliability(tight) is Unknown <==> known.n < MIN_OBSERVATIONS,
{
}

/// A book rebuilt from its own entries is that book.
pub proof fn law_a_stored_book_comes_back<N>(
    stored: Map<(Seq<char>, Dimension), Known<N>>,
    entries: Seq<(Slug, Dimension, Expectation<N>)>,
)
    requires
        forall|i: int|
            0 <= i < entries.len() ==> stored.contains_key(#[trigger] entry_key(entries[i])) && stored[entry_key(entries[i])]
                == entries[i].2@,
        forall|key: (Seq<char>, Dimension)| #[trigger]
            stored.contains_key(key) ==> exists|i: int|
                0 <= i < entries.len() && #[trigger] entry_key(entries[i]) == key,
    ensures
        entered(entries) == stored,
{
    lemma_entered(stored, entries);
    assert forall|key: (Seq<char>, Dimension)| #[trigger] stored.contains_key(key) implies entered(
        entries,
    ).contains_key(key) by {
        let i = choose|i: int| 0 <= i < entries.len() && #[trigger] entry_key(entries[i]) == key;
        assert(entered(entries).contains_key(entry_key(entries[i])));
    }
    assert(entered(entries) =~= stored);
}

/// Entries that agree with a map give a part of it that has all of them.
proof fn lemma_entered<N>(
    stored: Map<(Seq<char>, Dimension), Known<N>>,
    entries: Seq<(Slug, Dimension, Expectation<N>)>,
)
    requires
        forall|i: int|
            0 <= i < entries.len() ==> stored.contains_key(#[trigger] entry_key(entries[i])) && stored[entry_key(entries[i])]
                == entries[i].2@,
    ensures
        forall|key: (Seq<char>, Dimension)| #[trigger]
            entered(entries).contains_key(key) ==> stored.contains_key(key) && entered(entries)[key]
                == stored[key],
        forall|i: int|
            0 <= i < entries.len() ==> entered(entries).contains_key(#[trigger] entry_key(entries[i])),
    decreases entries.len(),
{
    if entries.len() > 0 {
        let head = entries.drop_last();
        let last = entries[entries.len() - 1];
        assert(stored.contains_key(entry_key(last)));
        assert forall|i: int| 0 <= i < head.len() implies stored.contains_key(
            #[trigger] entry_key(head[i]),
        ) && stored[entry_key(head[i])] == head[i].2@ by {
            assert(head[i] == entries[i]);
            assert(stored.contains_key(entry_key(entries[i])));
        }
        lemma_entered(stored, head);
        assert forall|key: (Seq<char>, Dimension)| #[trigger] entered(entries).contains_key(key) implies stored.contains_key(
            key,
        ) && entered(entries)[key] == stored[key] by {
            if key != entry_key(last) {
                assert(entered(head).contains_key(key));
            }
        }
        assert forall|i: int| 0 <= i < entries.len() implies entered(entries).contains_key(
            #[trigger] entry_key(entries[i]),
        ) by {
            if i < head.len() {
                assert(head[i] == entries[i]);
                assert(entered(head).contains_key(entry_key(head[i])));
            }
        }
    }
}

/// The same reading with up and down exchanged.
pub open spec fn mirrored<N>(reading: Reading<N>) -> Reading<N> {
    Reading {
        drift_up: reading.drift_down,
        drift_down: reading.drift_up,
        drifts_up: reading.drifts_down,
        drifts_down: reading.drifts_up,
        ..reading
    }
}

/// The detector of drifts is two-sided. Once there is something to compare with,
/// an observation reports a change of regime exactly where the upward or the
/// downward drift has reached its threshold, and exchanging the two directions
/// changes neither the report nor what is expected afterwards.
pub proof fn law_drift_is_noticed_both_ways<N>(
    known: Known<N>,
    reading: Reading<N>,
    now: Timestamp,
)
    ensures
        known.n > 0 || known.claimed is Some ==> (known.told(reading).regime_change
            <==> reading.drifts_up || reading.drifts_down),
        known.told(mirrored(reading)).regime_change == known.told(reading).regime_change,
        known.after(mirrored(reading), now).figures.expected == known.after(
            reading,
            now,
        ).figures.expected,
{
}

/// What is learned from an observation. The first one without a claim is adopted;
/// a miss is learned at the full rate where a change of regime is reported or
/// fewer than two observations came before, and by precision everywhere else.
pub proof fn law_a_miss_is_learned_at_its_rate<N>(
    known: Known<N>,
    reading: Reading<N>,
    now: Timestamp,
)
    ensures
        ({
            let expected = known.after(reading, now).figures.expected;
            let nothing_known = known.n == 0 && known.claimed is None;
            let moving = reading.drifts_up || reading.drifts_down;
            &&& nothing_known ==> expected == reading.observed
            &&& !nothing_known && (moving || known.n < 2) ==> expected == reading.learned
            &&& !nothing_known && !moving && known.n >= 2 ==> expected
                == reading.learned_by_precision
        }),
{
}

/// What an observation tells: what was seen, what had been expected, how far apart
/// the two lie and how much that weighs. Without anything to compare with there is
/// no miss and the whole weight.
pub proof fn law_an_observation_tells_its_miss<N>(known: Known<N>, reading: Reading<N>)
    ensures
        ({
            let told = known.told(reading);
            &&& told.observed == reading.observed
            &&& told.expected_before == known.figures.expected
            &&& told.first_contact <==> known.n == 0 && known.claimed is None
            &&& told.first_contact ==> told.surprise == reading.nothing && told.weight
                == reading.whole && !told.regime_change
            &&& !told.first_contact ==> told.surprise == reading.miss && told.weight
                == reading.salience
        }),
{
}

/// An observation is counted, its figures replace the ones before, and the claim
/// stays.
pub proof fn law_an_observation_is_kept<N>(known: Known<N>, reading: Reading<N>, now: Timestamp)
    requires
        known.n < u32::MAX,
    ensures
        ({
            let then = known.after(reading, now);
            &&& then.n == known.n + 1
            &&& then.figures.mean == reading.mean
            &&& then.figures.m2 == reading.m2
            &&& then.figures.drift_up == reading.drift_up
            &&& then.figures.drift_down == reading.drift_down
            &&& then.claimed == known.claimed
            &&& then.dimension == known.dimension
            &&& then.last_observed_at == Some(now)
            &&& then.first_observed_at == if known.first_observed_at is Some {
                known.first_observed_at
            } else {
                Some(now)
            }
        }),
{
}

/// A claim is expected until the first observation, and then only remembered.
pub proof fn law_a_claim_is_expected_until_observed<N>(known: Known<N>, claimed: N)
    ensures
        ({
            let then = known.after_claim(claimed);
            &&& then.claimed == Some(claimed)
            &&& known.n == 0 ==> then.prediction() == Some(claimed)
            &&& known.n > 0 ==> then.prediction() == known.prediction()
            &&& then.n == known.n
            &&& then.figures.mean == known.figures.mean
            &&& then.figures.m2 == known.figures.m2
            &&& then.figures.drift_up == known.figures.drift_up
            &&& then.figures.drift_down == known.figures.drift_down
            &&& then.first_observed_at == known.first_observed_at
            &&& then.last_observed_at == known.last_observed_at
        }),
{
}

/// From how many observations on there is what to answer: a prediction from a
/// claim or one observation on, a mean from one, a spread from two, a verdict on
/// reliability from three, and a gap where a claim was checked at least once.
pub proof fn law_answers_wait_for_observations<N>(known: Known<N>, tight: bool)
    ensures
        known.prediction() is Some <==> known.n >= 1 || known.claimed is Some,
        known.prediction() matches Some(x) ==> x == known.figures.expected,
        known.average() is Some <==> known.n >= 1,
        known.average() matches Some(x) ==> x == known.figures.mean,
        known.spread() is Some <==> known.n >= 2,
        known.spread() matches Some(x) ==> x == (known.figures.m2, known.n),
        known.gap() is Some <==> known.n >= 1 && known.claimed is Some,
        known.gap() matches Some(x) ==> x.0 == known.figures.expected && Some(x.1)
            == known.claimed,
        known.reliability(tight) is Unknown <==> known.n < 3,
        known.reliability(tight) is Predictable <==> known.n >= 3 && tight,
        known.reliability(tight) is Erratic <==> known.n >= 3 && !tight,
{
}

/// A number is refused exactly where it is not sound, and is told what it is.
pub proof fn law_only_sound_numbers_are_learned_from<N>(value: N, size: Size)
    ensures
        size_fault(value, size) is None <==> size is Sound,
        size is NotFinite ==> size_fault(value, size) == Some(ExpectationError::<N>::NotFinite),
        size is TooLarge ==> size_fault(value, size) == Some(ExpectationError::OutOfRange(value)),
{
}

/// A stored belief is taken back exactly where its numbers are finite, its sum of
/// squares is not negative and is zero below two observations, and its drifts are
/// sound. A claim that is not there cannot be wrong.
pub proof fn law_only_sound_beliefs_are_taken_back<N>(
    state: StoredState,
    n: u32,
    claimed: Option<N>,
)
    ensures
        stored_fault(state, n, claimed) is None <==> {
            &&& state.figures_finite
            &&& claimed is Some ==> state.claim_finite
            &&& !state.m2_negative
            &&& n <= 1 ==> state.m2_zero
            &&& state.drifts_sound
        },
        stored_fault(state, n, claimed) == Some(ExpectationError::<N>::NotFinite)
            <==> !state.figures_finite || (claimed is Some && !state.claim_finite),
{
}

/// Opening so many basis points above the agreed price is a delta of so many,
/// opening at it is none, and below it is a negative one.
pub proof fn law_a_delta_is_in_basis_points(quoted: nat, agreed: nat, bps: int)
    requires
        agreed > 0,
    ensures
        quoted * 10_000 == agreed * (10_000 + bps) <==> bps_numerator(quoted, agreed) == bps
            * agreed,
        quoted == agreed <==> bps_numerator(quoted, agreed) == 0,
        quoted < agreed <==> bps_numerator(quoted, agreed) < 0,
{
    assert(agreed * (10_000 + bps) == agreed * 10_000 + bps * agreed) by (nonlinear_arith);
}

/// What is learned about one counterparty on one dimension says nothing of any
/// other: the belief under that key moves, from nothing where there was none, and
/// every other one stays.
pub proof fn law_learning_is_about_one_dimension<N>(
    book: Map<(Seq<char>, Dimension), Known<N>>,
    key: (Seq<char>, Dimension),
    zero: N,
    reading: Reading<N>,
    claimed: N,
    now: Timestamp,
    other: (Seq<char>, Dimension),
)
    ensures
        ({
            let observed = book_after(book, key, zero, reading, now);
            let told = book_after_claim(book, key, zero, claimed);
            &&& observed.contains_key(key) && told.contains_key(key)
            &&& observed[key].last_observed_at == Some(now)
            &&& told[key].claimed == Some(claimed)
            &&& book.contains_key(key) ==> observed[key] == book[key].after(reading, now)
                && told[key] == book[key].after_claim(claimed)
            &&& !book.contains_key(key) ==> {
                &&& observed[key].n == 1
                &&& observed[key].dimension == key.1
                &&& observed[key].figures.expected == reading.observed
                &&& told[key].n == 0
                &&& told[key].prediction() == Some(claimed)
            }
            &&& other != key ==> {
                &&& observed.contains_key(other) <==> book.contains_key(other)
                &&& told.contains_key(other) <==> book.contains_key(other)
                &&& book.contains_key(other) ==> observed[other] == book[other] && told[other]
                    == book[other]
            }
        }),
{
}

/// Of stored beliefs under one key the last counts.
pub proof fn law_the_last_stored_belief_counts<N>(
    entries: Seq<(Slug, Dimension, Expectation<N>)>,
    next: (Slug, Dimension, Expectation<N>),
    key: (Seq<char>, Dimension),
)
    ensures
        ({
            let then = entered(entries.push(next));
            &&& then.contains_key((next.0@, next.1)) && then[(next.0@, next.1)] == next.2@
            &&& key != (next.0@, next.1) ==> {
                &&& then.contains_key(key) <==> entered(entries).contains_key(key)
                &&& then.contains_key(key) ==> then[key] == entered(entries)[key]
            }
        }),
{
    assert(entries.push(next).drop_last() =~= entries);
}

/// The deviation that a buyer would remark on: three days, two per cent of the price,
/// four hours, a tenth of the minimum order, one defect in a hundred.
pub proof fn law_a_notable_unit_is_what_a_buyer_remarks_on(d: Dimension)
    ensures
        d.notable() == (if d is LeadTimeDays {
            3u32
        } else if d is PriceDeltaBps {
            200u32
        } else if d is ResponseLatencyHours {
            4u32
        } else if d is MoqFlexibilityPct {
            10u32
        } else {
            1u32
        }),
        Dimension::ALL@[d.rank() as int] == d,
{
}

} // verus!
