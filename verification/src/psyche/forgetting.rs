//! Differentiated forgetting.
//!
//! A trace that nothing revives pales. What was seen first-hand stops at a
//! floor; what was only reported fades to nothing. This module keeps the traces
//! and counts the time that they have been left alone; it decides what fades,
//! what turns and what a counterparty is taken for. The strengths themselves are
//! of a type `N` that it never looks into; the caller computes them.
use crate::ids::Slug;
use crate::ordered;
use crate::ordered::{OrdMap, Ordered};
use crate::text;
use crate::text::comes_before;
use vstd::prelude::*;

verus! {

/// Seconds in one derive period, the step at which traces age.
pub const DERIVE_SECONDS: i64 = 1_440;

/// Derive periods a trace must sit unrevived before it starts to fade: three
/// days.
pub const GRACE_DERIVES: u64 = 180;

/// How we came to hold a trace. Never downgraded: what is witnessed after it
/// was reported counts as witnessed.
#[derive(Debug, Clone, Copy, PartialEq, Eq, Structural, PartialOrd, Ord, Hash)]
pub enum Provenance {
    /// Someone told us. Fades to zero.
    Hearsay,
    /// We observed it ourselves. Fades only to a floor.
    FirstHand,
}

impl Provenance {
    /// What two pieces of evidence come to: first-hand if either is.
    pub open spec fn joined(self, other: Provenance) -> Provenance {
        if self is FirstHand || other is FirstHand {
            Provenance::FirstHand
        } else {
            Provenance::Hearsay
        }
    }

    /// What two pieces of evidence come to: first-hand if either is.
    pub fn join(self, other: Provenance) -> (r: Provenance)
        ensures
            r == self.joined(other),
    {
        match self {
            Provenance::FirstHand => Provenance::FirstHand,
            Provenance::Hearsay => other,
        }
    }

    /// One of two values, by provenance.
    pub open spec fn choice<N>(self, first_hand: N, hearsay: N) -> N {
        match self {
            Provenance::FirstHand => first_hand,
            Provenance::Hearsay => hearsay,
        }
    }

    /// One of two values, by provenance.
    pub fn choose_between<N>(self, first_hand: N, hearsay: N) -> (r: N)
        ensures
            r == self.choice(first_hand, hearsay),
    {
        match self {
            Provenance::FirstHand => first_hand,
            Provenance::Hearsay => hearsay,
        }
    }
}

/// Which way a trace points.
#[derive(Debug, Clone, Copy, PartialEq, Eq, Structural, PartialOrd, Ord, Hash)]
pub enum Sentiment {
    /// They let us down.
    Adverse,
    /// They came through.
    Favourable,
}

impl Sentiment {
    /// The sign of a sentiment.
    pub open spec fn sign(self) -> int {
        if self is Adverse {
            -1
        } else {
            1
        }
    }

    /// The sign of a sentiment.
    pub fn polarity(self) -> (r: i8)
        ensures
            r == self.sign(),
            r == if self is Adverse {
                -1
            } else {
                1
            },
    {
        match self {
            Sentiment::Adverse => -1,
            Sentiment::Favourable => 1,
        }
    }
}

/// What a trace is about: a counterparty and the thing they did.
#[derive(Debug, PartialEq, Eq, PartialOrd, Ord, Hash)]
pub struct TraceKey {
    /// Who.
    pub counterparty: Slug,
    /// What kind of thing they did.
    pub topic: Slug,
}

impl TraceKey {
    /// A key from its two parts.
    pub fn new(counterparty: Slug, topic: Slug) -> (r: TraceKey)
        ensures
            r.counterparty == counterparty,
            r.topic == topic,
    {
        TraceKey { counterparty, topic }
    }
}

impl Clone for TraceKey {
    fn clone(&self) -> (r: TraceKey)
        ensures
            r == *self,
    {
        TraceKey { counterparty: self.counterparty.clone(), topic: self.topic.clone() }
    }
}

impl Ordered for TraceKey {
    type Key = (Seq<char>, Seq<char>);

    open spec fn key(&self) -> (Seq<char>, Seq<char>) {
        (self.counterparty@, self.topic@)
    }

    open spec fn before(a: (Seq<char>, Seq<char>), b: (Seq<char>, Seq<char>)) -> bool {
        text::text_before(a.0, b.0) || (a.0 == b.0 && text::text_before(a.1, b.1))
    }

    proof fn before_irreflexive(a: (Seq<char>, Seq<char>)) {
        text::lemma_text_before_irreflexive(a.0);
        text::lemma_text_before_irreflexive(a.1);
    }

    proof fn before_transitive(
        a: (Seq<char>, Seq<char>),
        b: (Seq<char>, Seq<char>),
        c: (Seq<char>, Seq<char>),
    ) {
        if text::text_before(a.0, b.0) && text::text_before(b.0, c.0) {
            text::lemma_text_before_transitive(a.0, b.0, c.0);
        }
        if text::text_before(a.1, b.1) && text::text_before(b.1, c.1) {
            text::lemma_text_before_transitive(a.1, b.1, c.1);
        }
    }

    proof fn before_total(a: (Seq<char>, Seq<char>), b: (Seq<char>, Seq<char>)) {
        if a.0 != b.0 {
            text::lemma_text_before_total(a.0, b.0);
        } else {
            text::lemma_text_before_total(a.1, b.1);
        }
    }

    fn precedes(&self, other: &Self) -> (r: bool) {
        comes_before(self.counterparty.as_str(), other.counterparty.as_str()) || (
        self.counterparty.same(&other.counterparty) && comes_before(
            self.topic.as_str(),
            other.topic.as_str(),
        ))
    }

    fn duplicate(&self) -> (r: Self) {
        self.clone()
    }
}

/// The numbers that one event leads to, computed from the trace before it.
#[derive(Debug, Clone, Copy, PartialEq, Eq)]
pub struct Impression<N> {
    /// The strength of a trace that is not there yet.
    pub nothing: N,
    /// How outrageous the event is.
    pub weight: N,
    /// What is expected after it.
    pub expectation: N,
    /// The strength with the weight added, under the cap of what was seen.
    pub stacked_first_hand: N,
    /// The strength with the weight added, under the cap of what was reported.
    pub stacked_hearsay: N,
    /// The strength with the weight taken off.
    pub remaining: N,
    /// Nothing remains of it.
    pub spent: bool,
    /// What the weight exceeds the strength by, under the cap of what was seen.
    pub turned_first_hand: N,
    /// What the weight exceeds the strength by, under the cap of what was
    /// reported.
    pub turned_hearsay: N,
}

/// The numbers that a spell of neglect leads to, computed from one trace.
#[derive(Debug, Clone, Copy, PartialEq, Eq)]
pub struct Neglect<N> {
    /// The faded strength, no lower than the floor of what was seen.
    pub faded_first_hand: N,
    /// The faded strength, no lower than nothing.
    pub faded_hearsay: N,
    /// What is still expected.
    pub expectation: N,
}

/// One remembered thing about one counterparty.
#[derive(Debug, Clone, Copy, PartialEq, Eq)]
pub struct Trace<N> {
    /// Adverse or favourable.
    pub sentiment: Sentiment,
    /// First-hand or hearsay; only ever upgrades.
    pub provenance: Provenance,
    /// How strongly it is held.
    pub strength: N,
    /// What the next event of this kind is expected to be.
    pub expectation: N,
    /// Derive periods since the last time this trace was revived.
    pub idle_derives: u64,
}

/// The whole derive periods in a spell, and the seconds left over. A debt of
/// seconds, which only a stored ledger can bring along, is counted the same way
/// and what is left of it stays a debt.
pub open spec fn periods(residue: int, elapsed: int) -> (int, int) {
    let total = residue + if elapsed > 0 {
        elapsed
    } else {
        0
    };
    let counted = if total > i64::MAX {
        i64::MAX as int
    } else {
        total
    };
    if counted >= 0 {
        (counted / DERIVE_SECONDS as int, counted % DERIVE_SECONDS as int)
    } else {
        (-counted / DERIVE_SECONDS as int, -(-counted % DERIVE_SECONDS as int))
    }
}

/// How long a trace has been left alone after `steps` more periods. The count
/// stops at its limit.
pub open spec fn idle_after(idle: nat, steps: nat) -> nat {
    if idle + steps > u64::MAX {
        u64::MAX as nat
    } else {
        idle + steps
    }
}

/// The periods of neglect, out of `steps` after the first `idle`, that lie past
/// the grace window.
pub open spec fn fading_periods(idle: nat, steps: nat) -> nat {
    let start: nat = if idle > GRACE_DERIVES {
        idle
    } else {
        GRACE_DERIVES as nat
    };
    if idle_after(idle, steps) > start {
        (idle_after(idle, steps) - start) as nat
    } else {
        0
    }
}

impl<N> Trace<N> {
    /// A trace that is not there yet.
    pub open spec fn started(sentiment: Sentiment, provenance: Provenance, nothing: N) -> Trace<N> {
        Trace { sentiment, provenance, strength: nothing, expectation: nothing, idle_derives: 0 }
    }

    /// The trace after an event. One that points the same way strengthens it;
    /// one that points the other way wears it down, and turns it where nothing
    /// remains.
    pub open spec fn after(
        self,
        sentiment: Sentiment,
        provenance: Provenance,
        felt: Impression<N>,
    ) -> Trace<N> {
        let known = self.provenance.joined(provenance);
        let (points, strength) = if self.sentiment == sentiment {
            (sentiment, known.choice(felt.stacked_first_hand, felt.stacked_hearsay))
        } else if felt.spent {
            (sentiment, known.choice(felt.turned_first_hand, felt.turned_hearsay))
        } else {
            (self.sentiment, felt.remaining)
        };
        Trace {
            sentiment: points,
            provenance: known,
            strength,
            expectation: felt.expectation,
            idle_derives: 0,
        }
    }

    /// The trace after so many periods of neglect.
    pub open spec fn neglected(self, steps: nat, left: Neglect<N>) -> Trace<N> {
        Trace {
            strength: if fading_periods(self.idle_derives as nat, steps) > 0 {
                self.provenance.choice(left.faded_first_hand, left.faded_hearsay)
            } else {
                self.strength
            },
            expectation: left.expectation,
            idle_derives: idle_after(self.idle_derives as nat, steps) as u64,
            ..self
        }
    }

    /// How many of the next `steps` periods this trace fades in.
    pub fn fading(&self, steps: u64) -> (r: u64)
        ensures
            r == fading_periods(self.idle_derives as nat, steps as nat),
    {
        let before: u64 = self.idle_derives;
        let after: u64 = before.saturating_add(steps);
        let start: u64 = if before > GRACE_DERIVES {
            before
        } else {
            GRACE_DERIVES
        };
        after.saturating_sub(start)
    }
}

// ---------------------------------------------------------------------------
// The ledger
// ---------------------------------------------------------------------------

/// How the agent currently reads a counterparty. Advisory only.
#[derive(Debug, Clone, Copy, PartialEq, Eq, Structural, PartialOrd, Ord, Hash)]
pub enum Stance {
    /// Net goodwill past the threshold.
    Trusted,
    /// Nothing much either way.
    Neutral,
    /// A first-hand grievance at or above the mistrust floor survives.
    Wary,
    /// Net grudge past the threshold.
    Hostile,
}

/// A [`Ledger`] as a mathematical value.
#[verifier::ext_equal]
pub struct LedgerView<N> {
    pub traces: Map<(Seq<char>, Seq<char>), Trace<N>>,
    pub resting_friction: N,
    pub forgetting: bool,
    /// Elapsed seconds not yet worth a whole derive period.
    pub residue: int,
}

impl<N> LedgerView<N> {
    /// A ledger without traces.
    pub open spec fn blank(zero: N, forgetting: bool) -> LedgerView<N> {
        LedgerView { traces: Map::empty(), resting_friction: zero, forgetting, residue: 0 }
    }

    /// The trace under `key`, or the one that an event starts.
    pub open spec fn trace_or_started(
        self,
        key: (Seq<char>, Seq<char>),
        sentiment: Sentiment,
        provenance: Provenance,
        nothing: N,
    ) -> Trace<N> {
        if self.traces.contains_key(key) {
            self.traces[key]
        } else {
            Trace::started(sentiment, provenance, nothing)
        }
    }

    /// The ledger after an event under a key.
    pub open spec fn recorded(
        self,
        key: (Seq<char>, Seq<char>),
        sentiment: Sentiment,
        provenance: Provenance,
        felt: Impression<N>,
    ) -> LedgerView<N> {
        LedgerView {
            traces: self.traces.insert(
                key,
                self.trace_or_started(key, sentiment, provenance, felt.nothing).after(
                    sentiment,
                    provenance,
                    felt,
                ),
            ),
            ..self
        }
    }

    /// The derive periods that a spell of so many seconds brings.
    pub open spec fn steps(self, elapsed: int) -> nat {
        if self.forgetting {
            periods(self.residue, elapsed).0 as nat
        } else {
            0
        }
    }

    /// The ledger after a spell of so many seconds, given the friction and the
    /// numbers of each trace after it.
    pub open spec fn aged(
        self,
        elapsed: int,
        friction: N,
        left: Map<(Seq<char>, Seq<char>), Neglect<N>>,
    ) -> LedgerView<N> {
        let steps = self.steps(elapsed);
        if !self.forgetting {
            self
        } else if steps == 0 {
            LedgerView { residue: periods(self.residue, elapsed).1, ..self }
        } else {
            LedgerView {
                traces: Map::new(
                    |key: (Seq<char>, Seq<char>)| self.traces.contains_key(key),
                    |key: (Seq<char>, Seq<char>)| self.traces[key].neglected(steps, left[key]),
                ),
                resting_friction: friction,
                residue: periods(self.residue, elapsed).1,
                ..self
            }
        }
    }
}

/// The forgetting ledger for one agent.
#[derive(Debug, PartialEq, Eq)]
pub struct Ledger<N> {
    traces: OrdMap<TraceKey, Trace<N>>,
    resting_friction: N,
    forgetting: bool,
    residue_seconds: i64,
}

impl<N> View for Ledger<N> {
    type V = LedgerView<N>;

    closed spec fn view(&self) -> LedgerView<N> {
        LedgerView {
            traces: self.traces@,
            resting_friction: self.resting_friction,
            forgetting: self.forgetting,
            residue: self.residue_seconds as int,
        }
    }
}

/// What stored traces amount to: of several under one key the last counts.
pub open spec fn entered<N>(entries: Seq<(TraceKey, Trace<N>)>) -> Map<
    (Seq<char>, Seq<char>),
    Trace<N>,
>
    decreases entries.len(),
{
    if entries.len() == 0 {
        Map::empty()
    } else {
        entered(entries.drop_last()).insert(entries.last().0.key(), entries.last().1)
    }
}

/// What was computed for each trace, in the order of the traces.
pub open spec fn by_trace<N>(keys: Seq<TraceKey>, left: Seq<Neglect<N>>) -> Map<
    (Seq<char>, Seq<char>),
    Neglect<N>,
> {
    Map::new(
        |key: (Seq<char>, Seq<char>)| ordered::keys_of(keys).contains(key),
        |key: (Seq<char>, Seq<char>)| left[ordered::keys_of(keys).index_of(key)],
    )
}

impl<N> Ledger<N> {
    /// The keys of the traces, in order.
    pub closed spec fn order(&self) -> Seq<TraceKey> {
        self.traces.key_seq()
    }
}

impl<N: Copy> Ledger<N> {
    /// Rehydrate a ledger from what was stored of it.
    pub fn restore(
        entries: Vec<(TraceKey, Trace<N>)>,
        resting_friction: N,
        forgetting: bool,
        residue_seconds: i64,
    ) -> (r: Ledger<N>)
        ensures
            r@ == (LedgerView {
                traces: entered(entries@),
                resting_friction,
                forgetting,
                residue: residue_seconds as int,
            }),
    {
        let mut traces: OrdMap<TraceKey, Trace<N>> = OrdMap::new();
        for i in 0..entries.len()
            invariant
                traces@ == entered(entries@.take(i as int)),
        {
            let (key, trace) = &entries[i];
            assert(entries@.take(i + 1).drop_last() =~= entries@.take(i as int));
            traces.insert(key.clone(), *trace);
        }
        assert(entries@.take(entries@.len() as int) =~= entries@);
        Ledger { traces, resting_friction, forgetting, residue_seconds }
    }

    /// An empty ledger that forgets.
    pub fn new(zero: N) -> (r: Ledger<N>)
        ensures
            r@ == LedgerView::blank(zero, true),
    {
        Ledger {
            traces: OrdMap::new(),
            resting_friction: zero,
            forgetting: true,
            residue_seconds: 0,
        }
    }

    /// An empty ledger that never forgets, for replay and comparison.
    pub fn without_forgetting(zero: N) -> (r: Ledger<N>)
        ensures
            r@ == LedgerView::blank(zero, false),
    {
        Ledger {
            traces: OrdMap::new(),
            resting_friction: zero,
            forgetting: false,
            residue_seconds: 0,
        }
    }

    /// Record an observation and return its outrage weight. A trace of the
    /// opposite sentiment on the same key is worn down rather than stacked.
    pub fn record(
        &mut self,
        key: TraceKey,
        sentiment: Sentiment,
        provenance: Provenance,
        felt: Impression<N>,
    ) -> (weight: N)
        ensures
            weight == felt.weight,
            final(self)@ == old(self)@.recorded(key.key(), sentiment, provenance, felt),
            ({
                let before = old(self)@.trace_or_started(
                    key.key(),
                    sentiment,
                    provenance,
                    felt.nothing,
                );
                final(self)@ == LedgerView {
                    traces: old(self)@.traces.insert(
                        key.key(),
                        before.after(sentiment, provenance, felt),
                    ),
                    ..old(self)@
                }
            }),
    {
        let before: Trace<N> = match self.traces.get(&key) {
            Some(t) => *t,
            None => Trace {
                sentiment,
                provenance,
                strength: felt.nothing,
                expectation: felt.nothing,
                idle_derives: 0,
            },
        };
        let known = before.provenance.join(provenance);
        let mut points = before.sentiment;
        let mut strength = felt.remaining;
        if before.sentiment == sentiment {
            strength = known.choose_between(felt.stacked_first_hand, felt.stacked_hearsay);
        } else if felt.spent {
            points = sentiment;
            strength = known.choose_between(felt.turned_first_hand, felt.turned_hearsay);
        }
        let after = Trace {
            sentiment: points,
            provenance: known,
            strength,
            expectation: felt.expectation,
            idle_derives: 0,
        };
        let mut whole = Ledger::new(felt.nothing);
        core::mem::swap(self, &mut whole);
        let Ledger { mut traces, resting_friction, forgetting, residue_seconds } = whole;
        traces.insert(key, after);
        *self = Ledger { traces, resting_friction, forgetting, residue_seconds };
        felt.weight
    }

    /// The derive periods that a spell of so many seconds brings. A spell that
    /// runs backwards brings none, and one below a period is carried over.
    pub fn steps(&self, elapsed_seconds: i64) -> (r: u64)
        ensures
            r == self@.steps(elapsed_seconds as int),
    {
        if !self.forgetting {
            return 0;
        }
        let (steps, _): (u64, i64) = self.spell(elapsed_seconds);
        steps
    }

    fn spell(&self, elapsed_seconds: i64) -> (r: (u64, i64))
        ensures
            r.0 == periods(self@.residue, elapsed_seconds as int).0,
            r.1 == periods(self@.residue, elapsed_seconds as int).1,
    {
        let forward: i64 = if elapsed_seconds > 0 {
            elapsed_seconds
        } else {
            0
        };
        let total: i64 = if self.residue_seconds > i64::MAX - forward {
            i64::MAX
        } else {
            self.residue_seconds + forward
        };
        if total >= 0 {
            let counted: u64 = total as u64;
            ((counted / 1_440), (counted % 1_440) as i64)
        } else {
            let owed: u64 = (-(total + 1)) as u64 + 1;
            ((owed / 1_440), -((owed % 1_440) as i64))
        }
    }

    /// Age the whole ledger by a spell of so many seconds. `left` holds what was
    /// computed for each trace, in the order of [`Ledger::traces`].
    ///
    /// The remainder below one derive period is carried, so that many short
    /// spells age the ledger as much as one long one.
    pub fn decay(&mut self, elapsed_seconds: i64, friction: N, left: Vec<Neglect<N>>)
        requires
            old(self)@.steps(elapsed_seconds as int) > 0 ==> left@.len() == old(self).order().len(),
        ensures
            final(self)@ == old(self)@.aged(
                elapsed_seconds as int,
                friction,
                by_trace(old(self).order(), left@),
            ),
    {
        if !self.forgetting {
            return;
        }
        let (steps, residue): (u64, i64) = self.spell(elapsed_seconds);
        if steps == 0 {
            self.residue_seconds = residue;
            return;
        }
        let mut traces: OrdMap<TraceKey, Trace<N>> = OrdMap::new();
        let keys = self.traces.keys();
        let values = self.traces.values();
        let ghost names = ordered::keys_of(keys@);
        let ghost figures = by_trace(keys@, left@);
        proof {
            ordered::lemma_ascending_distinct(keys@);
        }
        let mut i: usize = 0;
        while i < keys.len()
            invariant
                i <= keys@.len(),
                keys@.len() == values@.len(),
                keys@.len() == left@.len(),
                keys@ == self.traces.key_seq(),
                names == ordered::keys_of(keys@),
                names.no_duplicates(),
                figures == by_trace(keys@, left@),
                forall|k: int|
                    0 <= k < values@.len() ==> #[trigger] values@[k]
                        == self.traces@[self.traces.key_seq()[k].key()],
                forall|key: (Seq<char>, Seq<char>)| #[trigger]
                    traces@.contains_key(key) <==> names.take(i as int).contains(key),
                forall|key: (Seq<char>, Seq<char>)| #[trigger]
                    traces@.contains_key(key) ==> traces@[key] == self.traces@[key].neglected(
                        steps as nat,
                        figures[key],
                    ),
            decreases keys@.len() - i,
        {
            let before: Trace<N> = values[i];
            let now: Neglect<N> = left[i];
            let strength = if before.fading(steps) > 0 {
                before.provenance.choose_between(now.faded_first_hand, now.faded_hearsay)
            } else {
                before.strength
            };
            let after = Trace {
                sentiment: before.sentiment,
                provenance: before.provenance,
                strength,
                expectation: now.expectation,
                idle_derives: before.idle_derives.saturating_add(steps),
            };
            proof {
                let key = names[i as int];
                assert(key == keys@[i as int].key());
                assert(names.contains(key));
                assert(names.index_of(key) == i);
                assert(figures[key] == now);
                assert(values@[i as int] == self.traces@[key]);
                assert(after == before.neglected(steps as nat, now));
                assert(names.take(i + 1) =~= names.take(i as int).push(key));
            }
            let ghost done = traces@;
            traces.insert(keys[i].clone(), after);
            proof {
                let key = names[i as int];
                let some = names.take(i as int);
                let more = names.take(i + 1);
                assert forall|q: (Seq<char>, Seq<char>)| #[trigger] traces@.contains_key(q)
                    <==> more.contains(q) by {
                    assert(done.contains_key(q) == some.contains(q));
                    if some.contains(q) {
                        assert(more[some.index_of(q)] == q);
                    }
                    assert(more[i as int] == key);
                    if more.contains(q) && q != key {
                        assert(some[more.index_of(q)] == q);
                    }
                }
            }
            i = i + 1;
        }
        proof {
            assert(names.take(i as int) =~= names);
            assert forall|key: (Seq<char>, Seq<char>)| #[trigger] traces@.contains_key(key)
                <==> self.traces@.contains_key(key) by {
                assert(names.to_set().contains(key) == self.traces@.dom().contains(key));
                assert(names.to_set().contains(key) == names.contains(key));
            }
            assert(traces@ =~= self@.aged(elapsed_seconds as int, friction, figures).traces);
        }
        self.traces = traces;
        self.resting_friction = friction;
        self.residue_seconds = residue;
    }

    /// The trace for a key, if one is held.
    pub fn trace(&self, key: &TraceKey) -> (r: Option<&Trace<N>>)
        ensures
            match r {
                Some(t) => self@.traces.contains_key(key.key()) && *t == self@.traces[key.key()],
                None => !self@.traces.contains_key(key.key()),
            },
    {
        self.traces.get(key)
    }

    /// Every trace, in the order of counterparty and topic.
    pub fn traces(&self) -> (r: &[Trace<N>])
        ensures
            r@.len() == self.order().len(),
            forall|i: int|
                0 <= i < r@.len() ==> #[trigger] r@[i] == self@.traces[self.order()[i].key()],
    {
        self.traces.values()
    }

    /// The keys of the traces, in order.
    pub fn keys(&self) -> (r: &[TraceKey])
        ensures
            r@ == self.order(),
            ordered::ascending(r@),
            ordered::keys_of(r@).to_set() == self@.traces.dom(),
    {
        self.traces.keys()
    }

    /// The strengths of the traces about a counterparty that point this way, in
    /// the order of their topics.
    pub fn strengths(&self, counterparty: &Slug, sentiment: Sentiment) -> (r: Vec<N>)
        ensures
            r@ == strengths_of(self@.traces, self.order(), counterparty@, sentiment, false),
    {
        self.gather(counterparty, sentiment, false)
    }

    /// The strengths of the first-hand traces about a counterparty that point
    /// this way, in the order of their topics. A grievance among them is what
    /// makes an agent wary.
    pub fn witnessed_strengths(&self, counterparty: &Slug, sentiment: Sentiment) -> (r: Vec<N>)
        ensures
            r@ == strengths_of(self@.traces, self.order(), counterparty@, sentiment, true),
    {
        self.gather(counterparty, sentiment, true)
    }

    fn gather(&self, counterparty: &Slug, sentiment: Sentiment, witnessed: bool) -> (r: Vec<N>)
        ensures
            r@ == strengths_of(self@.traces, self.order(), counterparty@, sentiment, witnessed),
    {
        let keys = self.traces.keys();
        let values = self.traces.values();
        let mut out: Vec<N> = Vec::new();
        let mut i: usize = 0;
        assert(keys@.take(0) =~= Seq::empty());
        while i < keys.len()
            invariant
                i <= keys@.len(),
                keys@.len() == values@.len(),
                keys@ == self.traces.key_seq(),
                forall|k: int|
                    0 <= k < values@.len() ==> #[trigger] values@[k]
                        == self.traces@[self.traces.key_seq()[k].key()],
                out@ == strengths_of(
                    self@.traces,
                    keys@.take(i as int),
                    counterparty@,
                    sentiment,
                    witnessed,
                ),
            decreases keys@.len() - i,
        {
            proof {
                assert(keys@.take(i + 1).drop_last() =~= keys@.take(i as int));
                assert(keys@.take(i + 1).last() == keys@[i as int]);
                assert(values@[i as int] == self.traces@[keys@[i as int].key()]);
            }
            if keys[i].counterparty.same(counterparty) && values[i].sentiment == sentiment && (
            !witnessed || values[i].provenance == Provenance::FirstHand) {
                out.push(values[i].strength);
            }
            i = i + 1;
        }
        assert(keys@.take(i as int) =~= keys@);
        out
    }

    /// Whether neglect ages this ledger.
    pub fn forgets(&self) -> (r: bool)
        ensures
            r == self@.forgetting,
    {
        self.forgetting
    }

    /// Elapsed seconds not yet worth a whole derive period.
    pub fn residue_seconds(&self) -> (r: i64)
        ensures
            r == self@.residue,
    {
        self.residue_seconds
    }

    /// The current resting friction set-point.
    pub fn resting_friction(&self) -> (r: N)
        ensures
            r == self@.resting_friction,
    {
        self.resting_friction
    }

    /// Move the resting set-point to where a strain pushed it.
    pub fn add_strain(&mut self, friction: N)
        ensures
            final(self)@ == (LedgerView { resting_friction: friction, ..old(self)@ }),
    {
        self.resting_friction = friction;
    }
}

impl<N: Copy> Clone for Ledger<N> {
    fn clone(&self) -> (r: Ledger<N>)
        ensures
            r@ == self@,
    {
        let keys = self.traces.keys();
        let values = self.traces.values();
        let ghost names = ordered::keys_of(keys@);
        let mut traces: OrdMap<TraceKey, Trace<N>> = OrdMap::new();
        let mut i: usize = 0;
        while i < keys.len()
            invariant
                i <= keys@.len(),
                keys@.len() == values@.len(),
                keys@ == self.traces.key_seq(),
                names == ordered::keys_of(keys@),
                forall|k: int|
                    0 <= k < values@.len() ==> #[trigger] values@[k]
                        == self.traces@[self.traces.key_seq()[k].key()],
                forall|key: (Seq<char>, Seq<char>)| #[trigger]
                    traces@.contains_key(key) ==> names.contains(key) && traces@[key]
                        == self.traces@[key],
                forall|k: int| 0 <= k < i ==> traces@.contains_key(#[trigger] names[k]),
            decreases keys@.len() - i,
        {
            assert(names[i as int] == keys@[i as int].key());
            traces.insert(keys[i].clone(), values[i]);
            i = i + 1;
        }
        proof {
            assert forall|key: (Seq<char>, Seq<char>)| #[trigger] traces@.contains_key(key)
                <==> self.traces@.contains_key(key) by {
                assert(names.to_set().contains(key) == self.traces@.dom().contains(key));
                if names.contains(key) {
                    assert(traces@.contains_key(names[names.index_of(key)]));
                }
            }
            assert(traces@ =~= self.traces@);
        }
        Ledger {
            traces,
            resting_friction: self.resting_friction,
            forgetting: self.forgetting,
            residue_seconds: self.residue_seconds,
        }
    }
}

/// The strengths of the traces about a counterparty that point this way: of
/// those that were witnessed, or of all.
pub open spec fn strengths_of<N>(
    traces: Map<(Seq<char>, Seq<char>), Trace<N>>,
    order: Seq<TraceKey>,
    counterparty: Seq<char>,
    sentiment: Sentiment,
    witnessed: bool,
) -> Seq<N>
    decreases order.len(),
{
    if order.len() == 0 {
        Seq::empty()
    } else {
        let key = order.last().key();
        let head = strengths_of(traces, order.drop_last(), counterparty, sentiment, witnessed);
        if key.0 == counterparty && traces[key].sentiment == sentiment && (witnessed
            ==> traces[key].provenance is FirstHand) {
            head.push(traces[key].strength)
        } else {
            head
        }
    }
}

/// How a counterparty is read.
pub open spec fn stance_of(
    grudge_passed: bool,
    goodwill_passed: bool,
    grievance_survives: bool,
) -> Stance {
    if grudge_passed {
        Stance::Hostile
    } else if goodwill_passed {
        Stance::Trusted
    } else if grievance_survives {
        Stance::Wary
    } else {
        Stance::Neutral
    }
}

/// How a counterparty is read, given on which side of its threshold the net
/// grudge lies and whether a first-hand grievance at the floor survives.
pub fn stance(grudge_passed: bool, goodwill_passed: bool, grievance_survives: bool) -> (r: Stance)
    ensures
        r == stance_of(grudge_passed, goodwill_passed, grievance_survives),
        r == if grudge_passed {
            Stance::Hostile
        } else if goodwill_passed {
            Stance::Trusted
        } else if grievance_survives {
            Stance::Wary
        } else {
            Stance::Neutral
        },
{
    if grudge_passed {
        Stance::Hostile
    } else if goodwill_passed {
        Stance::Trusted
    } else if grievance_survives {
        Stance::Wary
    } else {
        Stance::Neutral
    }
}

// ---------------------------------------------------------------------------
// Laws
// ---------------------------------------------------------------------------

/// Two spells age a ledger by as many periods as one spell of their length, and
/// carry the same remainder.
pub proof fn law_short_spells_add_up(residue: int, first: int, second: int)
    requires
        0 <= residue < DERIVE_SECONDS,
        0 <= first,
        0 <= second,
        residue + first + second <= i64::MAX,
    ensures
        ({
            let (s1, r1) = periods(residue, first);
            let (s2, r2) = periods(r1, second);
            let (s, r) = periods(residue, first + second);
            s1 + s2 == s && r2 == r
        }),
{
}

/// Two spells of neglect leave a trace alone for as long, and fade it in as many
/// periods, as one spell of their length.
pub proof fn law_neglect_adds_up(idle: nat, first: nat, second: nat)
    requires
        idle + first + second <= u64::MAX,
    ensures
        idle_after(idle_after(idle, first), second) == idle_after(idle, first + second),
        fading_periods(idle, first) + fading_periods(idle_after(idle, first), second)
            == fading_periods(idle, first + second),
{
}

/// A spell that runs backwards ages nothing: what is carried over stays, and no
/// period passes.
pub proof fn law_time_does_not_run_backwards(residue: int, elapsed: int)
    requires
        0 <= residue < DERIVE_SECONDS,
        elapsed <= 0,
    ensures
        periods(residue, elapsed) == (0int, residue),
{
}

/// How time is cut up makes no difference: after two spells a ledger has the
/// traces that one spell of their length leaves it, each with the same sentiment,
/// provenance and time left alone, it has faded them in as many periods, and it
/// carries the same remainder.
pub proof fn law_two_spells_are_one<N>(
    ledger: LedgerView<N>,
    first: int,
    second: int,
    friction: (N, N, N),
    left: (
        Map<(Seq<char>, Seq<char>), Neglect<N>>,
        Map<(Seq<char>, Seq<char>), Neglect<N>>,
        Map<(Seq<char>, Seq<char>), Neglect<N>>,
    ),
)
    requires
        0 <= ledger.residue < DERIVE_SECONDS,
        0 <= first,
        0 <= second,
        ledger.residue + first + second <= i64::MAX,
    ensures
        ({
            let midway = ledger.aged(first, friction.0, left.0);
            let cut = midway.aged(second, friction.1, left.1);
            let whole = ledger.aged(first + second, friction.2, left.2);
            &&& cut.traces.dom() == whole.traces.dom()
            &&& cut.forgetting == whole.forgetting
            &&& cut.residue == whole.residue
            &&& ledger.steps(first) + midway.steps(second) == ledger.steps(first + second)
            &&& forall|key: (Seq<char>, Seq<char>)| #[trigger]
                whole.traces.contains_key(key) ==> {
                    let (a, b) = (cut.traces[key], whole.traces[key]);
                    let (before, between) = (ledger.traces[key], midway.traces[key]);
                    &&& a.sentiment == b.sentiment
                    &&& a.provenance == b.provenance
                    &&& a.idle_derives == b.idle_derives
                    &&& fading_periods(before.idle_derives as nat, ledger.steps(first))
                        + fading_periods(between.idle_derives as nat, midway.steps(second))
                        == fading_periods(before.idle_derives as nat, ledger.steps(first + second))
                }
        }),
{
    let midway = ledger.aged(first, friction.0, left.0);
    let cut = midway.aged(second, friction.1, left.1);
    let whole = ledger.aged(first + second, friction.2, left.2);
    law_neglect_keeps_every_trace(ledger, first, friction.0, left.0);
    law_neglect_keeps_every_trace(midway, second, friction.1, left.1);
    law_neglect_keeps_every_trace(ledger, first + second, friction.2, left.2);
    if ledger.forgetting {
        law_short_spells_add_up(ledger.residue, first, second);
    }
    assert forall|key: (Seq<char>, Seq<char>)| #[trigger] whole.traces.contains_key(key) implies {
        let (a, b) = (cut.traces[key], whole.traces[key]);
        let (before, between) = (ledger.traces[key], midway.traces[key]);
        &&& a.sentiment == b.sentiment
        &&& a.provenance == b.provenance
        &&& a.idle_derives == b.idle_derives
        &&& fading_periods(before.idle_derives as nat, ledger.steps(first)) + fading_periods(
            between.idle_derives as nat,
            midway.steps(second),
        ) == fading_periods(before.idle_derives as nat, ledger.steps(first + second))
    } by {
        assert(ledger.traces.dom().contains(key));
        assert(midway.traces.dom().contains(key));
        assert(cut.traces.dom().contains(key));
    }
}

/// A ledger that carries less than a period carries less than one after any
/// spell.
pub proof fn law_less_than_a_period_is_carried<N>(
    ledger: LedgerView<N>,
    elapsed: int,
    friction: N,
    left: Map<(Seq<char>, Seq<char>), Neglect<N>>,
)
    requires
        0 <= ledger.residue < DERIVE_SECONDS,
    ensures
        0 <= ledger.aged(elapsed, friction, left).residue < DERIVE_SECONDS,
{
}

/// A spell of no length, or one that runs backwards, leaves a ledger as it was.
pub proof fn law_no_time_changes_nothing<N>(
    ledger: LedgerView<N>,
    elapsed: int,
    friction: N,
    left: Map<(Seq<char>, Seq<char>), Neglect<N>>,
)
    requires
        0 <= ledger.residue < DERIVE_SECONDS,
        elapsed <= 0,
    ensures
        ledger.aged(elapsed, friction, left) == ledger,
{
    law_time_does_not_run_backwards(ledger.residue, elapsed);
}

/// A trace that is revived does not fade before the grace window has passed
/// again.
pub proof fn law_a_revived_trace_has_its_grace<N>(
    trace: Trace<N>,
    sentiment: Sentiment,
    provenance: Provenance,
    felt: Impression<N>,
    steps: nat,
    left: Neglect<N>,
)
    requires
        steps <= GRACE_DERIVES,
    ensures
        ({
            let revived = trace.after(sentiment, provenance, felt);
            revived.neglected(steps, left).strength == revived.strength
        }),
{
}

/// What was witnessed stays witnessed: no later event and no neglect makes
/// hearsay of it.
pub proof fn law_witnessing_outranks_being_told<N>(
    trace: Trace<N>,
    sentiment: Sentiment,
    provenance: Provenance,
    felt: Impression<N>,
    steps: nat,
    left: Neglect<N>,
)
    requires
        trace.provenance is FirstHand,
    ensures
        trace.after(sentiment, provenance, felt).provenance is FirstHand,
        trace.neglected(steps, left).provenance is FirstHand,
{
}

/// A ledger that never forgets is frozen: no spell changes it.
pub proof fn law_without_forgetting_nothing_ages<N>(
    ledger: LedgerView<N>,
    elapsed: int,
    friction: N,
    left: Map<(Seq<char>, Seq<char>), Neglect<N>>,
)
    requires
        !ledger.forgetting,
    ensures
        ledger.aged(elapsed, friction, left) == ledger,
{
}

/// Neglect adds no trace and takes none away.
pub proof fn law_neglect_keeps_every_trace<N>(
    ledger: LedgerView<N>,
    elapsed: int,
    friction: N,
    left: Map<(Seq<char>, Seq<char>), Neglect<N>>,
)
    ensures
        ledger.aged(elapsed, friction, left).traces.dom() == ledger.traces.dom(),
{
    assert(ledger.aged(elapsed, friction, left).traces.dom() =~= ledger.traces.dom());
}

/// Traces rebuilt from what was stored of them are those traces.
pub proof fn law_stored_traces_come_back<N>(
    stored: Map<(Seq<char>, Seq<char>), Trace<N>>,
    entries: Seq<(TraceKey, Trace<N>)>,
)
    requires
        forall|i: int|
            0 <= i < entries.len() ==> stored.contains_key(#[trigger] entries[i].0.key()) && stored[entries[i].0.key()]
                == entries[i].1,
        forall|key: (Seq<char>, Seq<char>)| #[trigger]
            stored.contains_key(key) ==> exists|i: int|
                0 <= i < entries.len() && #[trigger] entries[i].0.key() == key,
    ensures
        entered(entries) == stored,
{
    lemma_entered(stored, entries);
    assert forall|key: (Seq<char>, Seq<char>)| #[trigger] stored.contains_key(key) implies entered(
        entries,
    ).contains_key(key) by {
        let i = choose|i: int| 0 <= i < entries.len() && #[trigger] entries[i].0.key() == key;
        assert(entered(entries).contains_key(entries[i].0.key()));
    }
    assert(entered(entries) =~= stored);
}

/// Entries that agree with a map give a part of it that has all of them.
proof fn lemma_entered<N>(
    stored: Map<(Seq<char>, Seq<char>), Trace<N>>,
    entries: Seq<(TraceKey, Trace<N>)>,
)
    requires
        forall|i: int|
            0 <= i < entries.len() ==> stored.contains_key(#[trigger] entries[i].0.key()) && stored[entries[i].0.key()]
                == entries[i].1,
    ensures
        forall|key: (Seq<char>, Seq<char>)| #[trigger]
            entered(entries).contains_key(key) ==> stored.contains_key(key) && entered(entries)[key]
                == stored[key],
        forall|i: int|
            0 <= i < entries.len() ==> entered(entries).contains_key(#[trigger] entries[i].0.key()),
    decreases entries.len(),
{
    if entries.len() > 0 {
        let head = entries.drop_last();
        let last = entries[entries.len() - 1];
        assert(stored.contains_key(last.0.key()));
        assert forall|i: int| 0 <= i < head.len() implies stored.contains_key(
            #[trigger] head[i].0.key(),
        ) && stored[head[i].0.key()] == head[i].1 by {
            assert(head[i] == entries[i]);
            assert(stored.contains_key(entries[i].0.key()));
        }
        lemma_entered(stored, head);
        assert forall|key: (Seq<char>, Seq<char>)| #[trigger] entered(entries).contains_key(key) implies stored.contains_key(
            key,
        ) && entered(entries)[key] == stored[key] by {
            if key != last.0.key() {
                assert(entered(head).contains_key(key));
            }
        }
        assert forall|i: int| 0 <= i < entries.len() implies entered(entries).contains_key(
            #[trigger] entries[i].0.key(),
        ) by {
            if i < head.len() {
                assert(head[i] == entries[i]);
                assert(entered(head).contains_key(head[i].0.key()));
            }
        }
    }
}

/// An event that points the same way strengthens a trace and never turns it.
pub proof fn law_the_same_again_strengthens<N>(
    trace: Trace<N>,
    provenance: Provenance,
    felt: Impression<N>,
)
    ensures
        ({
            let then = trace.after(trace.sentiment, provenance, felt);
            let witnessed = trace.provenance is FirstHand || provenance is FirstHand;
            &&& then.sentiment == trace.sentiment
            &&& witnessed ==> then.strength == felt.stacked_first_hand
            &&& !witnessed ==> then.strength == felt.stacked_hearsay
        }),
{
}

/// An event that points the other way wears a trace down. While something of it
/// remains, that is what it is, and it points where it pointed; once nothing does,
/// it points the way of the event, by what the event exceeded it by. No event
/// leaves a spent trace pointing against it.
pub proof fn law_a_spent_trace_points_the_other_way<N>(
    trace: Trace<N>,
    sentiment: Sentiment,
    provenance: Provenance,
    felt: Impression<N>,
)
    ensures
        ({
            let then = trace.after(sentiment, provenance, felt);
            let witnessed = trace.provenance is FirstHand || provenance is FirstHand;
            &&& felt.spent ==> then.sentiment == sentiment
            &&& sentiment != trace.sentiment && felt.spent && witnessed ==> then.strength
                == felt.turned_first_hand
            &&& sentiment != trace.sentiment && felt.spent && !witnessed ==> then.strength
                == felt.turned_hearsay
            &&& sentiment != trace.sentiment && !felt.spent ==> then.strength == felt.remaining
                && then.sentiment == trace.sentiment
        }),
{
}

/// Two events that each leave nothing of what they find turn a trace and turn it
/// back.
pub proof fn law_turning_twice_is_turning_back<N>(
    trace: Trace<N>,
    against: Sentiment,
    first: (Provenance, Impression<N>),
    second: (Provenance, Impression<N>),
)
    requires
        against != trace.sentiment,
        first.1.spent,
        second.1.spent,
    ensures
        trace.after(against, first.0, first.1).sentiment != trace.sentiment,
        trace.after(against, first.0, first.1).after(
            trace.sentiment,
            second.0,
            second.1,
        ).sentiment == trace.sentiment,
{
}

/// Every event revives a trace and sets what is expected next; a trace is
/// first-hand from the first event on that was.
pub proof fn law_every_event_revives<N>(
    trace: Trace<N>,
    sentiment: Sentiment,
    provenance: Provenance,
    felt: Impression<N>,
)
    ensures
        ({
            let then = trace.after(sentiment, provenance, felt);
            &&& then.idle_derives == 0
            &&& then.expectation == felt.expectation
            &&& then.provenance is FirstHand <==> trace.provenance is FirstHand
                || provenance is FirstHand
        }),
{
}

/// The first event under a key starts a trace that points its way, held as the
/// event was come by.
pub proof fn law_a_first_event_starts_a_trace<N>(
    ledger: LedgerView<N>,
    key: (Seq<char>, Seq<char>),
    sentiment: Sentiment,
    provenance: Provenance,
    felt: Impression<N>,
)
    requires
        !ledger.traces.contains_key(key),
    ensures
        ({
            let then = ledger.trace_or_started(key, sentiment, provenance, felt.nothing).after(
                sentiment,
                provenance,
                felt,
            );
            &&& then.sentiment == sentiment
            &&& then.provenance == provenance
            &&& provenance is FirstHand ==> then.strength == felt.stacked_first_hand
            &&& provenance is Hearsay ==> then.strength == felt.stacked_hearsay
        }),
{
}

/// Seconds are neither lost nor made: the periods of a spell and what is carried
/// over come to what was carried before and the length of the spell.
pub proof fn law_seconds_are_neither_lost_nor_made(residue: int, elapsed: int)
    requires
        0 <= residue < 1_440,
        residue + elapsed <= i64::MAX,
    ensures
        ({
            let (steps, carried) = periods(residue, elapsed);
            &&& elapsed >= 0 ==> steps * 1_440 + carried == residue + elapsed
            &&& elapsed < 0 ==> steps == 0 && carried == residue
            &&& 0 <= carried < 1_440
        }),
{
}

/// A trace fades in the periods that lie past its first hundred and eighty, and in
/// no other: each period before that is free, each one after it counts.
pub proof fn law_a_period_fades_past_the_grace(idle: nat, steps: nat)
    requires
        idle + steps <= u64::MAX,
    ensures
        idle_after(idle, steps) == idle + steps,
        idle + steps <= 180 ==> fading_periods(idle, steps) == 0,
        idle <= 180 <= idle + steps ==> fading_periods(idle, steps) == idle + steps - 180,
        idle >= 180 ==> fading_periods(idle, steps) == steps,
{
}

/// What neglect does to a trace. It keeps its direction and its provenance and has
/// been left alone for longer; it pales only past the grace window, to the floor of
/// its own provenance.
pub proof fn law_neglect_pales_and_no_more<N>(trace: Trace<N>, steps: nat, left: Neglect<N>)
    requires
        trace.idle_derives + steps <= u64::MAX,
        steps > 0,
    ensures
        ({
            let then = trace.neglected(steps, left);
            let past_grace = trace.idle_derives + steps > 180;
            &&& then.sentiment == trace.sentiment
            &&& then.provenance == trace.provenance
            &&& then.expectation == left.expectation
            &&& then.idle_derives == trace.idle_derives + steps
            &&& !past_grace ==> then.strength == trace.strength
            &&& past_grace && trace.provenance is FirstHand ==> then.strength
                == left.faded_first_hand
            &&& past_grace && trace.provenance is Hearsay ==> then.strength == left.faded_hearsay
        }),
{
}

/// A ledger that forgets ages each of its traces by the periods of the spell, with
/// the numbers of that trace, and takes the new friction; below one period only
/// what is carried over changes.
pub proof fn law_a_spell_ages_every_trace<N>(
    ledger: LedgerView<N>,
    elapsed: int,
    friction: N,
    left: Map<(Seq<char>, Seq<char>), Neglect<N>>,
)
    requires
        ledger.forgetting,
        0 <= ledger.residue < 1_440,
        0 <= elapsed,
        ledger.residue + elapsed <= i64::MAX,
    ensures
        ({
            let then = ledger.aged(elapsed, friction, left);
            let total = ledger.residue + elapsed;
            &&& total < 1_440 ==> then == (LedgerView { residue: total, ..ledger })
            &&& total >= 1_440 ==> {
                &&& then.resting_friction == friction
                &&& then.forgetting
                &&& then.residue == total % 1_440
                &&& forall|key: (Seq<char>, Seq<char>)| #[trigger]
                    ledger.traces.contains_key(key) ==> then.traces.contains_key(key)
                        && then.traces[key] == ledger.traces[key].neglected(
                        (total / 1_440) as nat,
                        left[key],
                    )
            }
        }),
{
}

/// How a counterparty is read: a grudge past its threshold makes hostile, goodwill
/// past its own makes trusted where there is no such grudge, and only between the
/// two a surviving grievance makes wary.
pub proof fn law_a_grudge_outweighs_goodwill_outweighs_a_grievance(
    grudge: bool,
    goodwill: bool,
    grievance: bool,
)
    ensures
        stance_of(grudge, goodwill, grievance) is Hostile <==> grudge,
        stance_of(grudge, goodwill, grievance) is Trusted <==> goodwill && !grudge,
        stance_of(grudge, goodwill, grievance) is Wary <==> grievance && !grudge && !goodwill,
        stance_of(grudge, goodwill, grievance) is Neutral <==> !grudge && !goodwill && !grievance,
{
}

/// What is adverse counts down and what is favourable counts up, by as much.
pub proof fn law_sentiments_have_opposite_signs(a: Sentiment, b: Sentiment)
    ensures
        a != b ==> a.sign() == -b.sign(),
        a is Adverse ==> a.sign() == -1,
{
}

/// One more trace adds its strength to what is gathered about a counterparty
/// exactly where it is about them, points the way that is asked for and, where only
/// what was witnessed counts, was.
pub proof fn law_strengths_are_gathered_trace_by_trace<N>(
    traces: Map<(Seq<char>, Seq<char>), Trace<N>>,
    order: Seq<TraceKey>,
    next: TraceKey,
    counterparty: Seq<char>,
    sentiment: Sentiment,
    witnessed: bool,
)
    ensures
        ({
            let before = strengths_of(traces, order, counterparty, sentiment, witnessed);
            let then = strengths_of(traces, order.push(next), counterparty, sentiment, witnessed);
            let trace = traces[next.key()];
            let counts = next.counterparty@ == counterparty && trace.sentiment == sentiment && (
            trace.provenance is FirstHand || !witnessed);
            &&& counts ==> then == before.push(trace.strength)
            &&& !counts ==> then == before
        }),
        strengths_of(traces, Seq::empty(), counterparty, sentiment, witnessed).len() == 0,
{
    assert(order.push(next).drop_last() =~= order);
}

/// Of stored traces under one key the last counts.
pub proof fn law_the_last_stored_trace_counts<N>(
    entries: Seq<(TraceKey, Trace<N>)>,
    next: (TraceKey, Trace<N>),
    key: (Seq<char>, Seq<char>),
)
    ensures
        ({
            let then = entered(entries.push(next));
            &&& then.contains_key(next.0.key()) && then[next.0.key()] == next.1
            &&& key != next.0.key() ==> {
                &&& then.contains_key(key) <==> entered(entries).contains_key(key)
                &&& then.contains_key(key) ==> then[key] == entered(entries)[key]
            }
        }),
{
    assert(entries.push(next).drop_last() =~= entries);
}

/// An event is about one key: it moves the trace there and no other, and touches
/// neither the friction nor the time that is carried over.
pub proof fn law_an_event_moves_one_trace<N>(
    ledger: LedgerView<N>,
    key: (Seq<char>, Seq<char>),
    sentiment: Sentiment,
    provenance: Provenance,
    felt: Impression<N>,
    other: (Seq<char>, Seq<char>),
)
    ensures
        ({
            let then = ledger.recorded(key, sentiment, provenance, felt);
            &&& then.traces.contains_key(key)
            &&& ledger.traces.contains_key(key) ==> then.traces[key] == ledger.traces[key].after(
                sentiment,
                provenance,
                felt,
            )
            &&& !ledger.traces.contains_key(key) ==> then.traces[key].sentiment == sentiment
                && then.traces[key].provenance == provenance
            &&& felt.spent ==> then.traces[key].sentiment == sentiment
            &&& other != key ==> {
                &&& then.traces.contains_key(other) <==> ledger.traces.contains_key(other)
                &&& then.traces.contains_key(other) ==> then.traces[other] == ledger.traces[other]
            }
            &&& then.resting_friction == ledger.resting_friction
            &&& then.residue == ledger.residue
            &&& then.forgetting == ledger.forgetting
        }),
{
}

} // verus!
