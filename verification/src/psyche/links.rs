//! Relational trust: links built and broken, one per counterparty.
//!
//! Trust is earned, never assigned, and a break is a scar: it is set once and
//! never cleared. This module keeps the links, decides when one breaks and how a
//! counterparty stands, and ranks them. The confidence itself is of a type `N`
//! that it never looks into; the caller computes it.
use crate::ids::Slug;
use crate::ordered;
use crate::ordered::{OrdMap, Ordered};
use crate::text;
use crate::text::comes_before;
use crate::time::Timestamp;
use vstd::prelude::*;

verus! {

/// Whether an event is good or bad news about the counterparty.
#[derive(Debug, Clone, Copy, PartialEq, Eq, Structural, PartialOrd, Ord, Hash)]
pub enum Polarity {
    /// The counterparty did well by us.
    Good,
    /// The counterparty did badly by us.
    Bad,
}

/// A recorded fact about a counterparty that moves trust.
#[derive(Debug, Clone, Copy, PartialEq, Eq, Structural, PartialOrd, Ord, Hash)]
pub enum TrustEvent {
    /// A commitment was honoured.
    PromiseKept,
    /// An agreed term was violated.
    CommitmentBroken,
    /// A fault we have already seen from them happened again.
    FaultRepeated,
}

impl TrustEvent {
    /// The unweighted increment of confidence, in hundredths.
    pub open spec fn hundredths(self) -> int {
        match self {
            TrustEvent::PromiseKept => 10,
            TrustEvent::CommitmentBroken => -25,
            TrustEvent::FaultRepeated => -10,
        }
    }

    /// Good or bad news.
    pub open spec fn news(self) -> Polarity {
        match self {
            TrustEvent::PromiseKept => Polarity::Good,
            TrustEvent::CommitmentBroken => Polarity::Bad,
            TrustEvent::FaultRepeated => Polarity::Bad,
        }
    }

    /// The unweighted increment of confidence, in hundredths.
    pub fn delta(self) -> (r: i8)
        ensures
            r == self.hundredths(),
    {
        match self {
            TrustEvent::PromiseKept => 10,
            TrustEvent::CommitmentBroken => -25,
            TrustEvent::FaultRepeated => -10,
        }
    }

    /// Good or bad news.
    pub fn polarity(self) -> (r: Polarity)
        ensures
            r == self.news(),
    {
        match self {
            TrustEvent::PromiseKept => Polarity::Good,
            TrustEvent::CommitmentBroken | TrustEvent::FaultRepeated => Polarity::Bad,
        }
    }
}

/// How a counterparty currently stands, for tone and prioritisation only.
#[derive(Debug, Clone, Copy, PartialEq, Eq, Structural, PartialOrd, Ord, Hash)]
pub enum Standing {
    /// Confidence is high, and the link was never broken.
    Close,
    /// Neither close nor distrusted, including everyone never dealt with.
    Neutral,
    /// Confidence is low.
    Wary,
}

/// Where a confidence lies.
#[derive(Debug, Clone, Copy, PartialEq, Eq, Structural)]
pub enum Band {
    /// At or above the mark from which a counterparty counts as close.
    High,
    /// Between the marks.
    Middle,
    /// At or below the mark under which a counterparty is distrusted.
    Low,
}

/// The felt weight of one event, given the history with its counterparty.
#[derive(Debug, Clone, Copy, PartialEq, Eq, Structural)]
pub struct Appraisal {
    /// Where the counterparty stands right now.
    pub standing: Standing,
    /// Whether the link has ever been broken.
    pub broken: bool,
    /// Multiplier on the felt weight of the event, in halves: two when the
    /// relationship says nothing.
    pub factor_halves: u8,
}

/// How a counterparty stands: the scar of a broken link caps it.
pub open spec fn standing_of(band: Band, broken: bool) -> Standing {
    match band {
        Band::High => if broken {
            Standing::Neutral
        } else {
            Standing::Close
        },
        Band::Middle => Standing::Neutral,
        Band::Low => Standing::Wary,
    }
}

/// The multiplier on the felt weight of an event, in halves.
pub open spec fn felt_halves(polarity: Polarity, standing: Standing) -> u8 {
    match (polarity, standing) {
        (Polarity::Bad, Standing::Close) => 4,
        (Polarity::Bad, Standing::Wary) => 1,
        (Polarity::Good, Standing::Wary) => 3,
        _ => 2,
    }
}

/// Trust in one counterparty.
#[derive(Debug, Clone, Copy, PartialEq, Eq)]
pub struct TrustLink<N> {
    confidence: N,
    broken_at: Option<Timestamp>,
}

/// A [`TrustLink`] as a mathematical value.
pub struct LinkView<N> {
    pub confidence: N,
    pub broken_at: Option<Timestamp>,
}

/// What one recorded event did to a link.
#[derive(Debug, Clone, Copy, PartialEq, Eq)]
pub struct LinkChange<N> {
    /// The event that was recorded.
    pub event: TrustEvent,
    /// Confidence before it.
    pub before: N,
    /// Confidence after it.
    pub after: N,
    /// Whether this event broke the link. True at most once per link.
    pub broke: bool,
}

/// The numbers that one event leads to, computed from the link before it.
#[derive(Debug, Clone, Copy, PartialEq, Eq)]
pub struct Blow<N> {
    /// Confidence after the event.
    pub after: N,
    /// Confidence fell by more than a break takes.
    pub collapsed: bool,
    /// Confidence had been built up enough to be broken.
    pub breakable: bool,
}

/// A stored link that is none.
#[derive(Debug, Clone, PartialEq, Eq)]
pub enum LinkError<N> {
    /// Stored confidence was not a finite number from nought to one.
    Confidence {
        /// The rejected value.
        got: N,
    },
}

impl<N> View for TrustLink<N> {
    type V = LinkView<N>;

    closed spec fn view(&self) -> LinkView<N> {
        LinkView { confidence: self.confidence, broken_at: self.broken_at }
    }
}

impl<N> LinkView<N> {
    /// A counterparty never dealt with.
    pub open spec fn fresh(base: N) -> LinkView<N> {
        LinkView { confidence: base, broken_at: None }
    }

    /// The event breaks the link: it collapses from a height worth the name,
    /// and there was no break before.
    pub open spec fn breaks(self, blow: Blow<N>) -> bool {
        blow.collapsed && blow.breakable && self.broken_at is None
    }

    /// The link after an event.
    pub open spec fn after(self, blow: Blow<N>, now: Timestamp) -> LinkView<N> {
        LinkView {
            confidence: blow.after,
            broken_at: if self.breaks(blow) {
                Some(now)
            } else {
                self.broken_at
            },
        }
    }

    /// The link after a whole history.
    pub open spec fn after_all(self, history: Seq<(Blow<N>, Timestamp)>) -> LinkView<N>
        decreases history.len(),
    {
        if history.len() == 0 {
            self
        } else {
            self.after_all(history.drop_last()).after(history.last().0, history.last().1)
        }
    }
}

impl Appraisal {
    /// What [`Appraisal::of`] returns: `None` is a counterparty never dealt
    /// with, which weighs neutrally.
    pub open spec fn weighed<N>(
        link: Option<LinkView<N>>,
        band: Band,
        polarity: Polarity,
    ) -> Appraisal {
        let standing = match link {
            Some(l) => standing_of(band, l.broken_at is Some),
            None => Standing::Neutral,
        };
        Appraisal {
            standing,
            broken: match link {
                Some(l) => l.broken_at is Some,
                None => false,
            },
            factor_halves: felt_halves(polarity, standing),
        }
    }

    /// Weigh an event against a link whose confidence lies in `band`.
    pub fn of<N: Copy>(link: Option<&TrustLink<N>>, band: Band, polarity: Polarity) -> (r:
        Appraisal)
        ensures
            r == Appraisal::weighed(
                match link {
                    Some(l) => Some(l@),
                    None => None,
                },
                band,
                polarity,
            ),
    {
        let (standing, broken): (Standing, bool) = match link {
            Some(l) => (l.standing(band), l.is_broken()),
            None => (Standing::Neutral, false),
        };
        let factor_halves: u8 = match (polarity, standing) {
            (Polarity::Bad, Standing::Close) => 4,
            (Polarity::Bad, Standing::Wary) => 1,
            (Polarity::Good, Standing::Wary) => 3,
            _ => 2,
        };
        Appraisal { standing, broken, factor_halves }
    }
}

impl<N: Copy> TrustLink<N> {
    /// A counterparty we have never dealt with: the base confidence, intact.
    pub fn fresh(base: N) -> (r: TrustLink<N>)
        ensures
            r@ == LinkView::fresh(base),
    {
        TrustLink { confidence: base, broken_at: None }
    }

    /// Rebuild a stored link, unless its confidence is outside the model.
    pub fn restore(confidence: N, sound: bool, broken_at: Option<Timestamp>) -> (r: Result<
        TrustLink<N>,
        LinkError<N>,
    >)
        ensures
            match r {
                Ok(l) => sound && l@ == (LinkView { confidence, broken_at }),
                Err(e) => !sound && e == (LinkError::Confidence { got: confidence }),
            },
    {
        if !sound {
            return Err(LinkError::Confidence { got: confidence });
        }
        Ok(TrustLink { confidence, broken_at })
    }

    /// Current confidence.
    pub fn confidence(&self) -> (r: N)
        ensures
            r == self@.confidence,
    {
        self.confidence
    }

    /// When the link broke, if it ever did. Never cleared.
    pub fn broken_at(&self) -> (r: Option<Timestamp>)
        ensures
            r == self@.broken_at,
    {
        self.broken_at
    }

    /// Whether this link has ever been broken.
    pub fn is_broken(&self) -> (r: bool)
        ensures
            r == self@.broken_at is Some,
    {
        self.broken_at.is_some()
    }

    /// Where the counterparty stands, given where its confidence lies. A broken
    /// link never reads as close again.
    pub fn standing(&self, band: Band) -> (r: Standing)
        ensures
            r == standing_of(band, self@.broken_at is Some),
    {
        match band {
            Band::High => if self.is_broken() {
                Standing::Neutral
            } else {
                Standing::Close
            },
            Band::Middle => Standing::Neutral,
            Band::Low => Standing::Wary,
        }
    }

    /// Move confidence by one event.
    pub fn apply(&mut self, event: TrustEvent, blow: Blow<N>, now: Timestamp) -> (r: LinkChange<N>)
        ensures
            final(self)@ == old(self)@.after(blow, now),
            r == change_of(old(self)@, event, blow),
            r == (LinkChange {
                event,
                before: old(self)@.confidence,
                after: blow.after,
                broke: old(self)@.breaks(blow),
            }),
    {
        let before = self.confidence;
        self.confidence = blow.after;
        let broke = blow.collapsed && blow.breakable && self.broken_at.is_none();
        if broke {
            self.broken_at = Some(now);
        }
        LinkChange { event, before, after: blow.after, broke }
    }
}

// ---------------------------------------------------------------------------
// The ledger
// ---------------------------------------------------------------------------

/// Every trust link the agent holds, in the order of the handles.
#[derive(Debug, Clone, PartialEq, Eq)]
pub struct TrustLedger<N> {
    links: OrdMap<Slug, TrustLink<N>>,
}

/// The links as mathematical values.
pub open spec fn links_in<N>(links: Map<Seq<char>, TrustLink<N>>) -> Map<
    Seq<char>,
    LinkView<N>,
> {
    links.map_values(|l: TrustLink<N>| l@)
}

/// What stored links amount to: of several under one handle the last counts.
pub open spec fn entered<N>(entries: Seq<(Slug, TrustLink<N>)>) -> Map<Seq<char>, LinkView<N>>
    decreases entries.len(),
{
    if entries.len() == 0 {
        Map::empty()
    } else {
        entered(entries.drop_last()).insert(entries.last().0@, entries.last().1@)
    }
}

/// The link with a counterparty, or that of a stranger.
pub open spec fn link_or_fresh<N>(
    links: Map<Seq<char>, LinkView<N>>,
    who: Seq<char>,
    base: N,
) -> LinkView<N> {
    if links.contains_key(who) {
        links[who]
    } else {
        LinkView::fresh(base)
    }
}

/// The links after an event with a counterparty.
pub open spec fn links_after<N>(
    links: Map<Seq<char>, LinkView<N>>,
    who: Seq<char>,
    base: N,
    blow: Blow<N>,
    now: Timestamp,
) -> Map<Seq<char>, LinkView<N>> {
    links.insert(who, link_or_fresh(links, who, base).after(blow, now))
}

/// What an event did to a link.
pub open spec fn change_of<N>(link: LinkView<N>, event: TrustEvent, blow: Blow<N>) -> LinkChange<
    N,
> {
    LinkChange { event, before: link.confidence, after: blow.after, broke: link.breaks(blow) }
}

impl<N> View for TrustLedger<N> {
    type V = Map<Seq<char>, LinkView<N>>;

    closed spec fn view(&self) -> Map<Seq<char>, LinkView<N>> {
        links_in(self.links@)
    }
}

impl<N> TrustLedger<N> {
    /// The handles of the links, in order.
    pub closed spec fn order(&self) -> Seq<Slug> {
        self.links.key_seq()
    }
}

/// The place of a counterparty in a ranking: a higher rank comes first, and
/// between equal ranks the handle decides.
struct Place {
    rank: i64,
    handle: Slug,
}

impl Ordered for Place {
    type Key = (i64, Seq<char>);

    closed spec fn key(&self) -> (i64, Seq<char>) {
        (self.rank, self.handle@)
    }

    open spec fn before(a: (i64, Seq<char>), b: (i64, Seq<char>)) -> bool {
        a.0 > b.0 || (a.0 == b.0 && text::text_before(a.1, b.1))
    }

    proof fn before_irreflexive(a: (i64, Seq<char>)) {
        text::lemma_text_before_irreflexive(a.1);
    }

    proof fn before_transitive(a: (i64, Seq<char>), b: (i64, Seq<char>), c: (i64, Seq<char>)) {
        if text::text_before(a.1, b.1) && text::text_before(b.1, c.1) {
            text::lemma_text_before_transitive(a.1, b.1, c.1);
        }
    }

    proof fn before_total(a: (i64, Seq<char>), b: (i64, Seq<char>)) {
        if a.1 != b.1 {
            text::lemma_text_before_total(a.1, b.1);
        }
    }

    fn precedes(&self, other: &Self) -> (r: bool) {
        self.rank > other.rank || (self.rank == other.rank && comes_before(
            self.handle.as_str(),
            other.handle.as_str(),
        ))
    }

    fn duplicate(&self) -> (r: Self) {
        Place { rank: self.rank, handle: self.handle.clone() }
    }
}

impl<N: Copy> TrustLedger<N> {
    /// An agent that has dealt with nobody.
    pub fn new() -> (r: TrustLedger<N>)
        ensures
            r@ == Map::<Seq<char>, LinkView<N>>::empty(),
    {
        let r = TrustLedger { links: OrdMap::new() };
        assert(r@ =~= Map::<Seq<char>, LinkView<N>>::empty());
        r
    }

    /// Rehydrate a ledger from its links.
    pub fn restore(entries: Vec<(Slug, TrustLink<N>)>) -> (r: TrustLedger<N>)
        ensures
            r@ == entered(entries@),
    {
        let mut ledger = TrustLedger::new();
        for i in 0..entries.len()
            invariant
                ledger@ == entered(entries@.take(i as int)),
        {
            let (who, link) = &entries[i];
            proof {
                assert(entries@.take(i + 1).drop_last() =~= entries@.take(i as int));
                assert(links_in(ledger.links@.insert(who@, *link)) =~= links_in(
                    ledger.links@,
                ).insert(who@, link@));
            }
            ledger.links.insert(who.clone(), *link);
        }
        assert(entries@.take(entries@.len() as int) =~= entries@);
        ledger
    }

    /// The link with one counterparty, if any event has ever been recorded
    /// against it.
    pub fn get(&self, counterparty: &Slug) -> (r: Option<&TrustLink<N>>)
        ensures
            match r {
                Some(l) => self@.contains_key(counterparty@) && l@ == self@[counterparty@],
                None => !self@.contains_key(counterparty@),
            },
    {
        self.links.get(counterparty)
    }

    /// Confidence in one counterparty, the base confidence for a stranger.
    pub fn confidence(&self, counterparty: &Slug, base: N) -> (r: N)
        ensures
            r == link_or_fresh(self@, counterparty@, base).confidence,
            r == if self@.contains_key(counterparty@) {
                self@[counterparty@].confidence
            } else {
                base
            },
    {
        match self.get(counterparty) {
            Some(l) => l.confidence(),
            None => base,
        }
    }

    /// Weigh a hypothetical event against the current relationship. Changes
    /// nothing.
    pub fn appraise(&self, counterparty: &Slug, band: Band, polarity: Polarity) -> (r: Appraisal)
        ensures
            r == Appraisal::weighed(
                if self@.contains_key(counterparty@) {
                    Some(self@[counterparty@])
                } else {
                    None
                },
                band,
                polarity,
            ),
    {
        Appraisal::of(self.get(counterparty), band, polarity)
    }

    /// Record a fact about a counterparty and move its confidence. A link is
    /// made at the base confidence the first time.
    pub fn record(
        &mut self,
        counterparty: &Slug,
        base: N,
        event: TrustEvent,
        blow: Blow<N>,
        now: Timestamp,
    ) -> (r: LinkChange<N>)
        ensures
            final(self)@ == links_after(old(self)@, counterparty@, base, blow, now),
            r == change_of(link_or_fresh(old(self)@, counterparty@, base), event, blow),
            ({
                let before = if old(self)@.contains_key(counterparty@) {
                    old(self)@[counterparty@]
                } else {
                    LinkView::fresh(base)
                };
                &&& final(self)@ == old(self)@.insert(counterparty@, before.after(blow, now))
                &&& r == (LinkChange {
                    event,
                    before: before.confidence,
                    after: blow.after,
                    broke: before.breaks(blow),
                })
            }),
    {
        let mut link = match self.links.get(counterparty) {
            Some(l) => *l,
            None => TrustLink::fresh(base),
        };
        let change = link.apply(event, blow, now);
        let ghost before = self.links@;
        self.links.insert(counterparty.clone(), link);
        assert(links_in(self.links@) =~= links_in(before).insert(counterparty@, link@));
        change
    }

    /// Every link, in handle order.
    pub fn iter(&self) -> (r: Vec<(&Slug, &TrustLink<N>)>)
        ensures
            r@.len() == self.order().len(),
            forall|i: int|
                0 <= i < r@.len() ==> {
                    &&& *(#[trigger] r@[i]).0 == self.order()[i]
                    &&& self@.contains_key(r@[i].0@)
                    &&& r@[i].1@ == self@[r@[i].0@]
                },
            ordered::ascending(self.order()),
            ordered::keys_of(self.order()).to_set() == self@.dom(),
    {
        let keys = self.links.keys();
        let values = self.links.values();
        proof {
            assert(self@.dom() =~= self.links@.dom());
        }
        let mut out: Vec<(&Slug, &TrustLink<N>)> = Vec::new();
        let mut i: usize = 0;
        while i < keys.len()
            invariant
                i <= keys@.len(),
                keys@.len() == values@.len(),
                keys@ == self.links.key_seq(),
                self@.dom() == self.links@.dom(),
                ordered::keys_of(keys@).to_set() == self.links@.dom(),
                forall|k: int|
                    0 <= k < values@.len() ==> #[trigger] values@[k]
                        == self.links@[self.links.key_seq()[k].key()],
                out@.len() == i,
                forall|k: int|
                    0 <= k < i ==> {
                        &&& *(#[trigger] out@[k]).0 == keys@[k]
                        &&& self@.contains_key(out@[k].0@)
                        &&& out@[k].1@ == self@[out@[k].0@]
                    },
            decreases keys@.len() - i,
        {
            proof {
                let names = ordered::keys_of(keys@);
                assert(names[i as int] == keys@[i as int]@);
                assert(names.to_set().contains(names[i as int]));
                assert(values@[i as int] == self.links@[keys@[i as int].key()]);
            }
            out.push((&keys[i], &values[i]));
            i = i + 1;
        }
        out
    }

    /// Counterparties whose link has been broken, in handle order.
    pub fn broken(&self) -> (r: Vec<&Slug>)
        ensures
            r@.map_values(|s: &Slug| *s) == self.order().filter(
                |s: Slug| self@[s@].broken_at is Some,
            ),
    {
        let all = self.iter();
        let ghost scarred = |s: Slug| self@[s@].broken_at is Some;
        let ghost order = self.order();
        let ghost bare = |s: &Slug| *s;
        let mut out: Vec<&Slug> = Vec::new();
        let mut i: usize = 0;
        assert(out@.map_values(bare) =~= order.take(0).filter(scarred)) by {
            reveal(Seq::filter);
        }
        while i < all.len()
            invariant
                i <= all@.len(),
                all@.len() == order.len(),
                scarred == (|s: Slug| self@[s@].broken_at is Some),
                bare == (|s: &Slug| *s),
                forall|k: int|
                    0 <= k < all@.len() ==> {
                        &&& *(#[trigger] all@[k]).0 == order[k]
                        &&& self@.contains_key(all@[k].0@)
                        &&& all@[k].1@ == self@[all@[k].0@]
                    },
                out@.map_values(bare) == order.take(i as int).filter(scarred),
            decreases all@.len() - i,
        {
            let (handle, link) = all[i];
            proof {
                reveal(Seq::filter);
                assert(order.take(i + 1).drop_last() =~= order.take(i as int));
                assert(order.take(i + 1).last() == *handle);
                assert(*all@[i as int].0 == order[i as int]);
            }
            let ghost before = out@;
            if link.is_broken() {
                out.push(handle);
                assert(out@.map_values(bare) =~= before.map_values(bare).push(*handle));
                assert(scarred(*handle));
            } else {
                assert(!scarred(*handle));
            }
            i = i + 1;
        }
        assert(order.take(i as int) =~= order);
        out
    }
}

impl<N: Copy> Default for TrustLedger<N> {
    fn default() -> (r: TrustLedger<N>)
        ensures
            r@ == Map::<Seq<char>, LinkView<N>>::empty(),
    {
        TrustLedger::new()
    }
}

/// The rank that was computed for a handle.
pub open spec fn rank_of(order: Seq<Slug>, ranks: Seq<i64>, handle: Seq<char>) -> i64 {
    ranks[ordered::keys_of(order).index_of(handle)]
}

/// `a` comes before `b` in the ranking.
pub open spec fn ranks_before(order: Seq<Slug>, ranks: Seq<i64>, a: Seq<char>, b: Seq<char>) -> bool {
    let x = rank_of(order, ranks, a);
    let y = rank_of(order, ranks, b);
    x > y || (x == y && text::text_before(a, b))
}

impl<N: Copy> TrustLedger<N> {
    /// Counterparties ranked most trusted first, ties broken by handle. `ranks`
    /// holds for each link, in the order of [`TrustLedger::iter`], a number that
    /// grows with its confidence.
    pub fn ranked(&self, ranks: Vec<i64>) -> (r: Vec<(&Slug, &TrustLink<N>)>)
        requires
            ranks@.len() == self.order().len(),
        ensures
            r@.len() == self.order().len(),
            forall|i: int|
                0 <= i < r@.len() ==> {
                    &&& self@.contains_key((#[trigger] r@[i]).0@)
                    &&& r@[i].1@ == self@[r@[i].0@]
                },
            forall|i: int, k: int|
                0 <= i < k < r@.len() ==> ranks_before(
                    self.order(),
                    ranks@,
                    (#[trigger] r@[i]).0@,
                    (#[trigger] r@[k]).0@,
                ),
    {
        let all = self.iter();
        let ghost order = self.order();
        let ghost names = ordered::keys_of(order);
        proof {
            ordered::lemma_ascending_distinct(order);
        }
        let mut places: OrdMap<Place, usize> = OrdMap::new();
        let mut i: usize = 0;
        while i < all.len()
            invariant
                i <= all@.len(),
                all@.len() == order.len(),
                ranks@.len() == order.len(),
                names == ordered::keys_of(order),
                names.no_duplicates(),
                forall|k: int| 0 <= k < all@.len() ==> *(#[trigger] all@[k]).0 == order[k],
                places@.dom().len() == i,
                places@.dom().finite(),
                forall|q: (i64, Seq<char>)| #[trigger]
                    places@.contains_key(q) ==> {
                        &&& places@[q] < i
                        &&& q == (ranks@[places@[q] as int], names[places@[q] as int])
                    },
            decreases all@.len() - i,
        {
            let place = Place { rank: ranks[i], handle: all[i].0.clone() };
            proof {
                assert(*all@[i as int].0 == order[i as int]);
                assert(place.key() == (ranks@[i as int], names[i as int]));
                if places@.contains_key(place.key()) {
                    assert(names[places@[place.key()] as int] == names[i as int]);
                }
            }
            places.insert(place, i);
            i = i + 1;
        }
        let slots = places.values();
        let sorted = places.keys();
        let mut out: Vec<(&Slug, &TrustLink<N>)> = Vec::new();
        let mut k: usize = 0;
        while k < slots.len()
            invariant
                k <= slots@.len(),
                slots@.len() == sorted@.len(),
                sorted@ == places.key_seq(),
                ordered::keys_of(sorted@).to_set() == places@.dom(),
                all@.len() == order.len(),
                names == ordered::keys_of(order),
                forall|m: int|
                    0 <= m < slots@.len() ==> #[trigger] slots@[m]
                        == places@[places.key_seq()[m].key()],
                forall|m: int|
                    0 <= m < all@.len() ==> {
                        &&& *(#[trigger] all@[m]).0 == order[m]
                        &&& self@.contains_key(all@[m].0@)
                        &&& all@[m].1@ == self@[all@[m].0@]
                    },
                forall|q: (i64, Seq<char>)| #[trigger]
                    places@.contains_key(q) ==> {
                        &&& places@[q] < all@.len()
                        &&& q == (ranks@[places@[q] as int], names[places@[q] as int])
                    },
                out@.len() == k,
                forall|m: int|
                    0 <= m < k ==> {
                        &&& self@.contains_key((#[trigger] out@[m]).0@)
                        &&& out@[m].1@ == self@[out@[m].0@]
                        &&& slots@[m] < all@.len()
                        &&& out@[m].0@ == names[slots@[m] as int]
                        &&& sorted@[m].key() == (ranks@[slots@[m] as int], out@[m].0@)
                    },
            decreases slots@.len() - k,
        {
            proof {
                let keys = ordered::keys_of(sorted@);
                let q = sorted@[k as int].key();
                assert(keys[k as int] == q);
                assert(keys.to_set().contains(q));
                assert(places@.contains_key(q));
                assert(slots@[k as int] == places@[q]);
                assert(*all@[slots@[k as int] as int].0 == order[slots@[k as int] as int]);
            }
            out.push(all[slots[k]]);
            k = k + 1;
        }
        proof {
            assert forall|a: int, b: int| 0 <= a < b < out@.len() implies ranks_before(
                order,
                ranks@,
                (#[trigger] out@[a]).0@,
                (#[trigger] out@[b]).0@,
            ) by {
                assert(Place::before(sorted@[a].key(), sorted@[b].key()));
                assert(names.index_of(out@[a].0@) == slots@[a]);
                assert(names.index_of(out@[b].0@) == slots@[b]);
            }
        }
        out
    }
}

// ---------------------------------------------------------------------------
// Laws
// ---------------------------------------------------------------------------

/// A break is a scar: no history clears it or moves its date.
pub proof fn law_a_break_is_never_cleared<N>(
    link: LinkView<N>,
    history: Seq<(Blow<N>, Timestamp)>,
)
    requires
        link.broken_at is Some,
    ensures
        link.after_all(history).broken_at == link.broken_at,
    decreases history.len(),
{
    if history.len() > 0 {
        law_a_break_is_never_cleared(link, history.drop_last());
    }
}

/// A link breaks at most once: the event after which it is broken reports it,
/// and no later event does.
pub proof fn law_a_link_breaks_once<N>(link: LinkView<N>, blow: Blow<N>, now: Timestamp, next: Blow<N>)
    requires
        link.breaks(blow),
    ensures
        link.after(blow, now).broken_at == Some(now),
        !link.after(blow, now).breaks(next),
{
}

/// A cold counterparty cannot betray: what was never built up does not break,
/// however it collapses.
pub proof fn law_only_what_was_built_breaks<N>(link: LinkView<N>, blow: Blow<N>, now: Timestamp)
    requires
        !blow.breakable,
    ensures
        link.after(blow, now).broken_at == link.broken_at,
{
}

/// A broken link never reads as close again.
pub proof fn law_a_broken_link_is_never_close(band: Band)
    ensures
        !(standing_of(band, true) is Close),
{
}

/// The same bad news weighs twice as much from somebody close as from a
/// stranger, and half as much from somebody distrusted.
pub proof fn law_betrayal_weighs_by_closeness()
    ensures
        felt_halves(Polarity::Bad, Standing::Close) == 2 * felt_halves(
            Polarity::Bad,
            Standing::Neutral,
        ),
        2 * felt_halves(Polarity::Bad, Standing::Wary) == felt_halves(
            Polarity::Bad,
            Standing::Neutral,
        ),
        felt_halves(Polarity::Good, Standing::Wary) > felt_halves(
            Polarity::Good,
            Standing::Neutral,
        ),
{
}

/// A ledger rebuilt from its own links is that ledger.
pub proof fn law_a_stored_ledger_comes_back<N>(
    stored: Map<Seq<char>, LinkView<N>>,
    entries: Seq<(Slug, TrustLink<N>)>,
)
    requires
        forall|i: int|
            0 <= i < entries.len() ==> stored.contains_key(#[trigger] entries[i].0@) && stored[entries[i].0@]
                == entries[i].1@,
        forall|key: Seq<char>| #[trigger]
            stored.contains_key(key) ==> exists|i: int|
                0 <= i < entries.len() && #[trigger] entries[i].0@ == key,
    ensures
        entered(entries) == stored,
{
    lemma_entered(stored, entries);
    assert forall|key: Seq<char>| #[trigger] stored.contains_key(key) implies entered(
        entries,
    ).contains_key(key) by {
        let i = choose|i: int| 0 <= i < entries.len() && #[trigger] entries[i].0@ == key;
        assert(entered(entries).contains_key(entries[i].0@));
    }
    assert(entered(entries) =~= stored);
}

/// Entries that agree with a map give a part of it that has all of them.
proof fn lemma_entered<N>(
    stored: Map<Seq<char>, LinkView<N>>,
    entries: Seq<(Slug, TrustLink<N>)>,
)
    requires
        forall|i: int|
            0 <= i < entries.len() ==> stored.contains_key(#[trigger] entries[i].0@) && stored[entries[i].0@]
                == entries[i].1@,
    ensures
        forall|key: Seq<char>| #[trigger]
            entered(entries).contains_key(key) ==> stored.contains_key(key) && entered(entries)[key]
                == stored[key],
        forall|i: int|
            0 <= i < entries.len() ==> entered(entries).contains_key(#[trigger] entries[i].0@),
    decreases entries.len(),
{
    if entries.len() > 0 {
        let head = entries.drop_last();
        let last = entries[entries.len() - 1];
        assert(stored.contains_key(last.0@));
        assert forall|i: int| 0 <= i < head.len() implies stored.contains_key(
            #[trigger] head[i].0@,
        ) && stored[head[i].0@] == head[i].1@ by {
            assert(head[i] == entries[i]);
            assert(stored.contains_key(entries[i].0@));
        }
        lemma_entered(stored, head);
        assert forall|key: Seq<char>| #[trigger] entered(entries).contains_key(key) implies stored.contains_key(
            key,
        ) && entered(entries)[key] == stored[key] by {
            if key != last.0@ {
                assert(entered(head).contains_key(key));
            }
        }
        assert forall|i: int| 0 <= i < entries.len() implies entered(entries).contains_key(
            #[trigger] entries[i].0@,
        ) by {
            if i < head.len() {
                assert(head[i] == entries[i]);
                assert(entered(head).contains_key(head[i].0@));
            }
        }
    }
}

/// A link breaks exactly where confidence collapses that had been built up, the
/// first time it does. It has the new confidence either way, and the instant of the
/// break if that was it.
pub proof fn law_a_collapse_from_a_height_breaks<N>(
    link: LinkView<N>,
    blow: Blow<N>,
    now: Timestamp,
)
    ensures
        ({
            let then = link.after(blow, now);
            let first_collapse = blow.collapsed && blow.breakable && link.broken_at is None;
            &&& then.confidence == blow.after
            &&& first_collapse ==> then.broken_at == Some(now) && link.breaks(blow)
            &&& !first_collapse ==> then.broken_at == link.broken_at && !link.breaks(blow)
        }),
{
}

/// Where a counterparty stands: close only from high confidence that was never
/// broken, wary from low confidence, and neutral everywhere else.
pub proof fn law_standing_follows_confidence_and_scars(band: Band, broken: bool)
    ensures
        standing_of(band, broken) is Close <==> band is High && !broken,
        standing_of(band, broken) is Wary <==> band is Low,
        standing_of(band, broken) is Neutral <==> band is Middle || (band is High && broken),
{
}

/// The weight of news: as it is from a stranger and, where it is good, from
/// somebody close; good news from somebody distrusted weighs half as much again.
pub proof fn law_news_weighs_by_standing(polarity: Polarity)
    ensures
        felt_halves(polarity, Standing::Neutral) == 2,
        felt_halves(Polarity::Good, Standing::Close) == 2,
        2 * felt_halves(Polarity::Good, Standing::Wary) == 3 * felt_halves(
            Polarity::Good,
            Standing::Neutral,
        ),
        felt_halves(Polarity::Bad, Standing::Close) == 4,
        felt_halves(Polarity::Bad, Standing::Wary) == 1,
{
}

/// An appraisal says where the counterparty stands, whether the link was ever
/// broken, and weighs the event by that standing. A stranger is neutral and intact,
/// wherever confidence would lie.
pub proof fn law_an_appraisal_weighs_by_the_link<N>(
    link: LinkView<N>,
    band: Band,
    polarity: Polarity,
)
    ensures
        ({
            let known = Appraisal::weighed(Some(link), band, polarity);
            let stranger = Appraisal::weighed(None::<LinkView<N>>, band, polarity);
            &&& known.broken <==> link.broken_at is Some
            &&& known.standing is Close <==> band is High && link.broken_at is None
            &&& known.standing is Wary <==> band is Low
            &&& known.factor_halves == felt_halves(polarity, known.standing)
            &&& stranger.standing is Neutral
            &&& !stranger.broken
            &&& stranger.factor_halves == 2
        }),
{
}

/// Good news raises confidence and bad news lowers it. A broken commitment costs
/// two and a half times what a kept promise earns; a repeated fault costs what it
/// earns.
pub proof fn law_trust_is_lost_faster_than_earned(event: TrustEvent)
    ensures
        event.news() is Good <==> event.hundredths() > 0,
        event.news() is Bad <==> event.hundredths() < 0,
        event.news() is Good <==> event is PromiseKept,
        2 * TrustEvent::CommitmentBroken.hundredths() == -5
            * TrustEvent::PromiseKept.hundredths(),
        TrustEvent::FaultRepeated.hundredths() == -TrustEvent::PromiseKept.hundredths(),
        TrustEvent::PromiseKept.hundredths() == 10,
{
}

/// A counterparty never dealt with has the base confidence and no scar.
pub proof fn law_a_stranger_starts_intact<N>(base: N)
    ensures
        LinkView::fresh(base).confidence == base,
        LinkView::fresh(base).broken_at is None,
{
}

/// In a ranking the higher number comes first, and between equal numbers the
/// handle that is first in order.
pub proof fn law_the_most_trusted_rank_first(
    order: Seq<Slug>,
    ranks: Seq<i64>,
    i: int,
    k: int,
)
    requires
        ordered::keys_of(order).no_duplicates(),
        ranks.len() == order.len(),
        0 <= i < order.len(),
        0 <= k < order.len(),
    ensures
        ranks[i] > ranks[k] ==> ranks_before(order, ranks, order[i]@, order[k]@)
            && !ranks_before(order, ranks, order[k]@, order[i]@),
        ranks[i] == ranks[k] ==> (ranks_before(order, ranks, order[i]@, order[k]@)
            <==> text::text_before(order[i]@, order[k]@)),
{
    let names = ordered::keys_of(order);
    assert(names[i] == order[i]@);
    assert(names[k] == order[k]@);
    assert(names.index_of(order[i]@) == i);
    assert(names.index_of(order[k]@) == k);
}

/// Of stored links under one handle the last counts.
pub proof fn law_the_last_stored_link_counts<N>(
    entries: Seq<(Slug, TrustLink<N>)>,
    next: (Slug, TrustLink<N>),
    key: Seq<char>,
)
    ensures
        ({
            let then = entered(entries.push(next));
            &&& then.contains_key(next.0@) && then[next.0@] == next.1@
            &&& key != next.0@ ==> {
                &&& then.contains_key(key) <==> entered(entries).contains_key(key)
                &&& then.contains_key(key) ==> then[key] == entered(entries)[key]
            }
        }),
{
    assert(entries.push(next).drop_last() =~= entries);
}

/// An event moves the link with one counterparty and no other. A stranger is taken
/// to have the base confidence and no scar before it.
pub proof fn law_an_event_moves_one_link<N>(
    links: Map<Seq<char>, LinkView<N>>,
    who: Seq<char>,
    base: N,
    blow: Blow<N>,
    now: Timestamp,
    other: Seq<char>,
)
    ensures
        ({
            let then = links_after(links, who, base, blow, now);
            &&& then.contains_key(who)
            &&& then[who].confidence == blow.after
            &&& !links.contains_key(who) ==> (then[who].broken_at is Some <==> blow.collapsed
                && blow.breakable)
            &&& links.contains_key(who) && links[who].broken_at is Some ==> then[who].broken_at
                == links[who].broken_at
            &&& other != who ==> {
                &&& then.contains_key(other) <==> links.contains_key(other)
                &&& then.contains_key(other) ==> then[other] == links[other]
            }
            &&& link_or_fresh(then, who, base).confidence == blow.after
            &&& !links.contains_key(who) ==> link_or_fresh(links, who, base).confidence == base
        }),
{
}

/// A change tells the event, the confidence on both sides of it, and a break exactly
/// where the link is broken after it and was not before.
pub proof fn law_a_change_tells_both_sides<N>(
    link: LinkView<N>,
    event: TrustEvent,
    blow: Blow<N>,
    now: Timestamp,
)
    ensures
        ({
            let change = change_of(link, event, blow);
            let then = link.after(blow, now);
            &&& change.event == event
            &&& change.before == link.confidence
            &&& change.after == then.confidence
            &&& change.broke <==> link.broken_at is None && then.broken_at is Some
        }),
{
}

} // verus!
