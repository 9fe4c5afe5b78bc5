//! An episodic journal, and the beliefs consolidated out of it with their
//! founding facts kept.
//!
//! Isolated episodes found nothing; [`N_CONSOLIDATION`] concordant ones become
//! a belief, and [`BeliefJournal::why`] walks a belief back to the episodes
//! that created it. An episode, once recorded, never changes.
use crate::decimal;
use crate::decimal::decimal_text;
use crate::ordered;
use crate::ordered::{OrdMap, OrdSet, Ordered};
use crate::text;
use crate::text::{chars_of, comes_before, same_text, text_of};
use crate::time::Timestamp;
use crate::untrusted::Untrusted;
use vstd::prelude::*;
use vstd::string::*;

verus! {

/// Concordant episodes needed before a belief forms.
pub const N_CONSOLIDATION: usize = 3;

/// Subjects a single episode may be filed under.
pub const MAX_SUBJECTS: usize = 8;

/// Founding episodes retained per belief: the most recent ones.
pub const MAX_SOURCES: usize = 8;

/// The most that one episode counts towards the strength of a belief, in
/// hundredths.
pub const WEIGHT_CAP_HUNDREDTHS: u16 = 200;

// ---------------------------------------------------------------------------
// Scalars
// ---------------------------------------------------------------------------

/// The lower-case equivalent of a text, as `str::to_lowercase` computes it.
pub uninterp spec fn lowercase_text(s: Seq<char>) -> Seq<char>;

/// `str::to_lowercase`: the lower-case equivalent of a text. In ASCII text it
/// maps `A-Z` to `a-z` and nothing else.
#[verifier::external_body]
fn lowercase(s: &str) -> (r: String)
    ensures
        r@ == lowercase_text(s@),
        vstd::utf8::is_ascii_chars(s@) ==> r@ == text::ascii_lowered(s@),
{
    s.to_lowercase()
}

/// What a belief or an episode is about: a supplier, an incident class, a
/// negotiation topic.
///
/// Trimmed and lowercased, so that `"Acme"` and `"acme "` are one subject. This
/// is a key that we choose; text that a counterparty wrote belongs in
/// [`Episode::summary`].
#[derive(Debug, PartialEq, Eq, PartialOrd, Ord, Hash)]
pub struct Subject(String);

impl View for Subject {
    type V = Seq<char>;

    closed spec fn view(&self) -> Seq<char> {
        self.0@
    }
}

impl Subject {
    /// Normalise a raw string into a subject key.
    pub fn new(raw: &str) -> (r: Subject)
        ensures
            r@ == lowercase_text(text::trimmed(raw@)),
            vstd::utf8::is_ascii_chars(text::trimmed(raw@)) ==> r@ == text::ascii_lowered(
                text::trimmed(raw@),
            ),
    {
        let chars = chars_of(raw);
        let trimmed = text_of(text::trim(chars.as_slice()));
        Subject(lowercase(trimmed.as_str()))
    }

    /// The normalised key.
    pub fn as_str(&self) -> (r: &str)
        ensures
            r@ == self@,
    {
        self.0.as_str()
    }

    /// Whether two subjects are the same.
    pub fn same(&self, other: &Subject) -> (r: bool)
        ensures
            r == (self@ == other@),
    {
        same_text(self.as_str(), other.as_str())
    }
}

impl Clone for Subject {
    fn clone(&self) -> (r: Subject)
        ensures
            r == *self,
    {
        Subject(self.0.clone())
    }
}

impl Ordered for Subject {
    type Key = Seq<char>;

    open spec fn key(&self) -> Seq<char> {
        self@
    }

    open spec fn before(a: Seq<char>, b: Seq<char>) -> bool {
        text::text_before(a, b)
    }

    proof fn before_irreflexive(a: Seq<char>) {
        text::lemma_text_before_irreflexive(a);
    }

    proof fn before_transitive(a: Seq<char>, b: Seq<char>, c: Seq<char>) {
        text::lemma_text_before_transitive(a, b, c);
    }

    proof fn before_total(a: Seq<char>, b: Seq<char>) {
        text::lemma_text_before_total(a, b);
    }

    fn precedes(&self, other: &Self) -> (r: bool) {
        let r = comes_before(self.as_str(), other.as_str());
        assert(r == text::text_before(self.key(), other.key()));
        assert(Subject::before(self@, other@) == text::text_before(self@, other@));
        assert(Subject::before(self.key(), other.key()) == Subject::before(self@, other@));
        r
    }

    fn duplicate(&self) -> (r: Self) {
        self.clone()
    }
}

/// Which way an episode or belief points.
#[derive(Debug, Clone, Copy, PartialEq, Eq, Structural, PartialOrd, Ord, Hash)]
pub enum Polarity {
    /// Evidence against the subject: a missed date, a padded quote.
    Negative,
    /// No impact: recorded, but never consolidated.
    Neutral,
    /// Evidence for the subject: shipped early, honoured a price.
    Positive,
}

impl Polarity {
    /// The place of a polarity in the order of polarities.
    pub open spec fn rank(self) -> nat {
        match self {
            Polarity::Negative => 0,
            Polarity::Neutral => 1,
            Polarity::Positive => 2,
        }
    }

    /// The opposing direction; [`Polarity::Neutral`] is its own opposite.
    pub open spec fn opposite_spec(self) -> Polarity {
        match self {
            Polarity::Negative => Polarity::Positive,
            Polarity::Neutral => Polarity::Neutral,
            Polarity::Positive => Polarity::Negative,
        }
    }

    /// The opposing direction; [`Polarity::Neutral`] is its own opposite.
    #[verifier::when_used_as_spec(opposite_spec)]
    pub fn opposite(self) -> (r: Polarity)
        ensures
            r == self.opposite(),
    {
        match self {
            Polarity::Negative => Polarity::Positive,
            Polarity::Neutral => Polarity::Neutral,
            Polarity::Positive => Polarity::Negative,
        }
    }

    /// `true` when this polarity cannot found a belief.
    pub fn is_neutral(self) -> (r: bool)
        ensures
            r == (self is Neutral),
    {
        matches!(self, Polarity::Neutral)
    }

    fn place(self) -> (r: u8)
        ensures
            r == self.rank(),
    {
        match self {
            Polarity::Negative => 0,
            Polarity::Neutral => 1,
            Polarity::Positive => 2,
        }
    }
}

impl Default for Polarity {
    fn default() -> (r: Polarity)
        ensures
            r is Neutral,
    {
        Polarity::Neutral
    }
}

/// How hard an episode hit, in hundredths, from 0.00 to 10.00.
#[derive(Debug, Clone, Copy, PartialEq, Eq, Structural, PartialOrd, Ord, Hash)]
pub struct Weight(u16);

impl View for Weight {
    type V = u16;

    closed spec fn view(&self) -> u16 {
        self.0
    }
}

impl Weight {
    #[verifier::type_invariant]
    spec fn bounded(self) -> bool {
        self.0 <= 1000
    }

    /// The default impact, 1.00.
    pub fn one() -> (r: Weight)
        ensures
            r@ == 100,
    {
        Weight(100)
    }

    /// The heaviest impact, 10.00.
    pub fn max() -> (r: Weight)
        ensures
            r@ == 1000,
    {
        Weight(1000)
    }

    /// Build from hundredths, clamping to `0..=1000`.
    pub fn from_hundredths(hundredths: u16) -> (r: Weight)
        ensures
            r@ == if hundredths > 1000 {
                1000
            } else {
                hundredths
            },
    {
        if hundredths > 1000 {
            Weight(1000)
        } else {
            Weight(hundredths)
        }
    }

    /// The raw hundredths.
    pub fn hundredths(self) -> (r: u16)
        ensures
            r == self@,
            r <= 1000,
    {
        proof {
            use_type_invariant(&self);
        }
        self.0
    }
}

/// How strongly a belief is held, in hundredths, from 0.00 to 1.00.
#[derive(Debug, Clone, Copy, PartialEq, Eq, Structural, PartialOrd, Ord, Hash)]
pub struct Strength(u8);

impl View for Strength {
    type V = u8;

    closed spec fn view(&self) -> u8 {
        self.0
    }
}

impl Strength {
    #[verifier::type_invariant]
    spec fn bounded(self) -> bool {
        self.0 <= 100
    }

    /// Full conviction, 1.00.
    pub fn full() -> (r: Strength)
        ensures
            r@ == 100,
    {
        Strength(100)
    }

    /// Build from hundredths, clamping to `0..=100`.
    pub fn from_hundredths(hundredths: u8) -> (r: Strength)
        ensures
            r@ == if hundredths > 100 {
                100
            } else {
                hundredths
            },
    {
        if hundredths > 100 {
            Strength(100)
        } else {
            Strength(hundredths)
        }
    }

    /// The raw hundredths.
    pub fn hundredths(self) -> (r: u8)
        ensures
            r == self@,
            r <= 100,
    {
        proof {
            use_type_invariant(&self);
        }
        self.0
    }

    /// The sum of two strengths, no more than full conviction.
    pub fn saturating_add(self, other: Strength) -> (r: Strength)
        ensures
            r@ == if self@ + other@ > 100 {
                100
            } else {
                self@ + other@
            },
    {
        Strength::from_hundredths(self.0.saturating_add(other.0))
    }

    /// What is left of a strength when another is taken off, no less than
    /// nothing.
    pub fn saturating_sub(self, other: Strength) -> (r: Strength)
        ensures
            r@ == if self@ < other@ {
                0
            } else {
                self@ - other@
            },
    {
        proof {
            use_type_invariant(&self);
        }
        Strength(self.0.saturating_sub(other.0))
    }

    /// The strength with its two decimals: `0.75`.
    pub fn to_text(self) -> (r: String)
        ensures
            r@ == decimal::decimal(self@ as nat / 100) + seq![
                '.',
                decimal::digit((self@ as nat % 100) / 10),
                decimal::digit(self@ as nat % 10),
            ],
    {
        let mut out = decimal_text((self.0 / 100) as u64);
        out.push('.');
        out.push((48 + (self.0 % 100) / 10) as char);
        out.push((48 + self.0 % 10) as char);
        out
    }
}

/// A journal-local, monotonically increasing episode reference.
#[derive(Debug, Clone, Copy, PartialEq, Eq, Structural, PartialOrd, Ord, Hash)]
pub struct EpisodeId(u64);

impl View for EpisodeId {
    type V = u64;

    closed spec fn view(&self) -> u64 {
        self.0
    }
}

impl EpisodeId {
    /// The reference with this number.
    pub fn new(number: u64) -> (r: EpisodeId)
        ensures
            r@ == number,
    {
        EpisodeId(number)
    }

    /// The number of the reference.
    pub fn number(self) -> (r: u64)
        ensures
            r == self@,
    {
        self.0
    }

    /// The reference as text: `e7`.
    pub fn to_text(self) -> (r: String)
        ensures
            r@ == seq!['e'] + decimal::decimal(self@ as nat),
    {
        let mut out = String::new();
        out.push('e');
        out.append(decimal_text(self.0).as_str());
        assert(out@ =~= seq!['e'] + decimal::decimal(self@ as nat));
        out
    }
}

impl Ordered for EpisodeId {
    type Key = u64;

    open spec fn key(&self) -> u64 {
        self@
    }

    open spec fn before(a: u64, b: u64) -> bool {
        a < b
    }

    proof fn before_irreflexive(a: u64) {
    }

    proof fn before_transitive(a: u64, b: u64, c: u64) {
    }

    proof fn before_total(a: u64, b: u64) {
    }

    fn precedes(&self, other: &Self) -> (r: bool) {
        self.0 < other.0
    }

    fn duplicate(&self) -> (r: Self) {
        *self
    }
}

// ---------------------------------------------------------------------------
// Episodes and beliefs
// ---------------------------------------------------------------------------

/// A fact to record. [`BeliefJournal::record`] makes an [`Episode`] of it and
/// stamps the id and the time.
#[derive(Debug, PartialEq, Eq)]
pub struct NewEpisode {
    /// What this fact is about. Filed in order, without repeats, under the
    /// first [`MAX_SUBJECTS`] of them.
    pub subjects: Vec<Subject>,
    /// Which way it points. [`Polarity::Neutral`] when `weight` is zero: what
    /// has no impact founds nothing.
    pub polarity: Polarity,
    /// How hard it hit.
    pub weight: Weight,
    /// Who told us, when we did not see it ourselves.
    pub reported_by: Option<Subject>,
    /// What happened, in words that may be a counterparty's own.
    pub summary: Untrusted<String>,
}

/// One recorded fact, immutable once written. What does change, that it was
/// consolidated or resolved, is held by the journal.
#[derive(Debug, PartialEq, Eq)]
pub struct Episode {
    /// Stable reference, used by [`Belief::sources`].
    pub id: EpisodeId,
    /// When it was recorded.
    pub at: Timestamp,
    /// Normalised subjects.
    pub subjects: Vec<Subject>,
    /// Which way it points.
    pub polarity: Polarity,
    /// How hard it hit.
    pub weight: Weight,
    /// Who told us, or `None` for first-hand.
    pub reported_by: Option<Subject>,
    /// What happened. Evidence about a supplier, never an instruction from one.
    pub summary: Untrusted<String>,
}

/// A conviction consolidated from concordant episodes.
#[derive(Debug, PartialEq, Eq)]
pub struct Belief {
    /// Who or what the belief is about.
    pub subject: Subject,
    /// Which way it points.
    pub polarity: Polarity,
    /// How strongly it is held.
    pub strength: Strength,
    /// How many episodes have fed it in total.
    pub episode_count: u32,
    /// When it first crossed the threshold.
    pub formed_at: Timestamp,
    /// When it was last reinforced.
    pub last_reinforced_at: Timestamp,
    /// The last [`MAX_SOURCES`] founding episodes, oldest first.
    pub sources: Vec<EpisodeId>,
    /// Whether at least one founding episode was first-hand.
    pub first_hand: bool,
}

/// An [`Episode`] as a mathematical value.
#[verifier::ext_equal]
pub struct EpisodeView {
    pub id: u64,
    pub at: Timestamp,
    pub subjects: Seq<Seq<char>>,
    pub polarity: Polarity,
    pub weight: u16,
    pub reported_by: Option<Seq<char>>,
    pub summary: Seq<char>,
}

/// A [`Belief`] as a mathematical value.
#[verifier::ext_equal]
pub struct BeliefView {
    pub subject: Seq<char>,
    pub polarity: Polarity,
    pub strength: u8,
    pub episode_count: u32,
    pub formed_at: Timestamp,
    pub last_reinforced_at: Timestamp,
    pub sources: Seq<u64>,
    pub first_hand: bool,
}

/// The name of whoever told us, as text.
pub open spec fn reporter(by: Option<Subject>) -> Option<Seq<char>> {
    match by {
        Some(s) => Some(s@),
        None => None,
    }
}

impl View for Episode {
    type V = EpisodeView;

    open spec fn view(&self) -> EpisodeView {
        EpisodeView {
            id: self.id@,
            at: self.at,
            subjects: ordered::keys_of(self.subjects@),
            polarity: self.polarity,
            weight: self.weight@,
            reported_by: reporter(self.reported_by),
            summary: self.summary.inner()@,
        }
    }
}

impl View for Belief {
    type V = BeliefView;

    open spec fn view(&self) -> BeliefView {
        BeliefView {
            subject: self.subject@,
            polarity: self.polarity,
            strength: self.strength@,
            episode_count: self.episode_count,
            formed_at: self.formed_at,
            last_reinforced_at: self.last_reinforced_at,
            sources: ordered::keys_of(self.sources@),
            first_hand: self.first_hand,
        }
    }
}

impl EpisodeView {
    /// The episode points this way about this subject.
    pub open spec fn is_about(self, key: (Seq<char>, Polarity)) -> bool {
        self.polarity == key.1 && self.subjects.contains(key.0)
    }
}

impl Episode {
    /// `true` when we saw this ourselves rather than being told.
    pub fn is_first_hand(&self) -> (r: bool)
        ensures
            r == self@.reported_by is None,
    {
        self.reported_by.is_none()
    }
}

fn copy_subjects(subjects: &Vec<Subject>) -> (r: Vec<Subject>)
    ensures
        ordered::keys_of(r@) == ordered::keys_of(subjects@),
{
    let r = subjects.clone();
    assert(ordered::keys_of(r@) =~= ordered::keys_of(subjects@));
    r
}

fn copy_reporter(by: &Option<Subject>) -> (r: Option<Subject>)
    ensures
        r == *by,
{
    match by {
        Some(s) => Some(s.clone()),
        None => None,
    }
}

impl Clone for NewEpisode {
    fn clone(&self) -> (r: NewEpisode)
        ensures
            ordered::keys_of(r.subjects@) == ordered::keys_of(self.subjects@),
            r.polarity == self.polarity,
            r.weight == self.weight,
            r.reported_by == self.reported_by,
            r.summary.inner()@ == self.summary.inner()@,
    {
        NewEpisode {
            subjects: copy_subjects(&self.subjects),
            polarity: self.polarity,
            weight: self.weight,
            reported_by: copy_reporter(&self.reported_by),
            summary: Untrusted::new(self.summary.expose_for_parsing().clone()),
        }
    }
}

impl Clone for Episode {
    fn clone(&self) -> (r: Episode)
        ensures
            r@ == self@,
    {
        Episode {
            id: self.id,
            at: self.at,
            subjects: copy_subjects(&self.subjects),
            polarity: self.polarity,
            weight: self.weight,
            reported_by: copy_reporter(&self.reported_by),
            summary: Untrusted::new(self.summary.expose_for_parsing().clone()),
        }
    }
}

impl Clone for Belief {
    fn clone(&self) -> (r: Belief)
        ensures
            r@ == self@,
    {
        let sources = self.sources.clone();
        assert(ordered::keys_of(sources@) =~= ordered::keys_of(self.sources@));
        Belief {
            subject: self.subject.clone(),
            polarity: self.polarity,
            strength: self.strength,
            episode_count: self.episode_count,
            formed_at: self.formed_at,
            last_reinforced_at: self.last_reinforced_at,
            sources,
            first_hand: self.first_hand,
        }
    }
}

/// Each text comes strictly before the ones after it.
pub open spec fn ascending_texts(s: Seq<Seq<char>>) -> bool {
    forall|i: int, j: int|
        0 <= i < j < s.len() ==> text::text_before(#[trigger] s[i], #[trigger] s[j])
}

/// `filed` is what an episode about the subjects `raw` is filed under: the
/// first [`MAX_SUBJECTS`] of them, in order, without repeats.
pub open spec fn is_filing(raw: Seq<Seq<char>>, filed: Seq<Seq<char>>) -> bool {
    &&& ascending_texts(filed)
    &&& filed.len() <= MAX_SUBJECTS
    &&& forall|s: Seq<char>| #[trigger] filed.contains(s) ==> raw.contains(s)
    &&& forall|s: Seq<char>| #[trigger]
        raw.contains(s) && !filed.contains(s) ==> filed.len() == MAX_SUBJECTS && text::text_before(
            filed.last(),
            s,
        )
}

// ---------------------------------------------------------------------------
// The journal
// ---------------------------------------------------------------------------

/// A [`BeliefJournal`] as a mathematical value.
#[verifier::ext_equal]
pub struct JournalView {
    pub episodes: Seq<EpisodeView>,
    /// The ids of the episodes that a belief was made of already.
    pub consolidated: Set<u64>,
    /// The ids of the episodes that were closed.
    pub resolved: Set<u64>,
    pub beliefs: Seq<BeliefView>,
    pub next_id: u64,
}

/// What the episodes of a group weigh together, each at its cap at most.
pub open spec fn weight_of(group: Seq<EpisodeView>) -> nat
    decreases group.len(),
{
    if group.len() == 0 {
        0
    } else {
        weight_of(group.drop_last()) + if group.last().weight > WEIGHT_CAP_HUNDREDTHS {
            WEIGHT_CAP_HUNDREDTHS as nat
        } else {
            group.last().weight as nat
        }
    }
}

/// The strength that a group of episodes adds to a belief: a quarter of its
/// weight, no more than full conviction.
pub open spec fn gain_of(group: Seq<EpisodeView>) -> nat {
    if weight_of(group) / 4 > 100 {
        100
    } else {
        weight_of(group) / 4
    }
}

/// The references of the episodes of a group.
pub open spec fn refs_of(group: Seq<EpisodeView>) -> Seq<u64> {
    group.map_values(|e: EpisodeView| e.id)
}

/// Some episode of the group was first-hand.
pub open spec fn witnessed(group: Seq<EpisodeView>) -> bool {
    exists|i: int| 0 <= i < group.len() && (#[trigger] group[i]).reported_by is None
}

/// The last [`MAX_SOURCES`] of the references.
pub open spec fn latest(refs: Seq<u64>) -> Seq<u64> {
    if refs.len() > MAX_SOURCES {
        refs.skip(refs.len() - MAX_SOURCES)
    } else {
        refs
    }
}

/// The belief that a group of episodes makes, or makes of the one that is held.
pub open spec fn reinforced(
    held: Option<BeliefView>,
    key: (Seq<char>, Polarity),
    group: Seq<EpisodeView>,
    now: Timestamp,
) -> BeliefView {
    match held {
        Some(b) => BeliefView {
            strength: if b.strength + gain_of(group) > 100 {
                100
            } else {
                (b.strength + gain_of(group)) as u8
            },
            episode_count: (b.episode_count + group.len()) as u32,
            sources: latest(b.sources + refs_of(group)),
            last_reinforced_at: now,
            first_hand: b.first_hand || witnessed(group),
            ..b
        },
        None => BeliefView {
            subject: key.0,
            polarity: key.1,
            strength: gain_of(group) as u8,
            episode_count: group.len() as u32,
            formed_at: now,
            last_reinforced_at: now,
            sources: latest(refs_of(group)),
            first_hand: witnessed(group),
        },
    }
}

/// What is left of a belief when an opposite one gains `gain`: it is worn down
/// by as much, and dies at zero.
pub open spec fn eroded(held: Option<BeliefView>, gain: nat) -> Option<BeliefView> {
    match held {
        Some(b) => if b.strength <= gain {
            None
        } else {
            Some(BeliefView { strength: (b.strength - gain) as u8, ..b })
        },
        None => None,
    }
}

impl BeliefView {
    /// What the belief is about and which way it points.
    pub open spec fn key(self) -> (Seq<char>, Polarity) {
        (self.subject, self.polarity)
    }
}

/// The belief points this way about this subject.
pub open spec fn is_under(key: (Seq<char>, Polarity)) -> spec_fn(BeliefView) -> bool {
    |b: BeliefView| b.key() == key
}

/// The beliefs that point this way about this subject, in their order. A pass
/// forms one at most; where a stored journal brings several along, the first is
/// the one that counts.
pub open spec fn queue(beliefs: Seq<BeliefView>, key: (Seq<char>, Polarity)) -> Seq<BeliefView> {
    beliefs.filter(is_under(key))
}

/// The beliefs under `key` when a group has made one, or made itself part of
/// the first.
pub open spec fn queue_reinforced(
    held: Seq<BeliefView>,
    key: (Seq<char>, Polarity),
    group: Seq<EpisodeView>,
    now: Timestamp,
) -> Seq<BeliefView> {
    if held.len() == 0 {
        seq![reinforced(None, key, group, now)]
    } else {
        held.update(0, reinforced(Some(held[0]), key, group, now))
    }
}

/// The beliefs under a key when an opposite one has gained `gain`: the first is
/// worn down, and leaves where it dies.
pub open spec fn queue_eroded(held: Seq<BeliefView>, gain: nat) -> Seq<BeliefView> {
    if held.len() == 0 {
        held
    } else {
        match eroded(Some(held[0]), gain) {
            Some(b) => held.update(0, b),
            None => held.drop_first(),
        }
    }
}

/// One key comes before the other: by the subject, then by the polarity.
pub open spec fn key_before(a: (Seq<char>, Polarity), b: (Seq<char>, Polarity)) -> bool {
    text::text_before(a.0, b.0) || (a.0 == b.0 && a.1.rank() < b.1.rank())
}

/// The beliefs stand in the order of subject and polarity.
pub open spec fn in_key_order(beliefs: Seq<BeliefView>) -> bool {
    forall|i: int, k: int|
        0 <= i < k < beliefs.len() ==> !key_before(
            (#[trigger] beliefs[k]).key(),
            (#[trigger] beliefs[i]).key(),
        )
}

/// How often a subject is among the subjects.
pub open spec fn occurrences(subjects: Seq<Seq<char>>, subject: Seq<char>) -> nat
    decreases subjects.len(),
{
    if subjects.len() == 0 {
        0
    } else if subjects.last() == subject {
        occurrences(subjects.drop_last(), subject) + 1
    } else {
        occurrences(subjects.drop_last(), subject)
    }
}

/// The episode is what is kept of `new`: what weighs nothing points nowhere.
pub open spec fn is_record_of(e: EpisodeView, new: NewEpisode, id: u64, now: Timestamp) -> bool {
    &&& e.id == id
    &&& e.at == now
    &&& is_filing(ordered::keys_of(new.subjects@), e.subjects)
    &&& e.polarity == if new.weight@ == 0 {
        Polarity::Neutral
    } else {
        new.polarity
    }
    &&& e.weight == new.weight@
    &&& e.reported_by == reporter(new.reported_by)
    &&& e.summary == new.summary.inner()@
}

/// The place is that of the first episode with this reference.
pub open spec fn is_first_at(episodes: Seq<EpisodeView>, id: u64, i: int) -> bool {
    &&& 0 <= i < episodes.len()
    &&& episodes[i].id == id
    &&& forall|k: int| 0 <= k < i ==> (#[trigger] episodes[k]).id != id
}

impl JournalView {
    /// The empty journal.
    pub open spec fn blank() -> JournalView {
        JournalView {
            episodes: Seq::empty(),
            consolidated: Set::empty(),
            resolved: Set::empty(),
            beliefs: Seq::empty(),
            next_id: 0,
        }
    }

    /// What holds of every journal that was only recorded into, resolved and
    /// consolidated: the references are handed out in order, every episode is
    /// filed in order under no more than [`MAX_SUBJECTS`] subjects, and the
    /// beliefs stand in order, one at most for a subject and a polarity.
    pub open spec fn is_orderly(self) -> bool {
        &&& forall|i: int, j: int|
            0 <= i < j < self.episodes.len() ==> (#[trigger] self.episodes[i]).id < (
            #[trigger] self.episodes[j]).id
        &&& forall|i: int|
            0 <= i < self.episodes.len() ==> {
                &&& (#[trigger] self.episodes[i]).id < self.next_id
                &&& ascending_texts(self.episodes[i].subjects)
                &&& self.episodes[i].subjects.len() <= MAX_SUBJECTS
            }
        &&& forall|i: int, k: int|
            0 <= i < k < self.beliefs.len() ==> key_before(
                (#[trigger] self.beliefs[i]).key(),
                (#[trigger] self.beliefs[k]).key(),
            )
    }

    /// `then` is the journal after recording `new`: one more episode, under the next
    /// reference.
    pub open spec fn is_after_record(
        self,
        then: JournalView,
        new: NewEpisode,
        now: Timestamp,
    ) -> bool {
        &&& then.episodes.len() == self.episodes.len() + 1
        &&& is_record_of(then.episodes.last(), new, self.next_id, now)
        &&& then == (JournalView {
            episodes: self.episodes.push(then.episodes.last()),
            next_id: (self.next_id + 1) as u64,
            ..self
        })
    }

    /// The journal with the episode of this reference closed, if there is one.
    pub open spec fn with_resolved(self, id: u64) -> JournalView {
        if self.episode(id) is Some {
            JournalView { resolved: self.resolved.insert(id), ..self }
        } else {
            self
        }
    }

    /// The first episode with this reference.
    pub open spec fn episode(self, id: u64) -> Option<EpisodeView> {
        if exists|i: int| is_first_at(self.episodes, id, i) {
            Some(self.episodes[choose|i: int| is_first_at(self.episodes, id, i)])
        } else {
            None
        }
    }

    /// The beliefs that point this way about this subject.
    pub open spec fn queue(self, key: (Seq<char>, Polarity)) -> Seq<BeliefView> {
        queue(self.beliefs, key)
    }

    /// The belief that points this way about this subject.
    pub open spec fn held(self, key: (Seq<char>, Polarity)) -> Option<BeliefView> {
        if self.queue(key).len() == 0 {
            None
        } else {
            Some(self.queue(key)[0])
        }
    }

    /// The episode can still found a belief.
    pub open spec fn is_open(self, e: EpisodeView) -> bool {
        &&& !(e.polarity is Neutral)
        &&& !self.consolidated.contains(e.id)
        &&& !self.resolved.contains(e.id)
    }

    /// The episode can found a belief of this direction about this subject.
    pub open spec fn feeds(self, key: (Seq<char>, Polarity)) -> spec_fn(EpisodeView) -> bool {
        |e: EpisodeView| self.is_open(e) && e.is_about(key)
    }

    /// What an episode gives to a group: itself, as often as it is filed under
    /// the subject.
    pub open spec fn share(self, key: (Seq<char>, Polarity), e: EpisodeView) -> Seq<EpisodeView> {
        if self.is_open(e) && e.polarity == key.1 {
            Seq::new(occurrences(e.subjects, key.0), |i: int| e)
        } else {
            Seq::empty()
        }
    }

    /// The part of a group that the first `n` episodes make up.
    pub open spec fn part(self, n: nat, key: (Seq<char>, Polarity)) -> Seq<EpisodeView>
        decreases n,
    {
        if n == 0 {
            Seq::empty()
        } else {
            self.part((n - 1) as nat, key) + self.share(key, self.episodes[n - 1])
        }
    }

    /// The episodes that can found a belief of this direction about this
    /// subject, in the order of the journal.
    pub open spec fn group(self, key: (Seq<char>, Polarity)) -> Seq<EpisodeView> {
        self.part(self.episodes.len(), key)
    }

    /// There are enough of them.
    pub open spec fn founds(self, key: (Seq<char>, Polarity)) -> bool {
        self.group(key).len() >= N_CONSOLIDATION
    }

    /// The negative and the positive beliefs about a subject after a pass. The
    /// negative group comes first: it reinforces its own belief and wears down
    /// the positive one; then the positive group does the same the other way.
    pub open spec fn settled(self, subject: Seq<char>, now: Timestamp) -> (
        Seq<BeliefView>,
        Seq<BeliefView>,
    ) {
        self.settled_so_far(subject, now, true, true)
    }

    /// The negative and the positive beliefs about a subject when the negative
    /// group, the positive group, or both have had their turn.
    pub open spec fn settled_so_far(
        self,
        subject: Seq<char>,
        now: Timestamp,
        negative_done: bool,
        positive_done: bool,
    ) -> (Seq<BeliefView>, Seq<BeliefView>) {
        let against = (subject, Polarity::Negative);
        let for_it = (subject, Polarity::Positive);
        let (n1, p1) = if negative_done && self.founds(against) {
            (
                queue_reinforced(self.queue(against), against, self.group(against), now),
                queue_eroded(self.queue(for_it), gain_of(self.group(against))),
            )
        } else {
            (self.queue(against), self.queue(for_it))
        };
        if positive_done && self.founds(for_it) {
            (
                queue_eroded(n1, gain_of(self.group(for_it))),
                queue_reinforced(p1, for_it, self.group(for_it), now),
            )
        } else {
            (n1, p1)
        }
    }

    /// The beliefs that point this way about this subject after a pass.
    pub open spec fn verdict(self, key: (Seq<char>, Polarity), now: Timestamp) -> Seq<BeliefView> {
        match key.1 {
            Polarity::Negative => self.settled(key.0, now).0,
            Polarity::Neutral => self.queue(key),
            Polarity::Positive => self.settled(key.0, now).1,
        }
    }

    /// A pass makes a belief of this episode, about one subject at least.
    pub open spec fn is_consumed(self, e: EpisodeView) -> bool {
        self.is_open(e) && exists|subject: Seq<char>| #[trigger]
            e.subjects.contains(subject) && self.founds((subject, e.polarity))
    }

    /// The references of the episodes that a pass makes beliefs of.
    pub open spec fn consumed(self) -> Set<u64> {
        Set::new(
            |id: u64|
                exists|i: int|
                    0 <= i < self.episodes.len() && (#[trigger] self.episodes[i]).id == id
                        && self.is_consumed(self.episodes[i]),
        )
    }

    /// `then` is the journal after a pass of consolidation: the beliefs stand in
    /// order, under each key those of [`JournalView::verdict`], and the episodes
    /// that were made beliefs of are marked.
    pub open spec fn is_after_pass(self, then: JournalView, now: Timestamp) -> bool {
        &&& then.episodes == self.episodes
        &&& then.consolidated == self.consolidated.union(self.consumed())
        &&& then.resolved == self.resolved
        &&& then.next_id == self.next_id
        &&& in_key_order(then.beliefs)
        &&& forall|key: (Seq<char>, Polarity)| #[trigger]
            then.queue(key) == self.verdict(key, now)
    }

    /// The episode counts of a pass stay within their type.
    pub open spec fn counts_fit(self) -> bool {
        &&& forall|key: (Seq<char>, Polarity)| (#[trigger] self.group(key)).len() <= u32::MAX
        &&& forall|i: int|
            0 <= i < self.beliefs.len() && self.founds((#[trigger] self.beliefs[i]).key())
                ==> self.beliefs[i].episode_count + self.group(self.beliefs[i].key()).len()
                <= u32::MAX
    }

    /// Why the beliefs about a subject are held: each with the episodes that
    /// founded it, in the order of the beliefs.
    pub open spec fn why(self, subject: Seq<char>) -> Seq<(BeliefView, Seq<EpisodeView>)> {
        self.findings(self.beliefs, subject)
    }

    /// The beliefs among these that are about the subject, each with the
    /// episodes that founded it.
    pub open spec fn findings(self, beliefs: Seq<BeliefView>, subject: Seq<char>) -> Seq<
        (BeliefView, Seq<EpisodeView>),
    >
        decreases beliefs.len(),
    {
        if beliefs.len() == 0 {
            Seq::empty()
        } else {
            let b = beliefs.last();
            let before = self.findings(beliefs.drop_last(), subject);
            if b.subject == subject {
                before.push((b, self.founding(b.sources)))
            } else {
                before
            }
        }
    }

    /// The episodes with these references, those that there are.
    pub open spec fn founding(self, refs: Seq<u64>) -> Seq<EpisodeView>
        decreases refs.len(),
    {
        if refs.len() == 0 {
            Seq::empty()
        } else {
            match self.episode(refs.last()) {
                Some(e) => self.founding(refs.drop_last()).push(e),
                None => self.founding(refs.drop_last()),
            }
        }
    }
}

/// The subject and the polarity under which a belief is kept.
#[derive(Debug, PartialEq, Eq, Hash)]
struct BeliefKey {
    subject: Subject,
    polarity: Polarity,
}

impl Clone for BeliefKey {
    fn clone(&self) -> (r: BeliefKey)
        ensures
            r == *self,
    {
        BeliefKey { subject: self.subject.clone(), polarity: self.polarity }
    }
}

impl Ordered for BeliefKey {
    type Key = (Seq<char>, Polarity);

    closed spec fn key(&self) -> (Seq<char>, Polarity) {
        (self.subject@, self.polarity)
    }

    open spec fn before(a: (Seq<char>, Polarity), b: (Seq<char>, Polarity)) -> bool {
        key_before(a, b)
    }

    proof fn before_irreflexive(a: (Seq<char>, Polarity)) {
        text::lemma_text_before_irreflexive(a.0);
    }

    proof fn before_transitive(
        a: (Seq<char>, Polarity),
        b: (Seq<char>, Polarity),
        c: (Seq<char>, Polarity),
    ) {
        if text::text_before(a.0, b.0) && text::text_before(b.0, c.0) {
            text::lemma_text_before_transitive(a.0, b.0, c.0);
        }
    }

    proof fn before_total(a: (Seq<char>, Polarity), b: (Seq<char>, Polarity)) {
        if a.0 != b.0 {
            text::lemma_text_before_total(a.0, b.0);
        }
    }

    fn precedes(&self, other: &Self) -> (r: bool) {
        comes_before(self.subject.as_str(), other.subject.as_str()) || (self.subject.same(
            &other.subject,
        ) && self.polarity.place() < other.polarity.place())
    }

    fn duplicate(&self) -> (r: Self) {
        self.clone()
    }
}

/// The episodic journal and the beliefs consolidated out of it.
///
/// Ids come from an internal counter, every instant is handed in, and a pass
/// leaves the beliefs in the order of their subjects: the same inputs give the
/// same state.
#[derive(Debug, PartialEq, Eq)]
pub struct BeliefJournal {
    episodes: Vec<Episode>,
    consolidated: OrdSet<EpisodeId>,
    resolved: OrdSet<EpisodeId>,
    beliefs: Vec<Belief>,
    next_id: u64,
}

/// The beliefs as mathematical values.
pub open spec fn beliefs_of(beliefs: Seq<Belief>) -> Seq<BeliefView> {
    beliefs.map_values(|b: Belief| b@)
}

/// The episodes as mathematical values.
pub open spec fn episodes_of(episodes: Seq<Episode>) -> Seq<EpisodeView> {
    episodes.map_values(|e: Episode| e@)
}

impl View for BeliefJournal {
    type V = JournalView;

    closed spec fn view(&self) -> JournalView {
        JournalView {
            episodes: episodes_of(self.episodes@),
            consolidated: self.consolidated@,
            resolved: self.resolved@,
            beliefs: beliefs_of(self.beliefs@),
            next_id: self.next_id,
        }
    }
}

impl BeliefJournal {
    /// An empty journal.
    pub fn new() -> (r: BeliefJournal)
        ensures
            r@ == JournalView::blank(),
    {
        let r = BeliefJournal {
            episodes: Vec::new(),
            consolidated: OrdSet::new(),
            resolved: OrdSet::new(),
            beliefs: Vec::new(),
            next_id: 0,
        };
        assert(r@ =~= JournalView::blank());
        r
    }

    /// Append a fact. Returns its stable reference. Recording never forms a
    /// belief: [`BeliefJournal::consolidate`] does.
    pub fn record(&mut self, new: NewEpisode, now: Timestamp) -> (r: EpisodeId)
        requires
            old(self)@.next_id < u64::MAX,
        ensures
            r@ == old(self)@.next_id,
            old(self)@.is_after_record(final(self)@, new, now),
            final(self)@.episodes.len() == old(self)@.episodes.len() + 1,
            ({
                let e = final(self)@.episodes.last();
                &&& final(self)@ == JournalView {
                    episodes: old(self)@.episodes.push(e),
                    next_id: (old(self)@.next_id + 1) as u64,
                    ..old(self)@
                }
                &&& e.id == old(self)@.next_id
                &&& e.at == now
                &&& is_filing(ordered::keys_of(new.subjects@), e.subjects)
                &&& e.polarity == if new.weight@ == 0 {
                    Polarity::Neutral
                } else {
                    new.polarity
                }
                &&& e.weight == new.weight@
                &&& e.reported_by == reporter(new.reported_by)
                &&& e.summary == new.summary.inner()@
            }),
    {
        let weight = new.weight.hundredths();
        let polarity = if weight == 0 {
            Polarity::Neutral
        } else {
            new.polarity
        };
        let id = EpisodeId(self.next_id);
        let subjects = file_under(new.subjects);
        let ghost before = self.episodes@;
        let episode = Episode {
            id,
            at: now,
            subjects,
            polarity,
            weight: new.weight,
            reported_by: new.reported_by,
            summary: new.summary,
        };
        self.episodes.push(episode);
        assert(episodes_of(self.episodes@) =~= episodes_of(before).push(episode@));
        self.next_id = self.next_id + 1;
        id
    }
}

/// The subjects that an episode about all of these is filed under.
fn file_under(subjects: Vec<Subject>) -> (r: Vec<Subject>)
    ensures
        is_filing(ordered::keys_of(subjects@), ordered::keys_of(r@)),
{
    let ghost raw = ordered::keys_of(subjects@);
    let sorted = OrdSet::from_vec(subjects);
    let items = sorted.as_slice();
    let mut out: Vec<Subject> = Vec::new();
    let mut i: usize = 0;
    while i < items.len() && i < MAX_SUBJECTS
        invariant
            i <= items@.len(),
            i <= MAX_SUBJECTS,
            ordered::keys_of(out@) == ordered::keys_of(items@).take(i as int),
        decreases items@.len() - i,
    {
        let ghost before = out@;
        out.push(items[i].clone());
        proof {
            let all = ordered::keys_of(items@);
            assert(ordered::keys_of(out@) =~= ordered::keys_of(before).push(all[i as int]));
            assert(all.take(i + 1) =~= all.take(i as int).push(all[i as int]));
        }
        i = i + 1;
    }
    proof {
        let all = ordered::keys_of(items@);
        let filed = ordered::keys_of(out@);
        assert forall|a: int, b: int| 0 <= a < b < filed.len() implies text::text_before(
            #[trigger] filed[a],
            #[trigger] filed[b],
        ) by {
            assert(Subject::before(items@[a].key(), items@[b].key()));
        }
        assert forall|s: Seq<char>| #[trigger] filed.contains(s) implies raw.contains(s) by {
            let j = filed.index_of(s);
            assert(all[j] == s);
            assert(all.to_set().contains(s));
        }
        assert forall|s: Seq<char>| #[trigger]
            raw.contains(s) && !filed.contains(s) implies filed.len() == MAX_SUBJECTS
            && text::text_before(filed.last(), s) by {
            assert(raw.to_set().contains(s));
            assert(all.to_set().contains(s));
            let j = all.index_of(s);
            assert(all[j] == s);
            if j < i {
                assert(filed[j] == s);
            }
            assert(Subject::before(items@[i - 1].key(), items@[j].key()));
        }
    }
    out
}

/// There is one first episode with a reference.
proof fn lemma_first_at(episodes: Seq<EpisodeView>, id: u64, i: int)
    requires
        is_first_at(episodes, id, i),
    ensures
        forall|k: int| #[trigger] is_first_at(episodes, id, k) ==> k == i,
{
}

impl BeliefJournal {
    /// One episode by reference: the first, where several have it.
    pub fn episode(&self, id: EpisodeId) -> (r: Option<&Episode>)
        ensures
            match r {
                Some(e) => self@.episode(id@) == Some(e@),
                None => self@.episode(id@) is None,
            },
    {
        let ghost told = self@.episodes;
        let mut i: usize = 0;
        while i < self.episodes.len()
            invariant
                i <= self.episodes@.len(),
                told == self@.episodes,
                told == episodes_of(self.episodes@),
                forall|k: int| 0 <= k < i ==> (#[trigger] told[k]).id != id@,
            decreases self.episodes@.len() - i,
        {
            assert(told[i as int].id == self.episodes@[i as int].id@);
            if self.episodes[i].id.0 == id.0 {
                proof {
                    assert(is_first_at(told, id@, i as int));
                    lemma_first_at(told, id@, i as int);
                }
                return Some(&self.episodes[i]);
            }
            i = i + 1;
        }
        None
    }

    /// Close an episode: it stays in the journal and stays readable as
    /// provenance, but it founds no new belief.
    pub fn resolve(&mut self, id: EpisodeId)
        ensures
            final(self)@ == old(self)@.with_resolved(id@),
            final(self)@ == if old(self)@.episode(id@) is Some {
                JournalView { resolved: old(self)@.resolved.insert(id@), ..old(self)@ }
            } else {
                old(self)@
            },
    {
        if self.episode(id).is_some() {
            self.resolved.insert(id);
        }
    }
}

// ---------------------------------------------------------------------------
// Consolidation
// ---------------------------------------------------------------------------

/// A subject occurs among the subjects where it is one of them.
pub proof fn lemma_occurrences(subjects: Seq<Seq<char>>, subject: Seq<char>)
    ensures
        occurrences(subjects, subject) > 0 <==> subjects.contains(subject),
    decreases subjects.len(),
{
    if subjects.len() > 0 {
        let head = subjects.drop_last();
        lemma_occurrences(head, subject);
        if head.contains(subject) {
            assert(subjects[head.index_of(subject)] == subject);
        }
        if subjects.contains(subject) && subjects.last() != subject {
            assert(head[subjects.index_of(subject)] == subject);
        }
        if subjects.last() == subject {
            assert(subjects[subjects.len() - 1] == subject);
        }
    }
}

/// What stands in a group is an episode of the journal that feeds it.
pub proof fn lemma_part_member(j: JournalView, n: nat, key: (Seq<char>, Polarity), k: int)
    requires
        n <= j.episodes.len(),
        0 <= k < j.part(n, key).len(),
    ensures
        exists|i: int|
            0 <= i < n && (#[trigger] j.episodes[i]) == j.part(n, key)[k] && j.feeds(key)(
                j.episodes[i],
            ),
    decreases n,
{
    let head = j.part((n - 1) as nat, key);
    let e = j.episodes[n - 1];
    if k < head.len() {
        lemma_part_member(j, (n - 1) as nat, key, k);
        assert(j.part(n, key)[k] == head[k]);
    } else {
        lemma_occurrences(e.subjects, key.0);
        assert(j.part(n, key)[k] == e);
        assert(j.feeds(key)(j.episodes[n - 1]));
    }
}

/// An episode that feeds a group stands in it.
pub proof fn lemma_part_covers(j: JournalView, n: nat, key: (Seq<char>, Polarity), i: int)
    requires
        n <= j.episodes.len(),
        0 <= i < n,
        j.feeds(key)(j.episodes[i]),
    ensures
        j.part(n, key).contains(j.episodes[i]),
    decreases n,
{
    let head = j.part((n - 1) as nat, key);
    let e = j.episodes[n - 1];
    if i == n - 1 {
        lemma_occurrences(e.subjects, key.0);
        assert(j.part(n, key)[head.len() as int] == e);
    } else {
        lemma_part_covers(j, (n - 1) as nat, key, i);
        let k = head.index_of(j.episodes[i]);
        assert(j.part(n, key)[k] == head[k]);
    }
}

/// The episodes at these places of the journal.
spec fn picked(episodes: Seq<EpisodeView>, places: Seq<usize>) -> Seq<EpisodeView> {
    places.map_values(|i: usize| episodes[i as int])
}

/// What the first `n` episodes give to the group of `key`, and what episode `n`
/// gives to it with the subjects `given`.
spec fn wanted(
    j: JournalView,
    key: (Seq<char>, Polarity),
    n: int,
    given: Seq<Seq<char>>,
) -> Seq<EpisodeView> {
    let e = j.episodes[n];
    j.part(n as nat, key) + if key.1 == e.polarity {
        Seq::new(occurrences(given, key.0), |i: int| e)
    } else {
        Seq::empty()
    }
}

/// The groups list what is wanted under `key`.
spec fn lists(
    j: JournalView,
    groups: Map<(Seq<char>, Polarity), Vec<usize>>,
    key: (Seq<char>, Polarity),
    n: int,
    given: Seq<Seq<char>>,
) -> bool {
    if groups.contains_key(key) {
        &&& picked(j.episodes, groups[key]@) == wanted(j, key, n, given)
        &&& forall|i: int|
            0 <= i < groups[key]@.len() ==> #[trigger] groups[key]@[i] < j.episodes.len()
    } else {
        wanted(j, key, n, given).len() == 0
    }
}

impl BeliefJournal {
    /// The groups of open episodes, by what they are about and which way they
    /// point: for each the places of its episodes in the journal.
    fn groups(&self) -> (r: OrdMap<BeliefKey, Vec<usize>>)
        ensures
            forall|key: (Seq<char>, Polarity)| #[trigger]
                r@.contains_key(key) ==> {
                    &&& picked(self@.episodes, r@[key]@) == self@.group(key)
                    &&& forall|i: int|
                        0 <= i < r@[key]@.len() ==> #[trigger] r@[key]@[i]
                            < self@.episodes.len()
                },
            forall|key: (Seq<char>, Polarity)|
                !r@.contains_key(key) ==> (#[trigger] self@.group(key)).len() == 0,
    {
        let ghost j = self@;
        let mut groups: OrdMap<BeliefKey, Vec<usize>> = OrdMap::new();
        proof {
            assert forall|key: (Seq<char>, Polarity)| #[trigger] lists(
                j,
                groups@,
                key,
                0,
                Seq::empty(),
            ) by {}
        }
        let mut n: usize = 0;
        while n < self.episodes.len()
            invariant
                n <= self.episodes@.len(),
                j == self@,
                forall|key: (Seq<char>, Polarity)| #[trigger]
                    lists(j, groups@, key, n as int, Seq::empty()),
            decreases self.episodes@.len() - n,
        {
            let episode = &self.episodes[n];
            let ghost e = j.episodes[n as int];
            assert(e == episode@);
            let closed = episode.polarity.is_neutral() || self.consolidated.contains(&episode.id)
                || self.resolved.contains(&episode.id);
            assert(closed == !j.is_open(e));
            if !closed {
                proof {
                    assert(e.subjects.take(0) =~= Seq::empty());
                }
                let mut k: usize = 0;
                while k < episode.subjects.len()
                    invariant
                        k <= episode.subjects@.len(),
                        j == self@,
                        0 <= n < self.episodes@.len(),
                        *episode == self.episodes@[n as int],
                        e == episode@,
                        e == j.episodes[n as int],
                        forall|key: (Seq<char>, Polarity)| #[trigger]
                            lists(j, groups@, key, n as int, e.subjects.take(k as int)),
                    decreases episode.subjects@.len() - k,
                {
                    let key = BeliefKey {
                        subject: episode.subjects[k].clone(),
                        polarity: episode.polarity,
                    };
                    let ghost key0 = key.key();
                    let ghost before = groups@;
                    let ghost firsts = e.subjects.take(k as int);
                    assert(key0 == (e.subjects[k as int], e.polarity));
                    assert(lists(j, groups@, key0, n as int, firsts));
                    let mut places: Vec<usize> = match groups.remove(&key) {
                        Some(v) => v,
                        None => Vec::new(),
                    };
                    let ghost listed = places@;
                    assert(picked(j.episodes, listed) =~= wanted(j, key0, n as int, firsts));
                    places.push(n);
                    groups.insert(key, places);
                    proof {
                        let more = e.subjects.take(k + 1);
                        assert(more.drop_last() =~= firsts);
                        assert(more.last() == key0.0);
                        assert forall|q: (Seq<char>, Polarity)| #[trigger]
                            lists(j, groups@, q, n as int, more) by {
                            assert(lists(j, before, q, n as int, firsts));
                            if q == key0 {
                                assert(picked(j.episodes, places@) =~= picked(
                                    j.episodes,
                                    listed,
                                ).push(e));
                                assert(wanted(j, q, n as int, more) =~= wanted(
                                    j,
                                    q,
                                    n as int,
                                    firsts,
                                ).push(e));
                            } else {
                                assert(wanted(j, q, n as int, more) =~= wanted(
                                    j,
                                    q,
                                    n as int,
                                    firsts,
                                ));
                                assert(groups@.contains_key(q) == before.contains_key(q));
                            }
                        }
                    }
                    k = k + 1;
                }
                proof {
                    assert(e.subjects.take(e.subjects.len() as int) =~= e.subjects);
                    assert forall|key: (Seq<char>, Polarity)| #[trigger]
                        lists(j, groups@, key, n + 1, Seq::empty()) by {
                        assert(lists(j, groups@, key, n as int, e.subjects));
                        assert(wanted(j, key, n + 1, Seq::empty()) =~= wanted(
                            j,
                            key,
                            n as int,
                            e.subjects,
                        ));
                    }
                }
            } else {
                proof {
                    assert forall|key: (Seq<char>, Polarity)| #[trigger]
                        lists(j, groups@, key, n + 1, Seq::empty()) by {
                        assert(lists(j, groups@, key, n as int, Seq::empty()));
                        assert(wanted(j, key, n + 1, Seq::empty()) =~= wanted(
                            j,
                            key,
                            n as int,
                            Seq::empty(),
                        ));
                    }
                }
            }
            n = n + 1;
        }
        proof {
            let n = j.episodes.len() as int;
            assert forall|key: (Seq<char>, Polarity)| wanted(j, key, n, Seq::empty())
                == #[trigger] j.group(key) by {
                assert(wanted(j, key, n, Seq::empty()) =~= j.group(key));
            }
            assert forall|key: (Seq<char>, Polarity)| #[trigger]
                groups@.contains_key(key) implies {
                &&& picked(j.episodes, groups@[key]@) == j.group(key)
                &&& forall|i: int|
                    0 <= i < groups@[key]@.len() ==> #[trigger] groups@[key]@[i]
                        < j.episodes.len()
            } by {
                assert(lists(j, groups@, key, n, Seq::empty()));
                assert(wanted(j, key, n, Seq::empty()) == j.group(key));
            }
            assert forall|key: (Seq<char>, Polarity)| !groups@.contains_key(key) implies (
            #[trigger] j.group(key)).len() == 0 by {
                assert(lists(j, groups@, key, n, Seq::empty()));
            }
        }
        groups
    }
}

/// What the episodes at `places` make together: the strength they add, whether
/// one of them was first-hand, and their references.
fn weigh(episodes: &Vec<Episode>, places: &Vec<usize>) -> (r: (Strength, bool, Vec<EpisodeId>))
    requires
        forall|i: int| 0 <= i < places@.len() ==> #[trigger] places@[i] < episodes@.len(),
    ensures
        ({
            let group = picked(episodes_of(episodes@), places@);
            &&& r.0@ == gain_of(group)
            &&& r.1 == witnessed(group)
            &&& ordered::keys_of(r.2@) == refs_of(group)
        }),
{
    let ghost group = picked(episodes_of(episodes@), places@);
    let mut sum: u16 = 0;
    let mut first_hand = false;
    let mut refs: Vec<EpisodeId> = Vec::new();
    let mut i: usize = 0;
    assert(group.take(0) =~= Seq::<EpisodeView>::empty());
    while i < places.len()
        invariant
            i <= places@.len(),
            group == picked(episodes_of(episodes@), places@),
            forall|k: int| 0 <= k < places@.len() ==> #[trigger] places@[k] < episodes@.len(),
            sum == if weight_of(group.take(i as int)) > 400 {
                400
            } else {
                weight_of(group.take(i as int))
            },
            first_hand == (exists|k: int|
                0 <= k < i && (#[trigger] group[k]).reported_by is None),
            refs@.len() == i,
            forall|k: int| 0 <= k < i ==> (#[trigger] refs@[k])@ == group[k].id,
        decreases places@.len() - i,
    {
        let episode = &episodes[places[i]];
        assert(group[i as int] == episode@);
        proof {
            assert(group.take(i + 1).drop_last() =~= group.take(i as int));
            assert(group.take(i + 1).last() == group[i as int]);
        }
        let weight: u16 = episode.weight.hundredths();
        let counted: u16 = if weight > WEIGHT_CAP_HUNDREDTHS {
            WEIGHT_CAP_HUNDREDTHS
        } else {
            weight
        };
        sum = if sum + counted > 400 {
            400
        } else {
            sum + counted
        };
        if episode.is_first_hand() {
            first_hand = true;
        }
        refs.push(episode.id);
        i = i + 1;
    }
    proof {
        assert(group.take(i as int) =~= group);
        assert(ordered::keys_of(refs@) =~= refs_of(group));
    }
    let quarter: u16 = sum / 4;
    (Strength::from_hundredths(quarter as u8), first_hand, refs)
}

/// The last [`MAX_SOURCES`] of the references.
fn keep_latest(refs: Vec<EpisodeId>) -> (r: Vec<EpisodeId>)
    ensures
        ordered::keys_of(r@) == latest(ordered::keys_of(refs@)),
{
    if refs.len() <= MAX_SOURCES {
        return refs;
    }
    let start: usize = refs.len() - MAX_SOURCES;
    let mut out: Vec<EpisodeId> = Vec::new();
    let mut i: usize = start;
    while i < refs.len()
        invariant
            start <= i <= refs@.len(),
            out@.len() == i - start,
            forall|k: int| 0 <= k < i - start ==> (#[trigger] out@[k]) == refs@[start + k],
        decreases refs@.len() - i,
    {
        out.push(refs[i]);
        i = i + 1;
    }
    assert(ordered::keys_of(out@) =~= latest(ordered::keys_of(refs@)));
    out
}

/// The beliefs that are queued under `key`.
spec fn queue_at(
    queues: Map<(Seq<char>, Polarity), Vec<Belief>>,
    key: (Seq<char>, Polarity),
) -> Seq<BeliefView> {
    if queues.contains_key(key) {
        beliefs_of(queues[key]@)
    } else {
        Seq::empty()
    }
}

/// One more belief joins the queue of its own key and no other.
proof fn lemma_queue_push(beliefs: Seq<BeliefView>, b: BeliefView, key: (Seq<char>, Polarity))
    ensures
        queue(beliefs.push(b), key) == if b.key() == key {
            queue(beliefs, key).push(b)
        } else {
            queue(beliefs, key)
        },
{
    reveal(Seq::filter);
    assert(beliefs.push(b).drop_last() =~= beliefs);
}

/// What stands in a queue is one of the beliefs and under the queue's key.
pub proof fn lemma_queue_member(
    beliefs: Seq<BeliefView>,
    key: (Seq<char>, Polarity),
    k: int,
)
    requires
        0 <= k < queue(beliefs, key).len(),
    ensures
        beliefs.contains(queue(beliefs, key)[k]),
        queue(beliefs, key)[k].key() == key,
    decreases beliefs.len(),
{
    reveal(Seq::filter);
    if beliefs.len() > 0 {
        let head = beliefs.drop_last();
        lemma_queue_push(head, beliefs.last(), key);
        assert(head.push(beliefs.last()) =~= beliefs);
        if k < queue(head, key).len() {
            lemma_queue_member(head, key, k);
            assert(queue(beliefs, key)[k] == queue(head, key)[k]);
            let i = head.index_of(queue(head, key)[k]);
            assert(beliefs[i] == head[i]);
        } else {
            assert(beliefs[beliefs.len() - 1] == queue(beliefs, key)[k]);
        }
    }
}

/// Sorts the beliefs into queues.
fn queued(beliefs: &Vec<Belief>) -> (r: OrdMap<BeliefKey, Vec<Belief>>)
    ensures
        forall|key: (Seq<char>, Polarity)| #[trigger]
            queue_at(r@, key) == queue(beliefs_of(beliefs@), key),
{
    let ghost all = beliefs_of(beliefs@);
    let mut queues: OrdMap<BeliefKey, Vec<Belief>> = OrdMap::new();
    let mut i: usize = 0;
    proof {
        assert forall|key: (Seq<char>, Polarity)| #[trigger] queue_at(queues@, key) == queue(
            all.take(0),
            key,
        ) by {
            reveal(Seq::filter);
        }
    }
    while i < beliefs.len()
        invariant
            i <= beliefs@.len(),
            all == beliefs_of(beliefs@),
            forall|key: (Seq<char>, Polarity)| #[trigger]
                queue_at(queues@, key) == queue(all.take(i as int), key),
        decreases beliefs@.len() - i,
    {
        let belief = beliefs[i].clone();
        let key = BeliefKey { subject: belief.subject.clone(), polarity: belief.polarity };
        let ghost before = queues@;
        let ghost b = all[i as int];
        assert(b == belief@ && b.key() == key.key());
        assert(queue_at(before, key.key()) == queue(all.take(i as int), key.key()));
        let mut held: Vec<Belief> = match queues.remove(&key) {
            Some(v) => v,
            None => Vec::new(),
        };
        let ghost earlier = held@;
        assert(beliefs_of(earlier) =~= queue_at(before, key.key()));
        held.push(belief);
        queues.insert(key, held);
        proof {
            assert(all.take(i + 1) =~= all.take(i as int).push(b));
            assert(beliefs_of(held@) =~= beliefs_of(earlier).push(b));
            assert forall|q: (Seq<char>, Polarity)| #[trigger] queue_at(queues@, q) == queue(
                all.take(i + 1),
                q,
            ) by {
                lemma_queue_push(all.take(i as int), b, q);
                assert(queue_at(before, q) == queue(all.take(i as int), q));
            }
        }
        i = i + 1;
    }
    assert(all.take(i as int) =~= all);
    queues
}

/// Lays the queues one behind the other, in the order of their keys.
fn laid_out(queues: &OrdMap<BeliefKey, Vec<Belief>>) -> (r: Vec<Belief>)
    requires
        forall|key: (Seq<char>, Polarity), k: int|
            0 <= k < queue_at(queues@, key).len() ==> (#[trigger] queue_at(queues@, key)[k]).key()
                == key,
    ensures
        in_key_order(beliefs_of(r@)),
        forall|key: (Seq<char>, Polarity)| #[trigger]
            queue(beliefs_of(r@), key) == queue_at(queues@, key),
{
    let keys = queues.keys();
    let members = queues.values();
    let ghost all = ordered::keys_of(keys@);
    let mut out: Vec<Belief> = Vec::new();
    proof {
        ordered::lemma_ascending_distinct(keys@);
        assert forall|key: (Seq<char>, Polarity)| queue(beliefs_of(out@), key)
            == #[trigger] laid_so_far(queues@, all, key, 0, Seq::empty()) by {
            reveal(Seq::filter);
        }
    }
    let mut i: usize = 0;
    while i < keys.len()
        invariant
            i <= keys@.len(),
            all == ordered::keys_of(keys@),
            all.no_duplicates(),
            ordered::ascending(keys@),
            keys@ == queues.key_seq(),
            members@.len() == keys@.len(),
            all.to_set() == queues@.dom(),
            forall|k: int|
                0 <= k < members@.len() ==> #[trigger] members@[k]
                    == queues@[queues.key_seq()[k].key()],
            forall|key: (Seq<char>, Polarity), k: int|
                0 <= k < queue_at(queues@, key).len() ==> (#[trigger] queue_at(
                    queues@,
                    key,
                )[k]).key() == key,
            in_key_order(beliefs_of(out@)),
            forall|m: int|
                0 <= m < out@.len() ==> all.take(i as int).contains((#[trigger] out@[m])@.key()),
            forall|key: (Seq<char>, Polarity)|
                queue(beliefs_of(out@), key) == #[trigger] laid_so_far(
                    queues@,
                    all,
                    key,
                    i as int,
                    Seq::empty(),
                ),
        decreases keys@.len() - i,
    {
        let held = &members[i];
        let ghost here = all[i as int];
        let ghost views = beliefs_of(held@);
        proof {
            assert(here == keys@[i as int].key());
            assert(all.to_set().contains(here));
            assert(queue_at(queues@, here) == views);
            assert(all.take(i + 1) =~= all.take(i as int).push(here));
            assert forall|m: int| 0 <= m < out@.len() implies all.take(i + 1).contains(
                (#[trigger] out@[m])@.key(),
            ) by {
                let at = all.take(i as int).index_of(out@[m]@.key());
                assert(all.take(i + 1)[at] == out@[m]@.key());
            }
            assert(views.take(0) =~= Seq::empty());
        }
        let mut k: usize = 0;
        while k < held.len()
            invariant
                k <= held@.len(),
                i < keys@.len(),
                all == ordered::keys_of(keys@),
                all.no_duplicates(),
                ordered::ascending(keys@),
                here == all[i as int],
                views == beliefs_of(held@),
                views == queue_at(queues@, here),
                forall|m: int| 0 <= m < views.len() ==> (#[trigger] views[m]).key() == here,
                in_key_order(beliefs_of(out@)),
                forall|m: int|
                    0 <= m < out@.len() ==> all.take(i + 1).contains((#[trigger] out@[m])@.key()),
                forall|key: (Seq<char>, Polarity)|
                    queue(beliefs_of(out@), key) == #[trigger] laid_so_far(
                        queues@,
                        all,
                        key,
                        i as int,
                        views.take(k as int),
                    ),
            decreases held@.len() - k,
        {
            let belief = held[k].clone();
            let ghost before = out@;
            let ghost b = views[k as int];
            assert(b == belief@);
            out.push(belief);
            proof {
                assert(beliefs_of(out@) =~= beliefs_of(before).push(b));
                assert(views.take(k + 1) =~= views.take(k as int).push(b));
                assert(all.take(i + 1)[i as int] == here);
                assert forall|m: int| 0 <= m < before.len() implies !key_before(
                    here,
                    (#[trigger] before[m])@.key(),
                ) by {
                    let at = all.take(i + 1).index_of(before[m]@.key());
                    assert(all[at] == before[m]@.key());
                    assert(keys@[at].key() == all[at] && keys@[i as int].key() == all[i as int]);
                    if key_before(here, all[at]) {
                        if at < i {
                            assert(BeliefKey::before(keys@[at].key(), keys@[i as int].key()));
                            BeliefKey::before_transitive(here, all[at], here);
                        }
                        BeliefKey::before_irreflexive(here);
                    }
                }
                let now_laid = beliefs_of(out@);
                assert forall|x: int, y: int| 0 <= x < y < now_laid.len() implies !key_before(
                    (#[trigger] now_laid[y]).key(),
                    (#[trigger] now_laid[x]).key(),
                ) by {
                    assert(now_laid[x] == beliefs_of(before)[x]);
                    if y < before.len() {
                        assert(now_laid[y] == beliefs_of(before)[y]);
                    } else {
                        assert(now_laid[x] == before[x]@);
                    }
                }
                assert forall|key: (Seq<char>, Polarity)| queue(beliefs_of(out@), key)
                    == #[trigger] laid_so_far(queues@, all, key, i as int, views.take(k + 1)) by {
                    lemma_queue_push(beliefs_of(before), b, key);
                    assert(queue(beliefs_of(before), key) == laid_so_far(
                        queues@,
                        all,
                        key,
                        i as int,
                        views.take(k as int),
                    ));
                    lemma_not_yet(all, i as int, here);
                    assert(laid_so_far(queues@, all, key, i as int, views.take(k + 1)) =~= if key
                        == here {
                        laid_so_far(queues@, all, key, i as int, views.take(k as int)).push(b)
                    } else {
                        laid_so_far(queues@, all, key, i as int, views.take(k as int))
                    });
                }
            }
            k = k + 1;
        }
        proof {
            assert(views.take(k as int) =~= views);
            assert forall|key: (Seq<char>, Polarity)| queue(beliefs_of(out@), key)
                == #[trigger] laid_so_far(queues@, all, key, i + 1, Seq::empty()) by {
                assert(queue(beliefs_of(out@), key) == laid_so_far(
                    queues@,
                    all,
                    key,
                    i as int,
                    views,
                ));
                lemma_not_yet(all, i as int, here);
                lemma_one_more(all, i as int, key);
                assert(laid_so_far(queues@, all, key, i + 1, Seq::empty()) =~= laid_so_far(
                    queues@,
                    all,
                    key,
                    i as int,
                    views,
                ));
            }
        }
        i = i + 1;
    }
    proof {
        assert(all.take(i as int) =~= all);
        assert forall|key: (Seq<char>, Polarity)| #[trigger] queue(beliefs_of(out@), key)
            == queue_at(queues@, key) by {
            assert(queue(beliefs_of(out@), key) == laid_so_far(
                queues@,
                all,
                key,
                i as int,
                Seq::empty(),
            ));
            assert(all.contains(key) == all.to_set().contains(key));
        }
    }
    out
}

/// What is laid out of the queue of `key` when the first `n` queues are, and
/// `given` of the next one.
spec fn laid_so_far(
    queues: Map<(Seq<char>, Polarity), Vec<Belief>>,
    all: Seq<(Seq<char>, Polarity)>,
    key: (Seq<char>, Polarity),
    n: int,
    given: Seq<BeliefView>,
) -> Seq<BeliefView> {
    if all.take(n).contains(key) {
        queue_at(queues, key)
    } else if n < all.len() && all[n] == key {
        given
    } else {
        Seq::empty()
    }
}

/// A key is not among those before it.
proof fn lemma_not_yet(
    all: Seq<(Seq<char>, Polarity)>,
    n: int,
    key: (Seq<char>, Polarity),
)
    requires
        all.no_duplicates(),
        0 <= n < all.len(),
        all[n] == key,
    ensures
        !all.take(n).contains(key),
{
    if all.take(n).contains(key) {
        let m = all.take(n).index_of(key);
        assert(all[m] == key);
    }
}

/// One key more is among the first keys.
proof fn lemma_one_more(
    all: Seq<(Seq<char>, Polarity)>,
    n: int,
    key: (Seq<char>, Polarity),
)
    requires
        all.no_duplicates(),
        0 <= n < all.len(),
    ensures
        all.take(n + 1).contains(key) <==> (all.take(n).contains(key) || all[n] == key),
        n + 1 < all.len() && all[n + 1] == key ==> !all.take(n + 1).contains(key),
{
    if all.take(n).contains(key) {
        let m = all.take(n).index_of(key);
        assert(all.take(n + 1)[m] == key);
    }
    if all[n] == key {
        assert(all.take(n + 1)[n] == key);
    }
    if all.take(n + 1).contains(key) {
        let m = all.take(n + 1).index_of(key);
        if m < n {
            assert(all.take(n)[m] == key);
        }
    }
    if n + 1 < all.len() && all[n + 1] == key {
        lemma_not_yet(all, n + 1, key);
    }
}

/// Makes a belief of the episodes at `places`, or makes them part of the first
/// one that is held. Returns the strength that they add.
fn reinforce(
    queues: &mut OrdMap<BeliefKey, Vec<Belief>>,
    key: &BeliefKey,
    episodes: &Vec<Episode>,
    places: &Vec<usize>,
    now: Timestamp,
) -> (gain: Strength)
    requires
        forall|i: int| 0 <= i < places@.len() ==> #[trigger] places@[i] < episodes@.len(),
        places@.len() <= u32::MAX,
        queue_at(old(queues)@, key.key()).len() > 0 ==> queue_at(
            old(queues)@,
            key.key(),
        )[0].episode_count + places@.len() <= u32::MAX,
    ensures
        ({
            let group = picked(episodes_of(episodes@), places@);
            &&& gain@ == gain_of(group)
            &&& forall|q: (Seq<char>, Polarity)| #[trigger]
                queue_at(final(queues)@, q) == if q == key.key() {
                    queue_reinforced(queue_at(old(queues)@, q), q, group, now)
                } else {
                    queue_at(old(queues)@, q)
                }
        }),
{
    let ghost group = picked(episodes_of(episodes@), places@);
    let (gain, first_hand, refs) = weigh(episodes, places);
    let count: u32 = places.len() as u32;
    let ghost before = queues@;
    let mut held: Vec<Belief> = match queues.remove(key) {
        Some(v) => v,
        None => Vec::new(),
    };
    let ghost earlier = held@;
    assert(beliefs_of(earlier) =~= queue_at(before, key.key()));
    assert(group.len() == places@.len());
    if held.len() == 0 {
        let belief = Belief {
            subject: key.subject.clone(),
            polarity: key.polarity,
            strength: gain,
            episode_count: count,
            formed_at: now,
            last_reinforced_at: now,
            sources: keep_latest(refs),
            first_hand,
        };
        held.push(belief);
        assert(beliefs_of(held@) =~= queue_reinforced(
            beliefs_of(earlier),
            key.key(),
            group,
            now,
        ));
    } else {
        let b = held[0].clone();
        assert(b@ == beliefs_of(earlier)[0]);
        let mut sources = b.sources;
        let ghost known = sources@;
        let mut i: usize = 0;
        while i < refs.len()
            invariant
                i <= refs@.len(),
                sources@ == known + refs@.take(i as int),
            decreases refs@.len() - i,
        {
            sources.push(refs[i]);
            assert(refs@.take(i + 1) =~= refs@.take(i as int).push(refs@[i as int]));
            i = i + 1;
        }
        proof {
            assert(refs@.take(i as int) =~= refs@);
            assert(ordered::keys_of(sources@) =~= ordered::keys_of(known) + ordered::keys_of(
                refs@,
            ));
        }
        let strength = b.strength.saturating_add(gain);
        proof {
            use_type_invariant(&b.strength);
        }
        let belief = Belief {
            subject: b.subject,
            polarity: b.polarity,
            strength,
            episode_count: b.episode_count + count,
            formed_at: b.formed_at,
            last_reinforced_at: now,
            sources: keep_latest(sources),
            first_hand: b.first_hand || first_hand,
        };
        held[0] = belief;
        assert(belief@ == reinforced(Some(beliefs_of(earlier)[0]), key.key(), group, now));
        assert(beliefs_of(held@) =~= queue_reinforced(
            beliefs_of(earlier),
            key.key(),
            group,
            now,
        ));
    }
    queues.insert(key.clone(), held);
    gain
}

/// Wears the first belief under `key` down by `gain`; it leaves where it dies.
fn erode(queues: &mut OrdMap<BeliefKey, Vec<Belief>>, key: BeliefKey, gain: Strength)
    ensures
        forall|q: (Seq<char>, Polarity)| #[trigger]
            queue_at(final(queues)@, q) == if q == key.key() {
                queue_eroded(queue_at(old(queues)@, q), gain@ as nat)
            } else {
                queue_at(old(queues)@, q)
            },
{
    let ghost before = queues@;
    let mut held: Vec<Belief> = match queues.remove(&key) {
        Some(v) => v,
        None => Vec::new(),
    };
    let ghost earlier = held@;
    assert(beliefs_of(earlier) =~= queue_at(before, key.key()));
    if held.len() > 0 {
        let b = held[0].clone();
        assert(b@ == beliefs_of(earlier)[0]);
        let strength = b.strength.saturating_sub(gain);
        if strength.hundredths() != 0 {
            let worn = Belief {
                subject: b.subject,
                polarity: b.polarity,
                strength,
                episode_count: b.episode_count,
                formed_at: b.formed_at,
                last_reinforced_at: b.last_reinforced_at,
                sources: b.sources,
                first_hand: b.first_hand,
            };
            held[0] = worn;
            assert(Some(worn@) == eroded(Some(beliefs_of(earlier)[0]), gain@ as nat));
        } else {
            held.remove(0);
            assert(eroded(Some(beliefs_of(earlier)[0]), gain@ as nat) is None);
        }
    }
    assert(beliefs_of(held@) =~= queue_eroded(beliefs_of(earlier), gain@ as nat));
    queues.insert(key, held);
}

/// The beliefs about a subject stand as they do when the groups `done` have had
/// their turn.
spec fn stands(
    j: JournalView,
    queues: Map<(Seq<char>, Polarity), Vec<Belief>>,
    subject: Seq<char>,
    now: Timestamp,
    done: Seq<(Seq<char>, Polarity)>,
) -> bool {
    let (against, for_it) = j.settled_so_far(
        subject,
        now,
        done.contains((subject, Polarity::Negative)),
        done.contains((subject, Polarity::Positive)),
    );
    &&& queue_at(queues, (subject, Polarity::Negative)) == against
    &&& queue_at(queues, (subject, Polarity::Neutral)) == j.queue((subject, Polarity::Neutral))
    &&& queue_at(queues, (subject, Polarity::Positive)) == for_it
}

/// The references of the episodes that the groups `done` were made of.
spec fn spent(j: JournalView, done: Seq<(Seq<char>, Polarity)>) -> Set<u64> {
    Set::new(
        |id: u64|
            exists|i: int, m: int|
                #![trigger j.episodes[i], done[m]]
                {
                    &&& 0 <= i < j.episodes.len()
                    &&& 0 <= m < done.len()
                    &&& j.episodes[i].id == id
                    &&& j.founds(done[m])
                    &&& j.feeds(done[m])(j.episodes[i])
                },
    )
}

/// The queue of `q` when the group of `key` has had its turn.
spec fn after_turn(
    j: JournalView,
    queues: Map<(Seq<char>, Polarity), Vec<Belief>>,
    key: (Seq<char>, Polarity),
    now: Timestamp,
    q: (Seq<char>, Polarity),
) -> Seq<BeliefView> {
    if q == key {
        queue_reinforced(queue_at(queues, q), q, j.group(key), now)
    } else if q == (key.0, key.1.opposite()) {
        queue_eroded(queue_at(queues, q), gain_of(j.group(key)))
    } else {
        queue_at(queues, q)
    }
}

/// Nothing neutral founds a belief.
pub proof fn lemma_founding_is_pointed(j: JournalView, key: (Seq<char>, Polarity))
    requires
        j.founds(key),
    ensures
        !(key.1 is Neutral),
{
    lemma_part_member(j, j.episodes.len(), key, 0);
}

proof fn lemma_turn(
    j: JournalView,
    queues: Map<(Seq<char>, Polarity), Vec<Belief>>,
    then: Map<(Seq<char>, Polarity), Vec<Belief>>,
    key: (Seq<char>, Polarity),
    now: Timestamp,
    done: Seq<(Seq<char>, Polarity)>,
)
    requires
        forall|s: Seq<char>| #[trigger] stands(j, queues, s, now, done),
        forall|q: (Seq<char>, Polarity)| #[trigger]
            queue_at(then, q) == after_turn(j, queues, key, now, q),
        !done.contains(key),
        j.founds(key),
        key.1 is Negative ==> !done.contains((key.0, Polarity::Positive)),
        key.1 is Positive ==> done.contains((key.0, Polarity::Negative)) || !j.founds(
            (key.0, Polarity::Negative),
        ),
    ensures
        forall|s: Seq<char>| #[trigger] stands(j, then, s, now, done.push(key)),
{
    lemma_founding_is_pointed(j, key);
    let more = done.push(key);
    assert(stands(j, queues, key.0, now, done));
    assert forall|q: (Seq<char>, Polarity)| #[trigger] more.contains(q) <==> (done.contains(q) || q
        == key) by {
        if done.contains(q) {
            assert(more[done.index_of(q)] == q);
        }
        assert(more[done.len() as int] == key);
        if more.contains(q) && q != key {
            assert(done[more.index_of(q)] == q);
        }
    }
    assert forall|s: Seq<char>| #[trigger] stands(j, then, s, now, more) by {
        assert(stands(j, queues, s, now, done));
        let against = (s, Polarity::Negative);
        let neutral = (s, Polarity::Neutral);
        let for_it = (s, Polarity::Positive);
        assert(more.contains(against) == (done.contains(against) || against == key));
        assert(more.contains(for_it) == (done.contains(for_it) || for_it == key));
        assert(queue_at(then, against) == after_turn(j, queues, key, now, against));
        assert(queue_at(then, neutral) == after_turn(j, queues, key, now, neutral));
        assert(queue_at(then, for_it) == after_turn(j, queues, key, now, for_it));
        if s == key.0 {
            if key.1 is Negative {
                assert(key == against);
            } else {
                assert(key == for_it);
            }
        }
    }
}

/// Before its turn the first belief of a key has a count that fits.
proof fn lemma_count_fits(
    j: JournalView,
    queues: Map<(Seq<char>, Polarity), Vec<Belief>>,
    key: (Seq<char>, Polarity),
    now: Timestamp,
    done: Seq<(Seq<char>, Polarity)>,
)
    requires
        j.counts_fit(),
        forall|s: Seq<char>| #[trigger] stands(j, queues, s, now, done),
        !done.contains(key),
        j.founds(key),
        key.1 is Negative ==> !done.contains((key.0, Polarity::Positive)),
        queue_at(queues, key).len() > 0,
    ensures
        queue_at(queues, key)[0].episode_count + j.group(key).len() <= u32::MAX,
{
    lemma_founding_is_pointed(j, key);
    assert(stands(j, queues, key.0, now, done));
    let held = j.queue(key);
    assert forall|k: int| 0 <= k < held.len() implies (#[trigger] held[k]).episode_count + j.group(
        key,
    ).len() <= u32::MAX by {
        lemma_queue_member(j.beliefs, key, k);
        let i = j.beliefs.index_of(held[k]);
        assert(j.beliefs[i].key() == key);
    }
    let first = queue_at(queues, key)[0];
    if held.len() > 0 && first.episode_count != held[0].episode_count {
        assert(first == held[1]);
    }
}

/// A group that is too small changes nothing.
proof fn lemma_no_turn(
    j: JournalView,
    queues: Map<(Seq<char>, Polarity), Vec<Belief>>,
    key: (Seq<char>, Polarity),
    now: Timestamp,
    done: Seq<(Seq<char>, Polarity)>,
)
    requires
        forall|s: Seq<char>| #[trigger] stands(j, queues, s, now, done),
        !j.founds(key),
    ensures
        forall|s: Seq<char>| #[trigger] stands(j, queues, s, now, done.push(key)),
        spent(j, done.push(key)) == spent(j, done),
{
    let more = done.push(key);
    assert forall|q: (Seq<char>, Polarity)| q != key implies #[trigger] more.contains(q)
        == done.contains(q) by {
        if done.contains(q) {
            assert(more[done.index_of(q)] == q);
        }
        if more.contains(q) {
            assert(done[more.index_of(q)] == q);
        }
    }
    assert forall|s: Seq<char>| #[trigger] stands(j, queues, s, now, more) by {
        assert(stands(j, queues, s, now, done));
    }
    assert forall|id: u64| spent(j, more).contains(id) <==> spent(j, done).contains(id) by {
        if spent(j, done).contains(id) {
            let (i, m) = choose|i: int, m: int|
                #![trigger j.episodes[i], done[m]]
                {
                    &&& 0 <= i < j.episodes.len()
                    &&& 0 <= m < done.len()
                    &&& j.episodes[i].id == id
                    &&& j.founds(done[m])
                    &&& j.feeds(done[m])(j.episodes[i])
                };
            assert(more[m] == done[m]);
            assert(j.episodes[i].id == id);
        }
        if spent(j, more).contains(id) {
            let (i, m) = choose|i: int, m: int|
                #![trigger j.episodes[i], more[m]]
                {
                    &&& 0 <= i < j.episodes.len()
                    &&& 0 <= m < more.len()
                    &&& j.episodes[i].id == id
                    &&& j.founds(more[m])
                    &&& j.feeds(more[m])(j.episodes[i])
                };
            assert(m < done.len());
            assert(more[m] == done[m]);
        }
    }
    assert(spent(j, more) =~= spent(j, done));
}

/// A group that founds a belief spends its own episodes.
proof fn lemma_spent(
    j: JournalView,
    key: (Seq<char>, Polarity),
    done: Seq<(Seq<char>, Polarity)>,
)
    requires
        j.founds(key),
    ensures
        spent(j, done.push(key)) == spent(j, done).union(refs_of(j.group(key)).to_set()),
{
    let more = done.push(key);
    let refs = refs_of(j.group(key));
    let both = spent(j, done).union(refs.to_set());
    assert forall|id: u64| #[trigger] spent(j, more).contains(id) <==> both.contains(id) by {
        if spent(j, done).contains(id) {
            let (i, m) = choose|i: int, m: int|
                #![trigger j.episodes[i], done[m]]
                {
                    &&& 0 <= i < j.episodes.len()
                    &&& 0 <= m < done.len()
                    &&& j.episodes[i].id == id
                    &&& j.founds(done[m])
                    &&& j.feeds(done[m])(j.episodes[i])
                };
            assert(more[m] == done[m]);
            assert(j.episodes[i].id == id);
        }
        if refs.contains(id) {
            let g = refs.index_of(id);
            lemma_part_member(j, j.episodes.len(), key, g);
            let i = choose|i: int|
                0 <= i < j.episodes.len() && (#[trigger] j.episodes[i]) == j.group(key)[g]
                    && j.feeds(key)(j.episodes[i]);
            assert(j.episodes[i].id == id);
            assert(more[done.len() as int] == key);
        }
        if spent(j, more).contains(id) {
            let (i, m) = choose|i: int, m: int|
                #![trigger j.episodes[i], more[m]]
                {
                    &&& 0 <= i < j.episodes.len()
                    &&& 0 <= m < more.len()
                    &&& j.episodes[i].id == id
                    &&& j.founds(more[m])
                    &&& j.feeds(more[m])(j.episodes[i])
                };
            if m < done.len() {
                assert(more[m] == done[m]);
            } else {
                lemma_part_covers(j, j.episodes.len(), key, i);
                let g = j.group(key).index_of(j.episodes[i]);
                assert(refs[g] == id);
            }
        }
    }
    assert(spent(j, more) =~= both);
}

/// What a pass leaves under a key is under that key.
pub proof fn lemma_verdict_member(
    j: JournalView,
    now: Timestamp,
    key: (Seq<char>, Polarity),
    k: int,
)
    requires
        0 <= k < j.verdict(key, now).len(),
    ensures
        j.verdict(key, now)[k].key() == key,
{
    let held = j.queue(key);
    assert forall|m: int| 0 <= m < held.len() implies (#[trigger] held[m]).key() == key by {
        lemma_queue_member(j.beliefs, key, m);
    }
}

/// When every group has had its turn, the pass is complete.
proof fn lemma_pass_complete(
    j: JournalView,
    queues: Map<(Seq<char>, Polarity), Vec<Belief>>,
    now: Timestamp,
    done: Seq<(Seq<char>, Polarity)>,
)
    requires
        forall|s: Seq<char>| #[trigger] stands(j, queues, s, now, done),
        forall|key: (Seq<char>, Polarity)|
            !done.contains(key) ==> (#[trigger] j.group(key)).len() == 0,
    ensures
        forall|key: (Seq<char>, Polarity)| #[trigger]
            queue_at(queues, key) == j.verdict(key, now),
        spent(j, done) == j.consumed(),
{
    assert forall|key: (Seq<char>, Polarity)| #[trigger] queue_at(queues, key) == j.verdict(
        key,
        now,
    ) by {
        assert(stands(j, queues, key.0, now, done));
        let against = (key.0, Polarity::Negative);
        let for_it = (key.0, Polarity::Positive);
        assert(!done.contains(against) ==> j.group(against).len() == 0);
        assert(!done.contains(for_it) ==> j.group(for_it).len() == 0);
    }
    assert forall|id: u64| spent(j, done).contains(id) <==> j.consumed().contains(id) by {
        if spent(j, done).contains(id) {
            let (i, m) = choose|i: int, m: int|
                #![trigger j.episodes[i], done[m]]
                {
                    &&& 0 <= i < j.episodes.len()
                    &&& 0 <= m < done.len()
                    &&& j.episodes[i].id == id
                    &&& j.founds(done[m])
                    &&& j.feeds(done[m])(j.episodes[i])
                };
            let e = j.episodes[i];
            assert(done[m] == (done[m].0, e.polarity));
            assert(e.subjects.contains(done[m].0));
            assert(j.is_consumed(e));
        }
        if j.consumed().contains(id) {
            let i = choose|i: int|
                0 <= i < j.episodes.len() && (#[trigger] j.episodes[i]).id == id && j.is_consumed(
                    j.episodes[i],
                );
            let e = j.episodes[i];
            let subject = choose|subject: Seq<char>| #[trigger]
                e.subjects.contains(subject) && j.founds((subject, e.polarity));
            let key = (subject, e.polarity);
            assert(j.group(key).len() > 0);
            assert(done.contains(key));
            assert(done[done.index_of(key)] == key);
            assert(j.feeds(key)(e));
        }
    }
    assert(spent(j, done) =~= j.consumed());
}

impl BeliefJournal {
    /// The episode counts of a pass stay within their type, so that
    /// [`BeliefJournal::consolidate`] may be called.
    pub fn counts_fit(&self) -> (r: bool)
        ensures
            r == self@.counts_fit(),
    {
        let ghost j = self@;
        let groups = self.groups();
        let keys = groups.keys();
        let members = groups.values();
        let ghost all = ordered::keys_of(keys@);
        let mut i: usize = 0;
        while i < members.len()
            invariant
                i <= members@.len(),
                j == self@,
                keys@ == groups.key_seq(),
                all == ordered::keys_of(keys@),
                members@.len() == all.len(),
                all.to_set() == groups@.dom(),
                forall|k: int|
                    0 <= k < members@.len() ==> #[trigger] members@[k]
                        == groups@[groups.key_seq()[k].key()],
                forall|key: (Seq<char>, Polarity)| #[trigger]
                    groups@.contains_key(key) ==> picked(j.episodes, groups@[key]@) == j.group(key),
                forall|k: int| 0 <= k < i ==> (#[trigger] members@[k])@.len() <= u32::MAX,
            decreases members@.len() - i,
        {
            if members[i].len() > u32::MAX as usize {
                proof {
                    let key = all[i as int];
                    assert(all.to_set().contains(key));
                    assert(groups@.contains_key(key));
                    assert(picked(j.episodes, members@[i as int]@) == j.group(key));
                    assert(j.group(key).len() > u32::MAX);
                }
                return false;
            }
            i = i + 1;
        }
        proof {
            assert forall|key: (Seq<char>, Polarity)| (#[trigger] j.group(key)).len()
                <= u32::MAX by {
                if groups@.contains_key(key) {
                    assert(all.to_set().contains(key));
                    let k = all.index_of(key);
                    assert(members@[k] == groups@[key]);
                    assert(picked(j.episodes, groups@[key]@) == j.group(key));
                }
            }
        }
        let mut b: usize = 0;
        while b < self.beliefs.len()
            invariant
                b <= self.beliefs@.len(),
                j == self@,
                j.beliefs == beliefs_of(self.beliefs@),
                forall|key: (Seq<char>, Polarity)| #[trigger]
                    groups@.contains_key(key) ==> picked(j.episodes, groups@[key]@) == j.group(key),
                forall|key: (Seq<char>, Polarity)|
                    !groups@.contains_key(key) ==> (#[trigger] j.group(key)).len() == 0,
                forall|key: (Seq<char>, Polarity)| (#[trigger] j.group(key)).len() <= u32::MAX,
                forall|k: int|
                    0 <= k < b && j.founds((#[trigger] j.beliefs[k]).key())
                        ==> j.beliefs[k].episode_count + j.group(j.beliefs[k].key()).len()
                        <= u32::MAX,
            decreases self.beliefs@.len() - b,
        {
            let belief = &self.beliefs[b];
            let key = BeliefKey { subject: belief.subject.clone(), polarity: belief.polarity };
            let ghost k = key.key();
            assert(j.beliefs[b as int] == belief@);
            assert(k == belief@.key());
            if let Some(places) = groups.get(&key) {
                assert(picked(j.episodes, places@) == j.group(k));
                assert(places@.len() == j.group(k).len());
                if places.len() >= N_CONSOLIDATION && places.len() > (u32::MAX
                    - belief.episode_count) as usize {
                    assert(j.founds(j.beliefs[b as int].key()));
                    return false;
                }
            } else {
                assert(!groups@.contains_key(k));
                assert(j.group(k).len() == 0);
            }
            b = b + 1;
        }
        true
    }

    /// The sleep pass: compress concordant episodes into beliefs.
    ///
    /// Groups the open episodes by subject and polarity. A group of at least
    /// [`N_CONSOLIDATION`] adds a quarter of its weight to the belief of that
    /// subject and polarity, wears the opposing belief down by as much, and is
    /// marked, so that it cannot count twice.
    pub fn consolidate(&mut self, now: Timestamp)
        requires
            old(self)@.counts_fit(),
        ensures
            old(self)@.is_after_pass(final(self)@, now),
    {
        let ghost j = self@;
        let groups = self.groups();
        let keys = groups.keys();
        let members = groups.values();
        let mut consolidated = self.consolidated.clone();
        let mut queues = queued(&self.beliefs);
        let ghost all = ordered::keys_of(keys@);
        proof {
            assert(all.take(0) =~= Seq::empty());
            assert forall|s: Seq<char>| #[trigger] stands(j, queues@, s, now, all.take(0)) by {
                assert(queue_at(queues@, (s, Polarity::Negative)) == j.queue(
                    (s, Polarity::Negative),
                ));
                assert(queue_at(queues@, (s, Polarity::Neutral)) == j.queue(
                    (s, Polarity::Neutral),
                ));
                assert(queue_at(queues@, (s, Polarity::Positive)) == j.queue(
                    (s, Polarity::Positive),
                ));
            }
            assert(spent(j, all.take(0)) =~= Set::empty());
            assert(consolidated@ =~= j.consolidated.union(spent(j, all.take(0))));
            ordered::lemma_ascending_distinct(keys@);
        }
        let mut i: usize = 0;
        while i < keys.len()
            invariant
                i <= keys@.len(),
                j == self@,
                j.counts_fit(),
                j.episodes == episodes_of(self.episodes@),
                all == ordered::keys_of(keys@),
                ordered::ascending(keys@),
                all.no_duplicates(),
                keys@ == groups.key_seq(),
                all.to_set() == groups@.dom(),
                members@.len() == keys@.len(),
                forall|k: int|
                    0 <= k < members@.len() ==> #[trigger] members@[k]
                        == groups@[groups.key_seq()[k].key()],
                forall|key: (Seq<char>, Polarity)| #[trigger]
                    groups@.contains_key(key) ==> {
                        &&& picked(j.episodes, groups@[key]@) == j.group(key)
                        &&& forall|k: int|
                            0 <= k < groups@[key]@.len() ==> #[trigger] groups@[key]@[k]
                                < j.episodes.len()
                    },
                forall|key: (Seq<char>, Polarity)|
                    !groups@.contains_key(key) ==> (#[trigger] j.group(key)).len() == 0,
                forall|s: Seq<char>| #[trigger] stands(j, queues@, s, now, all.take(i as int)),
                consolidated@ == j.consolidated.union(spent(j, all.take(i as int))),
            decreases keys@.len() - i,
        {
            let key = &keys[i];
            let places = &members[i];
            let ghost k = all[i as int];
            let ghost done = all.take(i as int);
            proof {
                assert(k == key.key());
                assert(all.to_set().contains(k));
                assert(groups@.contains_key(k));
                assert(*places == groups@[k]);
                assert(picked(j.episodes, places@) == j.group(k));
                assert(places@.len() == j.group(k).len());
                assert(all.take(i + 1) =~= done.push(k));
            }
            if places.len() >= N_CONSOLIDATION {
                let ghost before = queues@;
                proof {
                    if done.contains(k) {
                        assert(all[done.index_of(k)] == k);
                    }
                    let against = (k.0, Polarity::Negative);
                    let for_it = (k.0, Polarity::Positive);
                    lemma_founding_is_pointed(j, k);
                    if k.1 is Negative && done.contains(for_it) {
                        let m = done.index_of(for_it);
                        assert(keys@[m].key() == all[m]);
                        assert(BeliefKey::before(keys@[m].key(), keys@[i as int].key()));
                        text::lemma_text_before_irreflexive(k.0);
                    }
                    if k.1 is Positive && !done.contains(against) && j.founds(against) {
                        assert(groups@.contains_key(against));
                        assert(all.to_set().contains(against));
                        let m = all.index_of(against);
                        assert(keys@[m].key() == all[m]);
                        if m < i {
                            assert(done[m] == against);
                        } else {
                            assert(BeliefKey::before(keys@[i as int].key(), keys@[m].key()));
                            text::lemma_text_before_irreflexive(k.0);
                        }
                    }
                    if queue_at(before, k).len() > 0 {
                        lemma_count_fits(j, before, k, now, done);
                    }
                    lemma_spent(j, k, done);
                }
                let gain = reinforce(&mut queues, key, &self.episodes, places, now);
                let ghost midway = queues@;
                let opposite = BeliefKey {
                    subject: key.subject.clone(),
                    polarity: key.polarity.opposite(),
                };
                assert(opposite.key() == (k.0, k.1.opposite()));
                erode(&mut queues, opposite, gain);
                proof {
                    assert forall|q: (Seq<char>, Polarity)| #[trigger]
                        queue_at(queues@, q) == after_turn(j, before, k, now, q) by {
                        assert(queue_at(midway, q) == if q == k {
                            queue_reinforced(queue_at(before, q), q, j.group(k), now)
                        } else {
                            queue_at(before, q)
                        });
                    }
                    lemma_turn(j, before, queues@, k, now, done);
                }
                let ghost refs = refs_of(j.group(k));
                let mut m: usize = 0;
                assert(refs.take(0).to_set() =~= Set::<u64>::empty());
                let ghost marked = consolidated@;
                while m < places.len()
                    invariant
                        m <= places@.len(),
                        j.episodes == episodes_of(self.episodes@),
                        places@.len() == refs.len(),
                        refs == refs_of(picked(j.episodes, places@)),
                        forall|q: int|
                            0 <= q < places@.len() ==> #[trigger] places@[q] < j.episodes.len(),
                        consolidated@ == marked.union(refs.take(m as int).to_set()),
                    decreases places@.len() - m,
                {
                    let id = self.episodes[places[m]].id;
                    consolidated.insert(id);
                    proof {
                        assert(refs[m as int] == id@);
                        assert(refs.take(m + 1) =~= refs.take(m as int).push(refs[m as int]));
                        refs.take(m as int).lemma_push_to_set_commute(refs[m as int]);
                        assert(consolidated@ =~= marked.union(refs.take(m + 1).to_set()));
                    }
                    m = m + 1;
                }
                proof {
                    assert(refs.take(m as int) =~= refs);
                    assert(consolidated@ =~= j.consolidated.union(spent(j, done.push(k))));
                    assert forall|s: Seq<char>| #[trigger]
                        stands(j, queues@, s, now, all.take(i + 1)) by {
                        assert(stands(j, queues@, s, now, done.push(k)));
                    }
                }
            } else {
                proof {
                    lemma_no_turn(j, queues@, k, now, done);
                    assert forall|s: Seq<char>| #[trigger]
                        stands(j, queues@, s, now, all.take(i + 1)) by {
                        assert(stands(j, queues@, s, now, done.push(k)));
                    }
                }
            }
            i = i + 1;
        }
        proof {
            assert(all.take(i as int) =~= all);
            assert forall|key: (Seq<char>, Polarity)| !all.contains(key) implies (#[trigger] j.group(
                key,
            )).len() == 0 by {
                assert(!all.to_set().contains(key));
            }
            lemma_pass_complete(j, queues@, now, all);
            assert forall|key: (Seq<char>, Polarity), k: int|
                0 <= k < queue_at(queues@, key).len() implies (#[trigger] queue_at(
                queues@,
                key,
            )[k]).key() == key by {
                assert(queue_at(queues@, key) == j.verdict(key, now));
                lemma_verdict_member(j, now, key, k);
            }
        }
        self.beliefs = laid_out(&queues);
        self.consolidated = consolidated;
        proof {
            assert forall|key: (Seq<char>, Polarity)| #[trigger] self@.queue(key) == j.verdict(
                key,
                now,
            ) by {
                assert(queue(beliefs_of(self.beliefs@), key) == queue_at(queues@, key));
            }
        }
    }
}

// ---------------------------------------------------------------------------
// Reading the journal
// ---------------------------------------------------------------------------

/// The answer to "why do you think that about this supplier?". Borrowed from
/// the journal, so it cannot drift from the state that it describes.
#[derive(Debug, Clone, PartialEq, Eq)]
pub struct Provenance<'a> {
    /// The subject asked about.
    pub subject: &'a Subject,
    /// One entry per belief held about it, in the order of the beliefs.
    pub findings: Vec<Finding<'a>>,
}

/// One belief and the exact episodes that founded it.
#[derive(Debug, Clone, PartialEq, Eq)]
pub struct Finding<'a> {
    /// The consolidated conviction.
    pub belief: &'a Belief,
    /// Its founding episodes, in the order of [`Belief::sources`].
    pub founding: Vec<&'a Episode>,
}

/// A [`Finding`] as a mathematical value.
pub open spec fn finding_view(f: Finding<'_>) -> (BeliefView, Seq<EpisodeView>) {
    (f.belief@, f.founding@.map_values(|e: &Episode| e@))
}

impl View for Provenance<'_> {
    type V = Seq<(BeliefView, Seq<EpisodeView>)>;

    open spec fn view(&self) -> Seq<(BeliefView, Seq<EpisodeView>)> {
        self.findings@.map_values(|f: Finding<'_>| finding_view(f))
    }
}

impl Provenance<'_> {
    /// `true` when no belief is held about the subject.
    pub fn is_empty(&self) -> (r: bool)
        ensures
            r == (self@.len() == 0),
    {
        self.findings.len() == 0
    }
}

impl BeliefJournal {
    /// Why the agent holds what it holds about `subject`: each belief with the
    /// episodes that founded it, oldest first.
    pub fn why<'a>(&'a self, subject: &'a Subject) -> (r: Provenance<'a>)
        ensures
            r.subject@ == subject@,
            r@ == self@.why(subject@),
    {
        let ghost all = beliefs_of(self.beliefs@);
        let mut findings: Vec<Finding<'a>> = Vec::new();
        let mut i: usize = 0;
        assert(findings@.map_values(|f: Finding<'_>| finding_view(f)) =~= self@.findings(
            all.take(0),
            subject@,
        ));
        while i < self.beliefs.len()
            invariant
                i <= self.beliefs@.len(),
                all == beliefs_of(self.beliefs@),
                findings@.map_values(|f: Finding<'_>| finding_view(f)) == self@.findings(
                    all.take(i as int),
                    subject@,
                ),
            decreases self.beliefs@.len() - i,
        {
            let belief = &self.beliefs[i];
            let ghost before = findings@;
            proof {
                assert(all.take(i + 1).drop_last() =~= all.take(i as int));
                assert(all.take(i + 1).last() == belief@);
            }
            if belief.subject.same(subject) {
                let founding = self.founders(&belief.sources);
                let finding = Finding { belief, founding };
                findings.push(finding);
                assert(findings@.map_values(|f: Finding<'_>| finding_view(f))
                    =~= before.map_values(|f: Finding<'_>| finding_view(f)).push(
                    finding_view(finding),
                ));
            }
            i = i + 1;
        }
        assert(all.take(i as int) =~= all);
        Provenance { subject, findings }
    }

    fn founders(&self, refs: &Vec<EpisodeId>) -> (r: Vec<&Episode>)
        ensures
            r@.map_values(|e: &Episode| e@) == self@.founding(ordered::keys_of(refs@)),
    {
        let ghost ids = ordered::keys_of(refs@);
        let mut out: Vec<&Episode> = Vec::new();
        let mut i: usize = 0;
        assert(out@.map_values(|e: &Episode| e@) =~= self@.founding(ids.take(0)));
        while i < refs.len()
            invariant
                i <= refs@.len(),
                ids == ordered::keys_of(refs@),
                out@.map_values(|e: &Episode| e@) == self@.founding(ids.take(i as int)),
            decreases refs@.len() - i,
        {
            let ghost before = out@;
            proof {
                assert(ids.take(i + 1).drop_last() =~= ids.take(i as int));
                assert(ids.take(i + 1).last() == refs@[i as int]@);
            }
            if let Some(e) = self.episode(refs[i]) {
                out.push(e);
                assert(out@.map_values(|e: &Episode| e@) =~= before.map_values(
                    |e: &Episode| e@,
                ).push(e@));
            }
            i = i + 1;
        }
        assert(ids.take(i as int) =~= ids);
        out
    }

    /// Every belief held. A pass leaves them in the order of subject and
    /// polarity.
    pub fn beliefs(&self) -> (r: &[Belief])
        ensures
            beliefs_of(r@) == self@.beliefs,
    {
        self.beliefs.as_slice()
    }

    /// The belief of a given direction about a subject, if any.
    pub fn belief(&self, subject: &Subject, polarity: Polarity) -> (r: Option<&Belief>)
        ensures
            match r {
                Some(b) => self@.held((subject@, polarity)) == Some(b@),
                None => self@.held((subject@, polarity)) is None,
            },
    {
        let ghost key = (subject@, polarity);
        let ghost all = beliefs_of(self.beliefs@);
        let mut i: usize = 0;
        proof {
            reveal(Seq::filter);
            assert(queue(all.take(0), key).len() == 0);
        }
        while i < self.beliefs.len()
            invariant
                i <= self.beliefs@.len(),
                all == beliefs_of(self.beliefs@),
                all == self@.beliefs,
                key == (subject@, polarity),
                queue(all.take(i as int), key).len() == 0,
            decreases self.beliefs@.len() - i,
        {
            let b = &self.beliefs[i];
            proof {
                assert(all.take(i + 1) =~= all.take(i as int).push(b@));
                lemma_queue_push(all.take(i as int), b@, key);
            }
            if b.subject.same(subject) && b.polarity == polarity {
                proof {
                    lemma_queue_prefix(all, i + 1, key);
                    assert(queue(all.take(i + 1), key)[0] == b@);
                }
                return Some(b);
            }
            i = i + 1;
        }
        assert(all.take(i as int) =~= all);
        None
    }

    /// The whole episodic journal, in recording order.
    pub fn episodes(&self) -> (r: &[Episode])
        ensures
            episodes_of(r@) == self@.episodes,
    {
        self.episodes.as_slice()
    }

    /// The references of the episodes that a belief was made of already.
    pub fn consolidated(&self) -> (r: &OrdSet<EpisodeId>)
        ensures
            r@ == self@.consolidated,
    {
        &self.consolidated
    }

    /// The references of the episodes that were closed.
    pub fn resolved(&self) -> (r: &OrdSet<EpisodeId>)
        ensures
            r@ == self@.resolved,
    {
        &self.resolved
    }

    /// The number of the next reference.
    pub fn next_id(&self) -> (r: u64)
        ensures
            r == self@.next_id,
    {
        self.next_id
    }
}

impl Default for BeliefJournal {
    fn default() -> (r: BeliefJournal)
        ensures
            r@ == JournalView::blank(),
    {
        BeliefJournal::new()
    }
}

fn copy_episodes(episodes: &Vec<Episode>) -> (r: Vec<Episode>)
    ensures
        episodes_of(r@) == episodes_of(episodes@),
{
    let r = episodes.clone();
    assert(episodes_of(r@) =~= episodes_of(episodes@));
    r
}

impl Clone for BeliefJournal {
    fn clone(&self) -> (r: BeliefJournal)
        ensures
            r@ == self@,
    {
        let beliefs = self.beliefs.clone();
        assert(beliefs_of(beliefs@) =~= beliefs_of(self.beliefs@));
        BeliefJournal {
            episodes: copy_episodes(&self.episodes),
            consolidated: self.consolidated.clone(),
            resolved: self.resolved.clone(),
            beliefs,
            next_id: self.next_id,
        }
    }
}

/// What is queued of the first beliefs stands at the front of the queue of all.
proof fn lemma_queue_prefix(beliefs: Seq<BeliefView>, n: int, key: (Seq<char>, Polarity))
    requires
        0 <= n <= beliefs.len(),
    ensures
        queue(beliefs.take(n), key).len() <= queue(beliefs, key).len(),
        forall|k: int|
            0 <= k < queue(beliefs.take(n), key).len() ==> #[trigger] queue(beliefs, key)[k]
                == queue(beliefs.take(n), key)[k],
    decreases beliefs.len() - n,
{
    if n < beliefs.len() {
        assert(beliefs.take(n + 1) =~= beliefs.take(n).push(beliefs[n]));
        lemma_queue_push(beliefs.take(n), beliefs[n], key);
        lemma_queue_prefix(beliefs, n + 1, key);
        assert forall|k: int| 0 <= k < queue(beliefs.take(n), key).len() implies #[trigger] queue(
            beliefs,
            key,
        )[k] == queue(beliefs.take(n), key)[k] by {
            assert(queue(beliefs.take(n + 1), key)[k] == queue(beliefs.take(n), key)[k]);
        }
    } else {
        assert(beliefs.take(n) =~= beliefs);
    }
}

// ---------------------------------------------------------------------------
// Storage
// ---------------------------------------------------------------------------

impl BeliefJournal {
    /// Rebuild a journal from what was stored of it, as it stands there.
    pub fn restore(
        episodes: Vec<Episode>,
        consolidated: Vec<EpisodeId>,
        resolved: Vec<EpisodeId>,
        beliefs: Vec<Belief>,
        next_id: u64,
    ) -> (r: BeliefJournal)
        ensures
            r@ == (JournalView {
                episodes: episodes_of(episodes@),
                consolidated: ordered::keys_of(consolidated@).to_set(),
                resolved: ordered::keys_of(resolved@).to_set(),
                beliefs: beliefs_of(beliefs@),
                next_id,
            }),
    {
        BeliefJournal {
            episodes,
            consolidated: OrdSet::from_vec(consolidated),
            resolved: OrdSet::from_vec(resolved),
            beliefs,
            next_id,
        }
    }
}

} // verus!
