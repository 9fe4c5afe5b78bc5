//! What holds of journals and beliefs as a whole.
use crate::psyche::beliefs;
use crate::psyche::beliefs::{
    BeliefView, EpisodeView, JournalView, NewEpisode, Polarity, MAX_SOURCES, N_CONSOLIDATION,
};
use crate::text;
use crate::time::Timestamp;
use vstd::prelude::*;

verus! {

/// A subject key is its own key: normalising the key of an ASCII text once more
/// changes nothing.
pub proof fn law_a_subject_is_its_own_key(raw: Seq<char>)
    requires
        vstd::utf8::is_ascii_chars(text::trimmed(raw)),
    ensures
        ({
            let key = text::ascii_lowered(text::trimmed(raw));
            &&& vstd::utf8::is_ascii_chars(text::trimmed(key))
            &&& text::ascii_lowered(text::trimmed(key)) == key
        }),
{
    let core = text::trimmed(raw);
    let key = text::ascii_lowered(core);
    lemma_trimmed_has_bare_ends(raw);
    assert forall|i: int| 0 <= i < core.len() implies #[trigger] key[i] == text::ascii_lower(core[i])
        && '\0' <= key[i] <= '\u{7f}' && text::is_white_space(key[i]) == text::is_white_space(
        core[i],
    ) && text::ascii_lower(key[i]) == key[i] by {
        assert('\0' <= core[i] <= '\u{7f}');
    }
    if core.len() > 0 {
        assert(text::trim_start(key) == key);
        assert(text::trim_end(key) == key);
    }
    assert(text::trimmed(key) == key);
    assert(text::ascii_lowered(key) =~= key);
}

/// A trimmed text neither starts nor ends with white space.
proof fn lemma_trimmed_has_bare_ends(s: Seq<char>)
    ensures
        text::trimmed(s).len() > 0 ==> !text::is_white_space(text::trimmed(s)[0])
            && !text::is_white_space(text::trimmed(s).last()),
{
    lemma_trim_start_bares(s);
    lemma_trim_end_bares(text::trim_start(s));
}

/// What is left after trimming the start does not start with white space.
proof fn lemma_trim_start_bares(s: Seq<char>)
    ensures
        text::trim_start(s).len() > 0 ==> !text::is_white_space(text::trim_start(s)[0]),
    decreases s.len(),
{
    if s.len() > 0 && text::is_white_space(s[0]) {
        lemma_trim_start_bares(s.drop_first());
    }
}

/// What is left after trimming the end does not end with white space, and starts
/// as the text did.
proof fn lemma_trim_end_bares(s: Seq<char>)
    ensures
        text::trim_end(s).len() > 0 ==> !text::is_white_space(text::trim_end(s).last())
            && text::trim_end(s)[0] == s[0],
    decreases s.len(),
{
    if s.len() > 0 && text::is_white_space(s.last()) {
        lemma_trim_end_bares(s.drop_last());
    }
}

/// The subjects of an episode can be filed in one way only.
pub proof fn law_filing_has_one_outcome(
    raw: Seq<Seq<char>>,
    a: Seq<Seq<char>>,
    b: Seq<Seq<char>>,
)
    requires
        beliefs::is_filing(raw, a),
        beliefs::is_filing(raw, b),
    ensures
        a == b,
{
    lemma_filings_agree(raw, a, b, a.len() as int);
    lemma_filings_agree(raw, b, a, b.len() as int);
    assert(a =~= b);
}

/// Two filings agree as far as the first of them goes.
proof fn lemma_filings_agree(raw: Seq<Seq<char>>, a: Seq<Seq<char>>, b: Seq<Seq<char>>, n: int)
    requires
        beliefs::is_filing(raw, a),
        beliefs::is_filing(raw, b),
        0 <= n <= a.len(),
    ensures
        n <= b.len(),
        forall|i: int| 0 <= i < n ==> a[i] == b[i],
    decreases n,
{
    if n > 0 {
        let i = n - 1;
        lemma_filings_agree(raw, a, b, i);
        assert(a.contains(a[i]));
        assert(raw.contains(a[i]));
        lemma_not_before(raw, a, b, i);
        if i < b.len() && a[i] != b[i] {
            lemma_not_before(raw, b, a, i);
            text::lemma_text_before_total(a[i], b[i]);
        }
    }
}

/// Where two filings agree on the first `i` subjects, the other one has a
/// subject there too, and one that does not come later.
proof fn lemma_not_before(raw: Seq<Seq<char>>, a: Seq<Seq<char>>, b: Seq<Seq<char>>, i: int)
    requires
        beliefs::is_filing(raw, a),
        beliefs::is_filing(raw, b),
        0 <= i < a.len(),
        i <= b.len(),
        forall|k: int| 0 <= k < i ==> a[k] == b[k],
    ensures
        i < b.len(),
        !text::text_before(a[i], b[i]),
{
    let s = a[i];
    assert(a.contains(s));
    assert(raw.contains(s));
    text::lemma_text_before_irreflexive(s);
    if b.contains(s) {
        let k = b.index_of(s);
        if k < i {
            assert(text::text_before(a[k], a[i]));
        }
        if text::text_before(s, b[i]) {
            if k > i {
                text::lemma_text_before_transitive(s, b[i], b[k]);
            }
        }
    } else {
        assert(b.len() > i);
        let last = b.len() - 1;
        if text::text_before(s, b[i]) {
            if i < last {
                text::lemma_text_before_transitive(s, b[i], b[last]);
            }
            text::lemma_text_before_transitive(s, b[last], s);
        }
    }
}

/// What a filter keeps, a wider filter keeps too.
proof fn lemma_filter_grows(
    s: Seq<EpisodeView>,
    p: spec_fn(EpisodeView) -> bool,
    q: spec_fn(EpisodeView) -> bool,
)
    requires
        forall|i: int| 0 <= i < s.len() && p(#[trigger] s[i]) ==> q(s[i]),
    ensures
        s.filter(p).len() <= s.filter(q).len(),
    decreases s.len(),
{
    reveal(Seq::filter);
    if s.len() > 0 {
        let head = s.drop_last();
        assert forall|i: int| 0 <= i < head.len() && p(#[trigger] head[i]) implies q(head[i]) by {
            assert(head[i] == s[i]);
        }
        lemma_filter_grows(head, p, q);
        assert(p(s[s.len() - 1]) ==> q(s[s.len() - 1]));
    }
}

/// What two filters keep apart, one that is wider than both keeps together.
proof fn lemma_filters_add(
    s: Seq<EpisodeView>,
    p: spec_fn(EpisodeView) -> bool,
    q: spec_fn(EpisodeView) -> bool,
    both: spec_fn(EpisodeView) -> bool,
)
    requires
        forall|i: int| 0 <= i < s.len() ==> !(p(#[trigger] s[i]) && q(s[i])),
        forall|i: int| 0 <= i < s.len() && (p(#[trigger] s[i]) || q(s[i])) ==> both(s[i]),
    ensures
        s.filter(p).len() + s.filter(q).len() <= s.filter(both).len(),
    decreases s.len(),
{
    reveal(Seq::filter);
    if s.len() > 0 {
        let head = s.drop_last();
        assert forall|i: int| 0 <= i < head.len() implies !(p(#[trigger] head[i]) && q(
            head[i],
        )) by {
            assert(head[i] == s[i]);
        }
        assert forall|i: int| 0 <= i < head.len() && (p(#[trigger] head[i]) || q(
            head[i],
        )) implies both(head[i]) by {
            assert(head[i] == s[i]);
        }
        lemma_filters_add(head, p, q, both);
        let last = s[s.len() - 1];
        assert(!(p(last) && q(last)));
        assert(p(last) || q(last) ==> both(last));
    }
}

// ---------------------------------------------------------------------------
// The order of beliefs
// ---------------------------------------------------------------------------

/// Of two different keys one comes before the other, and no key before itself.
proof fn lemma_keys_compare(a: (Seq<char>, Polarity), b: (Seq<char>, Polarity))
    ensures
        !beliefs::key_before(a, a),
        a != b ==> beliefs::key_before(a, b) || beliefs::key_before(b, a),
{
    text::lemma_text_before_irreflexive(a.0);
    if a.0 != b.0 {
        text::lemma_text_before_total(a.0, b.0);
    }
}

/// A belief stands in the queue of its key, and two of one key make it two
/// long.
proof fn lemma_queue_covers(s: Seq<BeliefView>, i: int)
    requires
        0 <= i < s.len(),
    ensures
        beliefs::queue(s, s[i].key()).contains(s[i]),
        forall|k: int|
            0 <= k < i && (#[trigger] s[k]).key() == s[i].key() ==> beliefs::queue(
                s,
                s[i].key(),
            ).len() >= 2,
    decreases s.len(),
{
    reveal(Seq::filter);
    let key = s[i].key();
    let head = s.drop_last();
    let before = beliefs::queue(head, key);
    let whole = beliefs::queue(s, key);
    if i < head.len() {
        lemma_queue_covers(head, i);
        assert(head[i] == s[i]);
        let at = before.index_of(s[i]);
        assert(whole[at] == before[at]);
        assert forall|k: int| 0 <= k < i && (#[trigger] s[k]).key() == key implies whole.len()
            >= 2 by {
            assert(head[k] == s[k]);
        }
    } else {
        assert(whole == before.push(s[i]));
        assert(whole[before.len() as int] == s[i]);
        assert forall|k: int| 0 <= k < i && (#[trigger] s[k]).key() == key implies whole.len()
            >= 2 by {
            assert(head[k] == s[k]);
            lemma_queue_covers(head, k);
            assert(before.contains(head[k]));
        }
    }
}

/// Where every key comes before the ones after it, no queue is longer than one.
proof fn lemma_one_each(s: Seq<BeliefView>, key: (Seq<char>, Polarity))
    requires
        forall|i: int, k: int|
            0 <= i < k < s.len() ==> beliefs::key_before(
                (#[trigger] s[i]).key(),
                (#[trigger] s[k]).key(),
            ),
    ensures
        beliefs::queue(s, key).len() <= 1,
    decreases s.len(),
{
    reveal(Seq::filter);
    if s.len() > 0 {
        let head = s.drop_last();
        assert forall|i: int, k: int| 0 <= i < k < head.len() implies beliefs::key_before(
            (#[trigger] head[i]).key(),
            (#[trigger] head[k]).key(),
        ) by {
            assert(head[i] == s[i] && head[k] == s[k]);
        }
        lemma_one_each(head, key);
        if s.last().key() == key && beliefs::queue(head, key).len() > 0 {
            beliefs::lemma_queue_member(head, key, 0);
            let at = head.index_of(beliefs::queue(head, key)[0]);
            assert(head[at] == s[at]);
            assert(beliefs::key_before(s[at].key(), s[s.len() - 1].key()));
            lemma_keys_compare(key, key);
        }
    }
}

/// Beliefs that stand in order are told apart by their queues.
proof fn lemma_queues_tell(a: Seq<BeliefView>, b: Seq<BeliefView>)
    requires
        beliefs::in_key_order(a),
        beliefs::in_key_order(b),
        forall|key: (Seq<char>, Polarity)| #[trigger]
            beliefs::queue(a, key) == beliefs::queue(b, key),
    ensures
        a == b,
    decreases a.len(),
{
    if a.len() == 0 {
        if b.len() > 0 {
            lemma_queue_covers(b, 0);
            reveal(Seq::filter);
            assert(beliefs::queue(a, b[0].key()).len() == 0);
        }
        assert(a =~= b);
    } else {
        lemma_queue_covers(a, a.len() - 1);
        let ka = a.last().key();
        assert(beliefs::queue(b, ka) == beliefs::queue(a, ka));
        if b.len() == 0 {
            reveal(Seq::filter);
            assert(beliefs::queue(b, ka).len() == 0);
        }
        lemma_queue_covers(b, b.len() - 1);
        let kb = b.last().key();
        assert(beliefs::queue(b, kb) == beliefs::queue(a, kb));
        if ka != kb {
            lemma_last_is_last(a, kb);
            lemma_last_is_last(b, ka);
            lemma_keys_compare(ka, kb);
        }
        reveal(Seq::filter);
        let ha = a.drop_last();
        let hb = b.drop_last();
        assert(beliefs::queue(a, ka) == beliefs::queue(ha, ka).push(a.last()));
        assert(beliefs::queue(b, ka) == beliefs::queue(hb, ka).push(b.last()));
        assert(beliefs::queue(a, ka).last() == a.last());
        assert(beliefs::queue(b, ka).last() == b.last());
        assert forall|key: (Seq<char>, Polarity)| #[trigger] beliefs::queue(ha, key)
            == beliefs::queue(hb, key) by {
            assert(beliefs::queue(a, key) == beliefs::queue(b, key));
            if key == ka {
                assert(beliefs::queue(ha, key) =~= beliefs::queue(a, key).drop_last());
                assert(beliefs::queue(hb, key) =~= beliefs::queue(b, key).drop_last());
            } else {
                assert(beliefs::queue(a, key) == beliefs::queue(ha, key));
                assert(beliefs::queue(b, key) == beliefs::queue(hb, key));
            }
        }
        lemma_front_in_order(a);
        lemma_front_in_order(b);
        lemma_queues_tell(ha, hb);
        assert(a =~= ha.push(a.last()));
        assert(b =~= hb.push(b.last()));
    }
}

/// The key of the last belief comes before no key that has a belief.
proof fn lemma_last_is_last(s: Seq<BeliefView>, key: (Seq<char>, Polarity))
    requires
        s.len() > 0,
        beliefs::in_key_order(s),
        beliefs::queue(s, key).len() > 0,
    ensures
        !beliefs::key_before(s.last().key(), key),
{
    beliefs::lemma_queue_member(s, key, 0);
    let at = s.index_of(beliefs::queue(s, key)[0]);
    assert(s[at].key() == key);
    if at < s.len() - 1 {
        assert(!beliefs::key_before(s[s.len() - 1].key(), s[at].key()));
    } else {
        lemma_keys_compare(key, key);
    }
}

/// Without the last belief the order stands.
proof fn lemma_front_in_order(s: Seq<BeliefView>)
    requires
        s.len() > 0,
        beliefs::in_key_order(s),
    ensures
        beliefs::in_key_order(s.drop_last()),
{
    let head = s.drop_last();
    assert forall|i: int, k: int| 0 <= i < k < head.len() implies !beliefs::key_before(
        (#[trigger] head[k]).key(),
        (#[trigger] head[i]).key(),
    ) by {
        assert(head[i] == s[i] && head[k] == s[k]);
    }
}

/// A pass has one outcome: the same journal at the same instant gives the same
/// journal.
pub proof fn law_a_pass_has_one_outcome(
    j: JournalView,
    now: Timestamp,
    one: JournalView,
    other: JournalView,
)
    requires
        j.is_after_pass(one, now),
        j.is_after_pass(other, now),
    ensures
        one == other,
{
    assert forall|key: (Seq<char>, Polarity)| #[trigger] beliefs::queue(one.beliefs, key)
        == beliefs::queue(other.beliefs, key) by {
        assert(one.queue(key) == j.verdict(key, now));
        assert(other.queue(key) == j.verdict(key, now));
    }
    lemma_queues_tell(one.beliefs, other.beliefs);
}

// ---------------------------------------------------------------------------
// Passes
// ---------------------------------------------------------------------------

/// Where fewer episodes are open, a group is no larger.
proof fn lemma_parts_shrink(
    j: JournalView,
    then: JournalView,
    n: nat,
    key: (Seq<char>, Polarity),
)
    requires
        then.episodes == j.episodes,
        n <= j.episodes.len(),
        forall|e: EpisodeView| #[trigger] then.is_open(e) ==> j.is_open(e),
    ensures
        then.part(n, key).len() <= j.part(n, key).len(),
    decreases n,
{
    if n > 0 {
        lemma_parts_shrink(j, then, (n - 1) as nat, key);
        let e = j.episodes[n - 1];
        assert(then.is_open(e) ==> j.is_open(e));
        assert(then.share(key, e).len() <= j.share(key, e).len());
    }
}

/// An episode counts once: nothing is left of a group that founded a belief,
/// and no group is larger after a pass than before.
proof fn lemma_groups_shrink(
    j: JournalView,
    then: JournalView,
    now: Timestamp,
    key: (Seq<char>, Polarity),
)
    requires
        j.is_after_pass(then, now),
    ensures
        !then.founds(key),
{
    lemma_parts_shrink(j, then, j.episodes.len(), key);
    if j.founds(key) && then.group(key).len() > 0 {
        beliefs::lemma_part_member(then, then.episodes.len(), key, 0);
        let i = choose|i: int|
            0 <= i < then.episodes.len() && (#[trigger] then.episodes[i]) == then.group(key)[0]
                && then.feeds(key)(then.episodes[i]);
        let e = j.episodes[i];
        assert(key == (key.0, e.polarity));
        assert(e.subjects.contains(key.0));
        assert(j.is_consumed(j.episodes[i]));
        assert(j.consumed().contains(e.id));
    }
}

/// Consolidating twice in a row is consolidating once, whatever the clock says
/// the second time.
pub proof fn law_a_second_pass_changes_nothing(
    j: JournalView,
    now: Timestamp,
    once: JournalView,
    later: Timestamp,
    twice: JournalView,
)
    requires
        j.is_after_pass(once, now),
        once.is_after_pass(twice, later),
    ensures
        twice == once,
{
    assert forall|key: (Seq<char>, Polarity)| #[trigger] beliefs::queue(twice.beliefs, key)
        == beliefs::queue(once.beliefs, key) by {
        lemma_groups_shrink(j, once, now, (key.0, Polarity::Negative));
        lemma_groups_shrink(j, once, now, (key.0, Polarity::Positive));
        assert(twice.queue(key) == once.verdict(key, later));
    }
    lemma_queues_tell(twice.beliefs, once.beliefs);
    assert forall|id: u64| !once.consumed().contains(id) by {
        if once.consumed().contains(id) {
            let i = choose|i: int|
                0 <= i < once.episodes.len() && (#[trigger] once.episodes[i]).id == id
                    && once.is_consumed(once.episodes[i]);
            let e = once.episodes[i];
            let subject = choose|subject: Seq<char>| #[trigger]
                e.subjects.contains(subject) && once.founds((subject, e.polarity));
            lemma_groups_shrink(j, once, now, (subject, e.polarity));
        }
    }
    assert(twice.consolidated =~= once.consolidated);
}

/// Neutral, resolved and consolidated episodes found nothing; what founds a
/// belief is about its subject and points its way.
pub proof fn law_only_open_episodes_found(j: JournalView, key: (Seq<char>, Polarity), i: int)
    requires
        0 <= i < j.group(key).len(),
    ensures
        ({
            let e = j.group(key)[i];
            &&& j.episodes.contains(e)
            &&& !(e.polarity is Neutral)
            &&& !j.resolved.contains(e.id)
            &&& !j.consolidated.contains(e.id)
            &&& e.polarity == key.1
            &&& e.subjects.contains(key.0)
        }),
{
    beliefs::lemma_part_member(j, j.episodes.len(), key, i);
}

/// A pass leaves alone what no group is about.
pub proof fn law_a_pass_is_local(
    j: JournalView,
    now: Timestamp,
    then: JournalView,
    subject: Seq<char>,
    polarity: Polarity,
)
    requires
        j.is_after_pass(then, now),
        !j.founds((subject, Polarity::Negative)),
        !j.founds((subject, Polarity::Positive)),
    ensures
        then.queue((subject, polarity)) == j.queue((subject, polarity)),
        then.held((subject, polarity)) == j.held((subject, polarity)),
{
    assert(then.queue((subject, polarity)) == j.verdict((subject, polarity), now));
}

// ---------------------------------------------------------------------------
// Order
// ---------------------------------------------------------------------------

/// A journal starts in order.
pub proof fn law_an_empty_journal_is_orderly()
    ensures
        JournalView::blank().is_orderly(),
{
}

/// Recording an episode keeps a journal in order.
pub proof fn law_recording_keeps_order(j: JournalView, e: EpisodeView, raw: Seq<Seq<char>>)
    requires
        j.is_orderly(),
        j.next_id < u64::MAX,
        e.id == j.next_id,
        beliefs::is_filing(raw, e.subjects),
    ensures
        (JournalView {
            episodes: j.episodes.push(e),
            next_id: (j.next_id + 1) as u64,
            ..j
        }).is_orderly(),
{
    let then = JournalView {
        episodes: j.episodes.push(e),
        next_id: (j.next_id + 1) as u64,
        ..j
    };
    assert forall|i: int| 0 <= i < then.episodes.len() implies {
        &&& (#[trigger] then.episodes[i]).id < then.next_id
        &&& beliefs::ascending_texts(then.episodes[i].subjects)
        &&& then.episodes[i].subjects.len() <= beliefs::MAX_SUBJECTS
    } by {
        if i < j.episodes.len() {
            assert(then.episodes[i] == j.episodes[i]);
        }
    }
    assert forall|a: int, b: int| 0 <= a < b < then.episodes.len() implies (
    #[trigger] then.episodes[a]).id < (#[trigger] then.episodes[b]).id by {
        assert(then.episodes[a] == j.episodes[a]);
        if b < j.episodes.len() {
            assert(then.episodes[b] == j.episodes[b]);
        }
    }
}

/// Resolving an episode keeps a journal in order.
pub proof fn law_resolving_keeps_order(j: JournalView, id: u64)
    requires
        j.is_orderly(),
    ensures
        (JournalView { resolved: j.resolved.insert(id), ..j }).is_orderly(),
{
}

/// A pass keeps a journal in order: one belief at most for a subject and a
/// polarity.
pub proof fn law_a_pass_keeps_order(j: JournalView, now: Timestamp, then: JournalView)
    requires
        j.is_orderly(),
        j.is_after_pass(then, now),
    ensures
        then.is_orderly(),
{
    assert forall|i: int, k: int| 0 <= i < k < then.beliefs.len() implies beliefs::key_before(
        (#[trigger] then.beliefs[i]).key(),
        (#[trigger] then.beliefs[k]).key(),
    ) by {
        let a = then.beliefs[i].key();
        let b = then.beliefs[k].key();
        assert(!beliefs::key_before(b, a));
        lemma_keys_compare(a, b);
        if a == b {
            lemma_queue_covers(then.beliefs, k);
            lemma_one_verdict(j, now, b);
            assert(then.queue(b) == j.verdict(b, now));
        }
    }
}

/// A pass on an orderly journal leaves one belief at most under a key.
proof fn lemma_one_verdict(j: JournalView, now: Timestamp, key: (Seq<char>, Polarity))
    requires
        j.is_orderly(),
    ensures
        j.verdict(key, now).len() <= 1,
        j.queue(key).len() <= 1,
{
    lemma_one_each(j.beliefs, key);
    lemma_one_each(j.beliefs, (key.0, Polarity::Negative));
    lemma_one_each(j.beliefs, (key.0, Polarity::Positive));
}

/// Subjects in order have no repeats.
proof fn lemma_filed_once(subjects: Seq<Seq<char>>, subject: Seq<char>)
    requires
        beliefs::ascending_texts(subjects),
    ensures
        beliefs::occurrences(subjects, subject) == if subjects.contains(subject) {
            1nat
        } else {
            0nat
        },
    decreases subjects.len(),
{
    beliefs::lemma_occurrences(subjects, subject);
    if subjects.len() > 0 {
        let head = subjects.drop_last();
        assert forall|a: int, b: int| 0 <= a < b < head.len() implies text::text_before(
            #[trigger] head[a],
            #[trigger] head[b],
        ) by {
            assert(head[a] == subjects[a] && head[b] == subjects[b]);
        }
        lemma_filed_once(head, subject);
        if head.contains(subject) {
            let at = head.index_of(subject);
            assert(subjects[at] == subject);
            assert(text::text_before(subjects[at], subjects[subjects.len() - 1]));
            text::lemma_text_before_irreflexive(subject);
        }
    }
}

/// In an orderly journal a group holds each of its episodes once.
proof fn lemma_group_is_filter(j: JournalView, n: nat, key: (Seq<char>, Polarity))
    requires
        j.is_orderly(),
        n <= j.episodes.len(),
    ensures
        j.part(n, key) == j.episodes.take(n as int).filter(j.feeds(key)),
    decreases n,
{
    reveal(Seq::filter);
    let some = j.episodes.take(n as int);
    if n > 0 {
        lemma_group_is_filter(j, (n - 1) as nat, key);
        let e = j.episodes[n - 1];
        assert(some.drop_last() =~= j.episodes.take(n - 1));
        assert(some.last() == e);
        lemma_filed_once(e.subjects, key.0);
        if j.feeds(key)(e) {
            assert(j.share(key, e) =~= seq![e]);
            assert(j.part(n, key) =~= j.part((n - 1) as nat, key).push(e));
        } else {
            assert(j.share(key, e) =~= Seq::empty());
            assert(j.part(n, key) =~= j.part((n - 1) as nat, key));
        }
    }
}

/// In an orderly journal a group is what is left of the journal without the
/// episodes that do not feed it.
proof fn lemma_whole_group(j: JournalView, key: (Seq<char>, Polarity))
    requires
        j.is_orderly(),
    ensures
        j.group(key) == j.episodes.filter(j.feeds(key)),
{
    lemma_group_is_filter(j, j.episodes.len(), key);
    assert(j.episodes.take(j.episodes.len() as int) =~= j.episodes);
}

// ---------------------------------------------------------------------------
// No belief without its episodes
// ---------------------------------------------------------------------------

/// The episodes that were consolidated into a belief of this direction about
/// this subject.
pub open spec fn fed(j: JournalView, key: (Seq<char>, Polarity)) -> spec_fn(EpisodeView) -> bool {
    |e: EpisodeView| j.consolidated.contains(e.id) && e.is_about(key)
}

/// The reference is that of a consolidated episode about the belief's subject,
/// pointing its way.
pub open spec fn founded_on(j: JournalView, key: (Seq<char>, Polarity), id: u64) -> bool {
    exists|i: int|
        0 <= i < j.episodes.len() && (#[trigger] j.episodes[i]).id == id && fed(j, key)(
            j.episodes[i],
        )
}

/// The references stand oldest first, without repeats.
pub open spec fn oldest_first(refs: Seq<u64>) -> bool {
    forall|a: int, b: int| 0 <= a < b < refs.len() ==> #[trigger] refs[a] < #[trigger] refs[b]
}

/// Every episode that can still found a belief under `key` is younger than all
/// of these.
pub open spec fn older_than_open(
    j: JournalView,
    key: (Seq<char>, Polarity),
    refs: Seq<u64>,
) -> bool {
    forall|k: int, i: int|
        0 <= k < refs.len() && 0 <= i < j.episodes.len() && j.feeds(key)(j.episodes[i])
            ==> #[trigger] refs[k] < (#[trigger] j.episodes[i]).id
}

/// The belief under `key` rests on episodes of the journal, oldest first.
pub open spec fn rests_on_episodes(
    j: JournalView,
    key: (Seq<char>, Polarity),
    b: BeliefView,
) -> bool {
    &&& !(key.1 is Neutral)
    &&& 0 < b.sources.len() <= MAX_SOURCES
    &&& forall|k: int| 0 <= k < b.sources.len() ==> founded_on(j, key, #[trigger] b.sources[k])
    &&& N_CONSOLIDATION <= b.episode_count <= j.episodes.filter(fed(j, key)).len()
    &&& oldest_first(b.sources)
    &&& older_than_open(j, key, b.sources)
}

/// Every belief of the journal rests on episodes of the journal.
pub open spec fn is_grounded(j: JournalView) -> bool {
    forall|i: int|
        0 <= i < j.beliefs.len() ==> rests_on_episodes(
            j,
            (#[trigger] j.beliefs[i]).key(),
            j.beliefs[i],
        )
}

/// A journal starts without beliefs, so every belief it has rests on episodes.
pub proof fn law_an_empty_journal_is_grounded()
    ensures
        is_grounded(JournalView::blank()),
{
}

/// Recording an episode takes no belief's ground away.
pub proof fn law_recording_keeps_the_ground(j: JournalView, e: EpisodeView)
    requires
        j.is_orderly(),
        e.id == j.next_id,
        is_grounded(j),
    ensures
        is_grounded(
            JournalView { episodes: j.episodes.push(e), next_id: (j.next_id + 1) as u64, ..j },
        ),
{
    let then = JournalView {
        episodes: j.episodes.push(e),
        next_id: (j.next_id + 1) as u64,
        ..j
    };
    assert forall|m: int| 0 <= m < then.beliefs.len() implies rests_on_episodes(
        then,
        (#[trigger] then.beliefs[m]).key(),
        then.beliefs[m],
    ) by {
        let b = j.beliefs[m];
        let key = b.key();
        assert(rests_on_episodes(j, key, b));
        assert(fed(then, key) =~= fed(j, key));
        assert forall|k: int| 0 <= k < b.sources.len() implies founded_on(
            then,
            key,
            #[trigger] b.sources[k],
        ) by {
            assert(founded_on(j, key, b.sources[k]));
            let i = choose|i: int|
                0 <= i < j.episodes.len() && (#[trigger] j.episodes[i]).id == b.sources[k] && fed(
                    j,
                    key,
                )(j.episodes[i]);
            assert(then.episodes[i] == j.episodes[i]);
        }
        assert forall|k: int, i: int|
            0 <= k < b.sources.len() && 0 <= i < then.episodes.len() && then.feeds(key)(
                then.episodes[i],
            ) implies #[trigger] b.sources[k] < (#[trigger] then.episodes[i]).id by {
            assert(founded_on(j, key, b.sources[k]));
            if i < j.episodes.len() {
                assert(then.episodes[i] == j.episodes[i]);
                assert(j.feeds(key)(j.episodes[i]));
            }
        }
        reveal(Seq::filter);
        assert(then.episodes.drop_last() =~= j.episodes);
    }
}

/// Resolving an episode takes no belief's ground away.
pub proof fn law_resolving_keeps_the_ground(j: JournalView, id: u64)
    requires
        is_grounded(j),
    ensures
        is_grounded(JournalView { resolved: j.resolved.insert(id), ..j }),
{
    let then = JournalView { resolved: j.resolved.insert(id), ..j };
    assert forall|m: int| 0 <= m < then.beliefs.len() implies rests_on_episodes(
        then,
        (#[trigger] then.beliefs[m]).key(),
        then.beliefs[m],
    ) by {
        let b = j.beliefs[m];
        let key = b.key();
        assert(rests_on_episodes(j, key, b));
        assert(fed(then, key) =~= fed(j, key));
        assert forall|k: int| 0 <= k < b.sources.len() implies founded_on(
            then,
            key,
            #[trigger] b.sources[k],
        ) by {
            assert(founded_on(j, key, b.sources[k]));
        }
        assert forall|k: int, i: int|
            0 <= k < b.sources.len() && 0 <= i < then.episodes.len() && then.feeds(key)(
                then.episodes[i],
            ) implies #[trigger] b.sources[k] < (#[trigger] then.episodes[i]).id by {
            assert(j.feeds(key)(j.episodes[i]));
        }
    }
}

/// What a belief rested on before a pass, it rests on after it.
proof fn lemma_ground_stays(
    j: JournalView,
    then: JournalView,
    now: Timestamp,
    key: (Seq<char>, Polarity),
    b: BeliefView,
)
    requires
        j.is_after_pass(then, now),
        rests_on_episodes(j, key, b),
    ensures
        rests_on_episodes(then, key, b),
{
    lemma_filter_grows(j.episodes, fed(j, key), fed(then, key));
    assert forall|k: int| 0 <= k < b.sources.len() implies founded_on(
        then,
        key,
        #[trigger] b.sources[k],
    ) by {
        assert(founded_on(j, key, b.sources[k]));
        let i = choose|i: int|
            0 <= i < j.episodes.len() && (#[trigger] j.episodes[i]).id == b.sources[k] && fed(
                j,
                key,
            )(j.episodes[i]);
        assert(then.episodes[i].id == b.sources[k]);
    }
    assert forall|k: int, i: int|
        0 <= k < b.sources.len() && 0 <= i < then.episodes.len() && then.feeds(key)(
            then.episodes[i],
        ) implies #[trigger] b.sources[k] < (#[trigger] then.episodes[i]).id by {
        assert(j.feeds(key)(j.episodes[i]));
    }
}

/// A filter keeps the references of episodes in their order.
proof fn lemma_refs_in_order(s: Seq<EpisodeView>, p: spec_fn(EpisodeView) -> bool)
    requires
        forall|a: int, b: int| 0 <= a < b < s.len() ==> (#[trigger] s[a]).id < (#[trigger] s[b]).id,
    ensures
        oldest_first(beliefs::refs_of(s.filter(p))),
        forall|k: int|
            0 <= k < s.filter(p).len() ==> s.contains(#[trigger] s.filter(p)[k]) && p(
                s.filter(p)[k],
            ),
    decreases s.len(),
{
    reveal(Seq::filter);
    if s.len() > 0 {
        let head = s.drop_last();
        let last = s[s.len() - 1];
        assert forall|a: int, b: int| 0 <= a < b < head.len() implies (#[trigger] head[a]).id < (
        #[trigger] head[b]).id by {
            assert(head[a] == s[a] && head[b] == s[b]);
        }
        lemma_refs_in_order(head, p);
        let kept = head.filter(p);
        let refs = beliefs::refs_of(s.filter(p));
        assert forall|k: int| 0 <= k < s.filter(p).len() implies s.contains(
            #[trigger] s.filter(p)[k],
        ) && p(s.filter(p)[k]) by {
            if k < kept.len() {
                assert(head.contains(kept[k]));
                let i = head.index_of(kept[k]);
                assert(s[i] == kept[k]);
            } else {
                assert(s[s.len() - 1] == last);
            }
        }
        assert forall|a: int, b: int| 0 <= a < b < refs.len() implies #[trigger] refs[a]
            < #[trigger] refs[b] by {
            let old_refs = beliefs::refs_of(kept);
            assert(refs[a] == old_refs[a]);
            if b < kept.len() {
                assert(refs[b] == old_refs[b]);
            } else {
                assert(head.contains(kept[a]));
                let i = head.index_of(kept[a]);
                assert(s[i].id < s[s.len() - 1].id);
            }
        }
    }
}

/// The latest references of a list stand oldest first where the list does.
proof fn lemma_latest_in_order(refs: Seq<u64>)
    requires
        oldest_first(refs),
    ensures
        oldest_first(beliefs::latest(refs)),
{
    let kept = beliefs::latest(refs);
    assert forall|a: int, b: int| 0 <= a < b < kept.len() implies #[trigger] kept[a]
        < #[trigger] kept[b] by {
        let by = refs.len() - kept.len();
        assert(kept[a] == refs[by + a] && kept[b] == refs[by + b]);
    }
}

/// A belief that a group made or reinforced rests on episodes after the pass.
proof fn lemma_ground_gained(
    j: JournalView,
    then: JournalView,
    now: Timestamp,
    key: (Seq<char>, Polarity),
    held: Option<BeliefView>,
)
    requires
        j.is_orderly(),
        j.is_after_pass(then, now),
        j.episodes.len() <= u32::MAX,
        j.founds(key),
        held matches Some(b) ==> rests_on_episodes(j, key, b),
    ensures
        rests_on_episodes(then, key, beliefs::reinforced(held, key, j.group(key), now)),
{
    let group = j.group(key);
    lemma_whole_group(j, key);
    let refs = beliefs::refs_of(group);
    j.episodes.lemma_filter_len(j.feeds(key));
    j.episodes.lemma_filter_pred(j.feeds(key), 0);
    assert forall|i: int| 0 <= i < j.episodes.len() && (fed(j, key)(#[trigger] j.episodes[i])
        || j.feeds(key)(j.episodes[i])) implies fed(then, key)(j.episodes[i]) by {
        let e = j.episodes[i];
        if j.feeds(key)(e) {
            assert(key == (key.0, e.polarity));
            assert(e.subjects.contains(key.0));
            assert(j.is_consumed(e));
            assert(j.consumed().contains(e.id));
        }
    }
    lemma_filters_add(j.episodes, fed(j, key), j.feeds(key), fed(then, key));
    then.episodes.lemma_filter_len(fed(then, key));
    assert forall|k: int| 0 <= k < refs.len() implies founded_on(
        then,
        key,
        #[trigger] refs[k],
    ) by {
        let e = group[k];
        j.episodes.lemma_filter_pred(j.feeds(key), k);
        assert(group.contains(e));
        j.episodes.lemma_filter_contains_rev(j.feeds(key), e);
        let i = j.episodes.index_of(e);
        assert(j.episodes[i].id == refs[k]);
        assert(then.episodes[i] == e);
        assert(fed(then, key)(j.episodes[i]));
    }
    let b = beliefs::reinforced(held, key, group, now);
    lemma_refs_in_order(j.episodes, j.feeds(key));
    assert forall|i: int| 0 <= i < then.episodes.len() implies !then.feeds(key)(
        #[trigger] then.episodes[i],
    ) by {
        let e = j.episodes[i];
        if j.feeds(key)(e) {
            assert(fed(then, key)(j.episodes[i]));
        }
    }
    match held {
        Some(h) => {
            lemma_ground_stays(j, then, now, key, h);
            let all = h.sources + refs;
            assert forall|a: int, b: int| 0 <= a < b < all.len() implies #[trigger] all[a]
                < #[trigger] all[b] by {
                let n = h.sources.len() as int;
                if b < n {
                    assert(all[a] == h.sources[a] && all[b] == h.sources[b]);
                } else if a >= n {
                    assert(all[a] == refs[a - n] && all[b] == refs[b - n]);
                } else {
                    assert(j.episodes.contains(group[b - n]));
                    let i = j.episodes.index_of(group[b - n]);
                    assert(j.feeds(key)(j.episodes[i]));
                    assert(h.sources[a] < j.episodes[i].id);
                    assert(all[b] == refs[b - n]);
                }
            }
            lemma_latest_in_order(all);
            assert forall|k: int| 0 <= k < all.len() implies founded_on(
                then,
                key,
                #[trigger] all[k],
            ) by {
                if k < h.sources.len() {
                    assert(all[k] == h.sources[k]);
                } else {
                    assert(all[k] == refs[k - h.sources.len()]);
                }
            }
            lemma_latest(then, key, all);
            assert(b.episode_count == h.episode_count + group.len());
        },
        None => {
            lemma_latest_in_order(refs);
            lemma_latest(then, key, refs);
            assert(b.episode_count == group.len());
        },
    }
}

proof fn lemma_latest(j: JournalView, key: (Seq<char>, Polarity), refs: Seq<u64>)
    requires
        refs.len() > 0,
        forall|k: int| 0 <= k < refs.len() ==> founded_on(j, key, #[trigger] refs[k]),
    ensures
        0 < beliefs::latest(refs).len() <= MAX_SOURCES,
        forall|k: int|
            0 <= k < beliefs::latest(refs).len() ==> founded_on(
                j,
                key,
                #[trigger] beliefs::latest(refs)[k],
            ),
{
    let kept = beliefs::latest(refs);
    assert forall|k: int| 0 <= k < kept.len() implies founded_on(j, key, #[trigger] kept[k]) by {
        let at = refs.len() - kept.len() + k;
        assert(kept[k] == refs[at]);
    }
}

/// A pass keeps every belief on its ground and puts the ones it forms on the
/// episodes it formed them of.
pub proof fn law_a_pass_keeps_the_ground(j: JournalView, now: Timestamp, then: JournalView)
    requires
        j.is_orderly(),
        is_grounded(j),
        j.episodes.len() <= u32::MAX,
        j.is_after_pass(then, now),
    ensures
        is_grounded(then),
{
    assert forall|m: int| 0 <= m < then.beliefs.len() implies rests_on_episodes(
        then,
        (#[trigger] then.beliefs[m]).key(),
        then.beliefs[m],
    ) by {
        let b = then.beliefs[m];
        let key = b.key();
        let against = (key.0, Polarity::Negative);
        let for_it = (key.0, Polarity::Positive);
        lemma_queue_covers(then.beliefs, m);
        assert(then.queue(key) == j.verdict(key, now));
        lemma_one_verdict(j, now, key);
        assert(j.verdict(key, now)[0] == b);
        lemma_held_rests(j, key);
        lemma_one_each(j.beliefs, against);
        lemma_one_each(j.beliefs, for_it);
        if j.held(key) is Some {
            lemma_ground_stays(j, then, now, key, j.held(key)->0);
        }
        if key.1 is Negative && j.founds(against) {
            lemma_ground_gained(j, then, now, against, j.held(against));
        }
        if key.1 is Positive && j.founds(for_it) {
            let worn = if j.founds(against) {
                beliefs::eroded(j.held(for_it), beliefs::gain_of(j.group(against)))
            } else {
                j.held(for_it)
            };
            lemma_ground_gained(j, then, now, for_it, worn);
        }
    }
}

/// The belief that is held under a key rests on episodes where all do.
proof fn lemma_held_rests(j: JournalView, key: (Seq<char>, Polarity))
    requires
        is_grounded(j),
    ensures
        j.held(key) matches Some(b) ==> rests_on_episodes(j, key, b),
{
    if j.queue(key).len() > 0 {
        beliefs::lemma_queue_member(j.beliefs, key, 0);
        let i = j.beliefs.index_of(j.queue(key)[0]);
        assert(rests_on_episodes(j, j.beliefs[i].key(), j.beliefs[i]));
    }
}

/// In an orderly journal whose beliefs rest on its episodes, the episode counts
/// of a pass stay within their type.
pub proof fn law_grounded_counts_fit(j: JournalView)
    requires
        j.is_orderly(),
        is_grounded(j),
        j.episodes.len() <= u32::MAX,
    ensures
        j.counts_fit(),
{
    let all = |e: EpisodeView| true;
    j.episodes.lemma_filter_len(all);
    assert forall|key: (Seq<char>, Polarity)| (#[trigger] j.group(key)).len() <= u32::MAX by {
        lemma_whole_group(j, key);
        j.episodes.lemma_filter_len(j.feeds(key));
    }
    assert forall|i: int| 0 <= i < j.beliefs.len() && j.founds(
        (#[trigger] j.beliefs[i]).key(),
    ) implies j.beliefs[i].episode_count + j.group(j.beliefs[i].key()).len() <= u32::MAX by {
        let key = j.beliefs[i].key();
        assert(rests_on_episodes(j, key, j.beliefs[i]));
        lemma_whole_group(j, key);
        lemma_filters_add(j.episodes, fed(j, key), j.feeds(key), all);
    }
}

/// Asking why returns every founding episode of a belief, oldest first: none of
/// its references is dangling, and none of its episodes is about something else.
pub proof fn law_every_belief_can_be_explained(j: JournalView, i: int)
    requires
        j.is_orderly(),
        is_grounded(j),
        0 <= i < j.beliefs.len(),
    ensures
        ({
            let refs = j.beliefs[i].sources;
            let told = j.founding(refs);
            &&& j.why(j.beliefs[i].subject).contains((j.beliefs[i], told))
            &&& told.len() == refs.len()
            &&& 0 < told.len() <= MAX_SOURCES
            &&& oldest_first(refs)
            &&& forall|k: int|
                0 <= k < told.len() ==> (#[trigger] told[k]).id == refs[k] && told[k].is_about(
                    j.beliefs[i].key(),
                )
        }),
{
    let b = j.beliefs[i];
    assert(rests_on_episodes(j, j.beliefs[i].key(), j.beliefs[i]));
    lemma_founding(j, b.key(), b.sources);
    lemma_findings_cover(j, j.beliefs, i);
}

/// Every belief is among the findings about its subject.
proof fn lemma_findings_cover(j: JournalView, held: Seq<BeliefView>, i: int)
    requires
        0 <= i < held.len(),
    ensures
        j.findings(held, held[i].subject).contains((held[i], j.founding(held[i].sources))),
    decreases held.len(),
{
    let head = held.drop_last();
    let subject = held[i].subject;
    let whole = j.findings(held, subject);
    let before = j.findings(head, subject);
    if i < head.len() {
        lemma_findings_cover(j, head, i);
        let at = before.index_of((held[i], j.founding(held[i].sources)));
        assert(whole[at] == before[at]);
    } else {
        assert(whole[before.len() as int] == (held[i], j.founding(held[i].sources)));
    }
}

proof fn lemma_founding(j: JournalView, key: (Seq<char>, Polarity), refs: Seq<u64>)
    requires
        j.is_orderly(),
        forall|k: int| 0 <= k < refs.len() ==> founded_on(j, key, #[trigger] refs[k]),
    ensures
        j.founding(refs).len() == refs.len(),
        forall|k: int|
            0 <= k < refs.len() ==> (#[trigger] j.founding(refs)[k]).id == refs[k] && j.founding(
                refs,
            )[k].is_about(key),
    decreases refs.len(),
{
    if refs.len() > 0 {
        let head = refs.drop_last();
        assert forall|k: int| 0 <= k < head.len() implies founded_on(j, key, #[trigger] head[k]) by {
            assert(head[k] == refs[k]);
        }
        lemma_founding(j, key, head);
        let id = refs.last();
        assert(founded_on(j, key, refs[refs.len() - 1]));
        let i = choose|i: int|
            0 <= i < j.episodes.len() && (#[trigger] j.episodes[i]).id == id && fed(j, key)(
                j.episodes[i],
            );
        assert(beliefs::is_first_at(j.episodes, id, i));
        let at = choose|at: int| beliefs::is_first_at(j.episodes, id, at);
        assert(at == i);
        assert(j.episode(id) == Some(j.episodes[i]));
    }
}

/// A stored journal comes back as it was: what a journal lists of itself is
/// what it is rebuilt of.
pub proof fn law_a_stored_journal_comes_back(
    j: JournalView,
    consolidated: Seq<u64>,
    resolved: Seq<u64>,
)
    requires
        consolidated.to_set() == j.consolidated,
        resolved.to_set() == j.resolved,
    ensures
        j == (JournalView {
            episodes: j.episodes,
            consolidated: consolidated.to_set(),
            resolved: resolved.to_set(),
            beliefs: j.beliefs,
            next_id: j.next_id,
        }),
{
}

// ---------------------------------------------------------------------------
// What an episode weighs
// ---------------------------------------------------------------------------

/// One more episode adds its weight to a group, and two at the most: of anything
/// heavier only two counts.
pub proof fn law_an_episode_adds_its_weight_up_to_two(group: Seq<EpisodeView>, e: EpisodeView)
    ensures
        e.weight <= 200 ==> beliefs::weight_of(group.push(e)) == beliefs::weight_of(group)
            + e.weight,
        e.weight >= 200 ==> beliefs::weight_of(group.push(e)) == beliefs::weight_of(group) + 200,
        beliefs::weight_of(Seq::empty()) == 0,
{
    assert(group.push(e).drop_last() =~= group);
}

/// A group adds a quarter of its weight, rounded down, and full conviction at the
/// most.
pub proof fn law_a_group_adds_a_quarter_of_its_weight(group: Seq<EpisodeView>)
    ensures
        ({
            let weight = beliefs::weight_of(group);
            let gain = beliefs::gain_of(group);
            &&& weight < 400 ==> 4 * gain <= weight < 4 * gain + 4
            &&& weight >= 400 ==> gain == 100
        }),
{
}

/// No episode adds more than half a conviction: the gain of a group is at most a
/// quarter of the cap for each of its episodes, whatever they weigh.
pub proof fn law_a_group_gains_no_more_than_its_size(group: Seq<EpisodeView>)
    ensures
        beliefs::weight_of(group) <= 200 * group.len(),
        beliefs::gain_of(group) <= 50 * group.len(),
        beliefs::gain_of(group) <= 100,
    decreases group.len(),
{
    if group.len() > 0 {
        law_a_group_gains_no_more_than_its_size(group.drop_last());
    }
}

/// The two differ in weight at the most, and only where both are at the cap.
pub open spec fn weigh_alike(a: EpisodeView, b: EpisodeView) -> bool {
    &&& b == (EpisodeView { weight: b.weight, ..a })
    &&& a.weight != b.weight ==> a.weight >= 200 && b.weight >= 200
}

/// Groups whose episodes weigh alike weigh the same.
proof fn lemma_alike_groups(a: Seq<EpisodeView>, b: Seq<EpisodeView>)
    requires
        a.len() == b.len(),
        forall|i: int| 0 <= i < a.len() ==> weigh_alike(#[trigger] a[i], b[i]),
    ensures
        beliefs::weight_of(a) == beliefs::weight_of(b),
        beliefs::gain_of(a) == beliefs::gain_of(b),
        beliefs::refs_of(a) == beliefs::refs_of(b),
        beliefs::witnessed(a) == beliefs::witnessed(b),
    decreases a.len(),
{
    if a.len() > 0 {
        let (ha, hb) = (a.drop_last(), b.drop_last());
        assert forall|i: int| 0 <= i < ha.len() implies weigh_alike(#[trigger] ha[i], hb[i]) by {
            assert(ha[i] == a[i] && hb[i] == b[i]);
        }
        lemma_alike_groups(ha, hb);
        assert(weigh_alike(a[a.len() - 1], b[b.len() - 1]));
    }
    assert forall|i: int| 0 <= i < a.len() implies #[trigger] beliefs::refs_of(a)[i]
        == beliefs::refs_of(b)[i] by {
        assert(weigh_alike(a[i], b[i]));
    }
    assert(beliefs::refs_of(a) =~= beliefs::refs_of(b));
    if beliefs::witnessed(a) {
        let i = choose|i: int| 0 <= i < a.len() && (#[trigger] a[i]).reported_by is None;
        assert(weigh_alike(a[i], b[i]));
        assert(b[i].reported_by is None);
    }
    if beliefs::witnessed(b) {
        let i = choose|i: int| 0 <= i < b.len() && (#[trigger] b[i]).reported_by is None;
        assert(weigh_alike(a[i], b[i]));
        assert(a[i].reported_by is None);
    }
}

/// Journals whose episodes weigh alike have groups whose episodes do.
proof fn lemma_alike_parts(j: JournalView, k: JournalView, n: nat, key: (Seq<char>, Polarity))
    requires
        n <= j.episodes.len(),
        k.episodes.len() == j.episodes.len(),
        forall|i: int| 0 <= i < j.episodes.len() ==> weigh_alike(#[trigger] j.episodes[i], k.episodes[i]),
        k.consolidated == j.consolidated,
        k.resolved == j.resolved,
    ensures
        j.part(n, key).len() == k.part(n, key).len(),
        forall|i: int|
            0 <= i < j.part(n, key).len() ==> weigh_alike(
                #[trigger] j.part(n, key)[i],
                k.part(n, key)[i],
            ),
    decreases n,
{
    if n > 0 {
        lemma_alike_parts(j, k, (n - 1) as nat, key);
        let (a, b) = (j.episodes[n - 1], k.episodes[n - 1]);
        assert(weigh_alike(a, b));
        assert(j.share(key, a).len() == k.share(key, b).len());
        let head = j.part((n - 1) as nat, key);
        assert forall|i: int| 0 <= i < j.part(n, key).len() implies weigh_alike(
            #[trigger] j.part(n, key)[i],
            k.part(n, key)[i],
        ) by {
            if i < head.len() {
                assert(j.part(n, key)[i] == head[i]);
                assert(k.part(n, key)[i] == k.part((n - 1) as nat, key)[i]);
            } else {
                assert(j.part(n, key)[i] == a);
                assert(k.part(n, key)[i] == b);
            }
        }
    }
}

/// An episode at the cap or above it counts the same however heavy it is: raising
/// its weight changes no belief that a pass leaves behind.
pub proof fn law_weight_beyond_the_cap_changes_no_belief(
    j: JournalView,
    i: int,
    heavier: u16,
    now: Timestamp,
    then: JournalView,
    other: JournalView,
)
    requires
        0 <= i < j.episodes.len(),
        j.episodes[i].weight >= 200,
        heavier >= 200,
        j.is_after_pass(then, now),
        (JournalView {
            episodes: j.episodes.update(i, EpisodeView { weight: heavier, ..j.episodes[i] }),
            ..j
        }).is_after_pass(other, now),
    ensures
        other.beliefs == then.beliefs,
        other.consolidated == then.consolidated,
{
    let k = JournalView {
        episodes: j.episodes.update(i, EpisodeView { weight: heavier, ..j.episodes[i] }),
        ..j
    };
    assert forall|m: int| 0 <= m < j.episodes.len() implies weigh_alike(
        #[trigger] j.episodes[m],
        k.episodes[m],
    ) by {}
    assert forall|key: (Seq<char>, Polarity)|
        #![trigger j.group(key)]
        {
            &&& j.founds(key) == k.founds(key)
            &&& beliefs::gain_of(j.group(key)) == beliefs::gain_of(k.group(key))
            &&& beliefs::refs_of(j.group(key)) == beliefs::refs_of(k.group(key))
            &&& beliefs::witnessed(j.group(key)) == beliefs::witnessed(k.group(key))
            &&& j.group(key).len() == k.group(key).len()
        } by {
        lemma_alike_parts(j, k, j.episodes.len(), key);
        lemma_alike_groups(j.group(key), k.group(key));
    }
    assert forall|key: (Seq<char>, Polarity)| #[trigger] beliefs::queue(other.beliefs, key)
        == beliefs::queue(then.beliefs, key) by {
        assert(then.queue(key) == j.verdict(key, now));
        assert(other.queue(key) == k.verdict(key, now));
        let against = (key.0, Polarity::Negative);
        let for_it = (key.0, Polarity::Positive);
        assert(j.group(against).len() == k.group(against).len());
        assert(j.group(for_it).len() == k.group(for_it).len());
        assert forall|held: Option<BeliefView>, q: (Seq<char>, Polarity)|
            #![trigger beliefs::reinforced(held, q, j.group(q), now)]
            beliefs::reinforced(held, q, j.group(q), now) == beliefs::reinforced(
                held,
                q,
                k.group(q),
                now,
            ) by {
            assert(j.group(q).len() == k.group(q).len());
        }
    }
    lemma_queues_tell(other.beliefs, then.beliefs);
    assert forall|id: u64| j.consumed().contains(id) <==> k.consumed().contains(id) by {
        if j.consumed().contains(id) {
            let m = choose|m: int|
                0 <= m < j.episodes.len() && (#[trigger] j.episodes[m]).id == id && j.is_consumed(
                    j.episodes[m],
                );
            let e = j.episodes[m];
            let subject = choose|subject: Seq<char>| #[trigger]
                e.subjects.contains(subject) && j.founds((subject, e.polarity));
            assert(j.group((subject, e.polarity)).len() == k.group((subject, e.polarity)).len());
            let f = k.episodes[m];
            assert(f.subjects.contains(subject) && k.founds((subject, f.polarity)));
            assert(k.is_consumed(k.episodes[m]));
        }
        if k.consumed().contains(id) {
            let m = choose|m: int|
                0 <= m < k.episodes.len() && (#[trigger] k.episodes[m]).id == id && k.is_consumed(
                    k.episodes[m],
                );
            let f = k.episodes[m];
            let subject = choose|subject: Seq<char>| #[trigger]
                f.subjects.contains(subject) && k.founds((subject, f.polarity));
            assert(j.group((subject, f.polarity)).len() == k.group((subject, f.polarity)).len());
            let e = j.episodes[m];
            assert(e.subjects.contains(subject) && j.founds((subject, e.polarity)));
            assert(j.is_consumed(j.episodes[m]));
        }
    }
    assert(j.consumed() =~= k.consumed());
}

// ---------------------------------------------------------------------------
// What a group makes of a belief
// ---------------------------------------------------------------------------

/// A group makes a belief of its subject and its direction. It is as strong as the
/// group's gain, counts its episodes, rests on the latest of them, and is
/// first-hand where one of them is.
pub proof fn law_a_group_makes_a_belief(
    key: (Seq<char>, Polarity),
    group: Seq<EpisodeView>,
    now: Timestamp,
)
    requires
        group.len() <= u32::MAX,
    ensures
        ({
            let b = beliefs::reinforced(None, key, group, now);
            &&& b.subject == key.0
            &&& b.polarity == key.1
            &&& b.strength == beliefs::gain_of(group)
            &&& b.episode_count == group.len()
            &&& b.formed_at == now
            &&& b.last_reinforced_at == now
            &&& b.first_hand <==> exists|i: int|
                0 <= i < group.len() && (#[trigger] group[i]).reported_by is None
            &&& b.sources == beliefs::latest(beliefs::refs_of(group))
            &&& group.len() <= 8 ==> b.sources.len() == group.len() && forall|i: int|
                0 <= i < group.len() ==> #[trigger] b.sources[i] == group[i].id
        }),
{
}

/// A group reinforces the belief that is held: it is stronger by the gain, up to
/// full conviction, and counts the group's episodes too; when it was formed stays,
/// and what was ever first-hand stays so.
pub proof fn law_a_group_reinforces_a_belief(
    held: BeliefView,
    group: Seq<EpisodeView>,
    now: Timestamp,
)
    requires
        held.strength <= 100,
        held.episode_count + group.len() <= u32::MAX,
    ensures
        ({
            let b = beliefs::reinforced(Some(held), held.key(), group, now);
            let sum = held.strength + beliefs::gain_of(group);
            &&& b.subject == held.subject
            &&& b.polarity == held.polarity
            &&& sum <= 100 ==> b.strength == sum
            &&& sum >= 100 ==> b.strength == 100
            &&& b.episode_count == held.episode_count + group.len()
            &&& b.formed_at == held.formed_at
            &&& b.last_reinforced_at == now
            &&& b.first_hand <==> held.first_hand || exists|i: int|
                0 <= i < group.len() && (#[trigger] group[i]).reported_by is None
            &&& b.sources == beliefs::latest(held.sources + beliefs::refs_of(group))
        }),
{
}

/// A belief keeps the last eight of its references, in their order.
pub proof fn law_the_latest_references_are_kept(refs: Seq<u64>)
    ensures
        ({
            let kept = beliefs::latest(refs);
            &&& refs.len() <= 8 ==> kept == refs
            &&& refs.len() >= 8 ==> kept.len() == 8
            &&& forall|k: int|
                0 <= k < kept.len() ==> #[trigger] kept[k] == refs[refs.len() - kept.len() + k]
        }),
{
}

/// An opposite gain wears a belief down by as much and changes nothing else of it;
/// the belief dies exactly where nothing of it would be left.
pub proof fn law_erosion_takes_the_gain(held: BeliefView, gain: nat)
    ensures
        held.strength <= gain <==> beliefs::eroded(Some(held), gain) is None,
        beliefs::eroded(Some(held), gain) matches Some(b) ==> {
            &&& b.strength + gain == held.strength
            &&& b == (BeliefView { strength: b.strength, ..held })
        },
        beliefs::eroded(None, gain) is None,
{
}

/// How strongly a belief is held; nothing where it is not.
pub open spec fn conviction(j: JournalView, key: (Seq<char>, Polarity)) -> int {
    match j.held(key) {
        Some(b) => b.strength as int,
        None => 0,
    }
}

/// What a group of open episodes has to say: nothing below three of them.
pub open spec fn voice(j: JournalView, key: (Seq<char>, Polarity)) -> int {
    if j.group(key).len() >= 3 {
        beliefs::gain_of(j.group(key)) as int
    } else {
        0
    }
}

/// What a pass does to the two beliefs about a subject, in figures. The negative
/// group speaks first: it raises its own belief and takes as much from the positive
/// one; then the positive group does the same the other way. No belief rises above
/// full conviction or falls below nothing.
pub proof fn law_opposite_beliefs_wear_each_other_down(
    j: JournalView,
    now: Timestamp,
    then: JournalView,
    subject: Seq<char>,
)
    requires
        j.is_orderly(),
        j.is_after_pass(then, now),
        conviction(j, (subject, Polarity::Negative)) <= 100,
        conviction(j, (subject, Polarity::Positive)) <= 100,
    ensures
        ({
            let against = (subject, Polarity::Negative);
            let for_it = (subject, Polarity::Positive);
            let up = |x: int, by: int|
                if x + by > 100 {
                    100
                } else {
                    x + by
                };
            let down = |x: int, by: int|
                if x - by < 0 {
                    0
                } else {
                    x - by
                };
            &&& conviction(then, against) == down(
                up(conviction(j, against), voice(j, against)),
                voice(j, for_it),
            )
            &&& conviction(then, for_it) == up(
                down(conviction(j, for_it), voice(j, against)),
                voice(j, for_it),
            )
        }),
{
    let against = (subject, Polarity::Negative);
    let for_it = (subject, Polarity::Positive);
    lemma_one_each(j.beliefs, against);
    lemma_one_each(j.beliefs, for_it);
    law_a_group_gains_no_more_than_its_size(j.group(against));
    law_a_group_gains_no_more_than_its_size(j.group(for_it));
    assert(then.queue(against) == j.verdict(against, now));
    assert(then.queue(for_it) == j.verdict(for_it, now));
}

/// Three concordant open episodes found a belief, and two do not.
pub proof fn law_three_episodes_found_a_belief(j: JournalView, key: (Seq<char>, Polarity))
    ensures
        j.founds(key) <==> j.group(key).len() >= 3,
{
}

/// Every open episode that points a way about a subject is in the group of that
/// way and subject.
pub proof fn law_every_open_episode_has_its_group(
    j: JournalView,
    i: int,
    key: (Seq<char>, Polarity),
)
    requires
        0 <= i < j.episodes.len(),
        !(j.episodes[i].polarity is Neutral),
        !j.consolidated.contains(j.episodes[i].id),
        !j.resolved.contains(j.episodes[i].id),
        j.episodes[i].polarity == key.1,
        j.episodes[i].subjects.contains(key.0),
    ensures
        j.group(key).contains(j.episodes[i]),
{
    beliefs::lemma_part_covers(j, j.episodes.len(), key, i);
}

/// A pass marks the open episodes of the groups that founded a belief, keeps every
/// mark there was, and makes no other.
pub proof fn law_a_pass_marks_what_it_used(
    j: JournalView,
    now: Timestamp,
    then: JournalView,
    id: u64,
)
    requires
        j.is_after_pass(then, now),
    ensures
        then.consolidated.contains(id) <==> j.consolidated.contains(id) || exists|
            i: int,
            subject: Seq<char>,
        |
            {
                &&& 0 <= i < j.episodes.len()
                &&& (#[trigger] j.episodes[i]).id == id
                &&& #[trigger] j.episodes[i].subjects.contains(subject)
                &&& !(j.episodes[i].polarity is Neutral)
                &&& !j.resolved.contains(id)
                &&& j.group((subject, j.episodes[i].polarity)).len() >= 3
            },
        then.episodes == j.episodes,
        then.resolved == j.resolved,
{
    if j.consumed().contains(id) {
        let i = choose|i: int|
            0 <= i < j.episodes.len() && (#[trigger] j.episodes[i]).id == id && j.is_consumed(
                j.episodes[i],
            );
        let e = j.episodes[i];
        let subject = choose|subject: Seq<char>| #[trigger]
            e.subjects.contains(subject) && j.founds((subject, e.polarity));
        assert(j.episodes[i].subjects.contains(subject));
    }
    if !j.consolidated.contains(id) && exists|i: int, subject: Seq<char>|
        {
            &&& 0 <= i < j.episodes.len()
            &&& (#[trigger] j.episodes[i]).id == id
            &&& #[trigger] j.episodes[i].subjects.contains(subject)
            &&& !(j.episodes[i].polarity is Neutral)
            &&& !j.resolved.contains(id)
            &&& j.group((subject, j.episodes[i].polarity)).len() >= 3
        } {
        let (i, subject) = choose|i: int, subject: Seq<char>|
            {
                &&& 0 <= i < j.episodes.len()
                &&& (#[trigger] j.episodes[i]).id == id
                &&& #[trigger] j.episodes[i].subjects.contains(subject)
                &&& !(j.episodes[i].polarity is Neutral)
                &&& !j.resolved.contains(id)
                &&& j.group((subject, j.episodes[i].polarity)).len() >= 3
            };
        assert(j.episodes[i].subjects.contains(subject) && j.founds(
            (subject, j.episodes[i].polarity),
        ));
        assert(j.is_consumed(j.episodes[i]));
        assert(j.consumed().contains(id));
    }
}

/// A resolved episode founds nothing any more.
pub proof fn law_a_resolved_episode_founds_nothing(
    j: JournalView,
    id: u64,
    key: (Seq<char>, Polarity),
    i: int,
)
    requires
        0 <= i < (JournalView { resolved: j.resolved.insert(id), ..j }).group(key).len(),
    ensures
        (JournalView { resolved: j.resolved.insert(id), ..j }).group(key)[i].id != id,
{
    law_only_open_episodes_found(JournalView { resolved: j.resolved.insert(id), ..j }, key, i);
}

/// What is negative is opposite to what is positive, and what is neutral to
/// itself; beliefs about one subject stand with the negative first.
pub proof fn law_polarities_are_opposite(subject: Seq<char>)
    ensures
        Polarity::Negative.opposite_spec() is Positive,
        Polarity::Positive.opposite_spec() is Negative,
        Polarity::Neutral.opposite_spec() is Neutral,
        beliefs::key_before((subject, Polarity::Negative), (subject, Polarity::Neutral)),
        beliefs::key_before((subject, Polarity::Neutral), (subject, Polarity::Positive)),
{
}

/// An episode is filed under all of its subjects where there are no more than
/// eight; of more, those that come first in order.
pub proof fn law_only_the_ninth_subject_is_dropped(
    raw: Seq<Seq<char>>,
    filed: Seq<Seq<char>>,
    s: Seq<char>,
)
    requires
        beliefs::is_filing(raw, filed),
    ensures
        filed.len() <= 8,
        filed.contains(s) ==> raw.contains(s),
        raw.contains(s) && filed.len() < 8 ==> filed.contains(s),
        raw.contains(s) && !filed.contains(s) ==> forall|i: int|
            0 <= i < filed.len() ==> text::text_before(#[trigger] filed[i], s),
        forall|i: int, k: int|
            0 <= i < k < filed.len() ==> text::text_before(#[trigger] filed[i], #[trigger] filed[k]),
{
    if raw.contains(s) && !filed.contains(s) {
        assert forall|i: int| 0 <= i < filed.len() implies text::text_before(
            #[trigger] filed[i],
            s,
        ) by {
            if i < filed.len() - 1 {
                assert(text::text_before(filed[i], filed[filed.len() - 1]));
                text::lemma_text_before_transitive(filed[i], filed.last(), s);
            }
        }
    }
}

/// Asking why lists each belief about the subject with the episodes it rests on,
/// and no belief about anything else.
pub proof fn law_why_lists_the_beliefs_about_a_subject(
    j: JournalView,
    held: Seq<BeliefView>,
    b: BeliefView,
    subject: Seq<char>,
)
    ensures
        b.subject == subject ==> j.findings(held.push(b), subject) == j.findings(
            held,
            subject,
        ).push((b, j.founding(b.sources))),
        b.subject != subject ==> j.findings(held.push(b), subject) == j.findings(held, subject),
        j.findings(Seq::empty(), subject).len() == 0,
        j.why(subject) == j.findings(j.beliefs, subject),
{
    assert(held.push(b).drop_last() =~= held);
}

/// A reference is traced to the first episode that has it, and one that none has
/// to nothing.
pub proof fn law_references_are_traced_one_by_one(j: JournalView, refs: Seq<u64>, id: u64)
    ensures
        j.episode(id) is None ==> j.founding(refs.push(id)) == j.founding(refs),
        j.episode(id) matches Some(e) ==> j.founding(refs.push(id)) == j.founding(refs).push(e),
        j.episode(id) is None <==> forall|i: int|
            0 <= i < j.episodes.len() ==> (#[trigger] j.episodes[i]).id != id,
        j.episode(id) matches Some(e) ==> e.id == id && j.episodes.contains(e),
{
    assert(refs.push(id).drop_last() =~= refs);
    if exists|i: int| 0 <= i < j.episodes.len() && (#[trigger] j.episodes[i]).id == id {
        let i = choose|i: int| 0 <= i < j.episodes.len() && (#[trigger] j.episodes[i]).id == id;
        lemma_some_is_first(j.episodes, id, i);
    }
    if j.episode(id) is Some {
        let at = choose|i: int| beliefs::is_first_at(j.episodes, id, i);
        assert(beliefs::is_first_at(j.episodes, id, at));
    }
}

/// Where some episode has a reference, one is the first to have it.
proof fn lemma_some_is_first(episodes: Seq<EpisodeView>, id: u64, i: int)
    requires
        0 <= i < episodes.len(),
        episodes[i].id == id,
    ensures
        exists|k: int| beliefs::is_first_at(episodes, id, k),
    decreases i,
{
    if forall|k: int| 0 <= k < i ==> (#[trigger] episodes[k]).id != id {
        assert(beliefs::is_first_at(episodes, id, i));
    } else {
        let k = choose|k: int| 0 <= k < i && (#[trigger] episodes[k]).id == id;
        lemma_some_is_first(episodes, id, k);
    }
}

// ---------------------------------------------------------------------------
// Recording and resolving
// ---------------------------------------------------------------------------

/// Recording appends one episode under the next reference and changes nothing else:
/// no earlier episode, no belief and no mark. What it appends says what was told, by
/// whom and when, and points nowhere exactly where it was neutral or weighs nothing.
pub proof fn law_recording_only_appends(
    j: JournalView,
    then: JournalView,
    new: NewEpisode,
    now: Timestamp,
)
    requires
        j.is_after_record(then, new, now),
    ensures
        then.episodes.len() == j.episodes.len() + 1,
        forall|i: int|
            0 <= i < j.episodes.len() ==> #[trigger] then.episodes[i] == j.episodes[i],
        then.beliefs == j.beliefs,
        then.consolidated == j.consolidated,
        then.resolved == j.resolved,
        j.next_id < u64::MAX ==> then.next_id == j.next_id + 1,
        ({
            let e = then.episodes[j.episodes.len() as int];
            &&& e.id == j.next_id
            &&& e.at == now
            &&& e.weight == new.weight@
            &&& e.summary == new.summary.inner()@
            &&& e.reported_by is None <==> new.reported_by is None
            &&& e.polarity is Neutral <==> new.polarity is Neutral || new.weight@ == 0
            &&& !(e.polarity is Neutral) ==> e.polarity == new.polarity
            &&& e.subjects.len() <= 8
        }),
{
}

/// Resolving closes the episode of a reference and nothing else; a reference that no
/// episode has changes nothing.
pub proof fn law_resolving_closes_one_episode(j: JournalView, id: u64)
    ensures
        ({
            let then = j.with_resolved(id);
            let known = exists|i: int| 0 <= i < j.episodes.len() && (#[trigger] j.episodes[i]).id
                == id;
            &&& known ==> then.resolved == j.resolved.insert(id)
            &&& !known ==> then == j
            &&& then.episodes == j.episodes
            &&& then.beliefs == j.beliefs
            &&& then.consolidated == j.consolidated
            &&& then.next_id == j.next_id
        }),
{
    law_references_are_traced_one_by_one(j, Seq::empty(), id);
}

/// Where only one direction has a group, a pass makes or reinforces the belief of that
/// direction out of the group, as of now, and wears the opposite one down by what the
/// group gained.
pub proof fn law_a_group_is_heard_in_a_pass(
    j: JournalView,
    now: Timestamp,
    then: JournalView,
    key: (Seq<char>, Polarity),
)
    requires
        j.is_after_pass(then, now),
        j.group(key).len() >= 3,
        j.group((key.0, key.1.opposite_spec())).len() < 3,
    ensures
        then.held(key) == Some(beliefs::reinforced(j.held(key), key, j.group(key), now)),
        j.is_orderly() ==> then.held((key.0, key.1.opposite_spec())) == beliefs::eroded(
            j.held((key.0, key.1.opposite_spec())),
            beliefs::gain_of(j.group(key)),
        ),
{
    let other = (key.0, key.1.opposite_spec());
    beliefs::lemma_founding_is_pointed(j, key);
    assert(then.queue(key) == j.verdict(key, now));
    assert(then.queue(other) == j.verdict(other, now));
    if j.is_orderly() {
        lemma_one_each(j.beliefs, other);
    }
}

/// Where both directions have a group, the negative belief is reinforced and then
/// worn down by what the positive group gains, and the positive one is worn down
/// first and then reinforced.
pub proof fn law_both_groups_are_heard_in_turn(
    j: JournalView,
    now: Timestamp,
    then: JournalView,
    subject: Seq<char>,
)
    requires
        j.is_orderly(),
        j.is_after_pass(then, now),
        j.group((subject, Polarity::Negative)).len() >= 3,
        j.group((subject, Polarity::Positive)).len() >= 3,
    ensures
        ({
            let against = (subject, Polarity::Negative);
            let for_it = (subject, Polarity::Positive);
            let (lost, won) = (j.group(against), j.group(for_it));
            &&& then.held(against) == beliefs::eroded(
                Some(beliefs::reinforced(j.held(against), against, lost, now)),
                beliefs::gain_of(won),
            )
            &&& then.held(for_it) == Some(
                beliefs::reinforced(
                    beliefs::eroded(j.held(for_it), beliefs::gain_of(lost)),
                    for_it,
                    won,
                    now,
                ),
            )
        }),
{
    let against = (subject, Polarity::Negative);
    let for_it = (subject, Polarity::Positive);
    lemma_one_each(j.beliefs, against);
    lemma_one_each(j.beliefs, for_it);
    assert(then.queue(against) == j.verdict(against, now));
    assert(then.queue(for_it) == j.verdict(for_it, now));
}

/// Neutral beliefs, which no pass forms, are left as they are.
pub proof fn law_a_pass_leaves_the_neutral_alone(
    j: JournalView,
    now: Timestamp,
    then: JournalView,
    subject: Seq<char>,
)
    requires
        j.is_after_pass(then, now),
    ensures
        then.queue((subject, Polarity::Neutral)) == j.queue((subject, Polarity::Neutral)),
        j.group((subject, Polarity::Neutral)).len() == 0,
{
    let key = (subject, Polarity::Neutral);
    assert(then.queue(key) == j.verdict(key, now));
    if j.group(key).len() > 0 {
        law_only_open_episodes_found(j, key, 0);
    }
}

} // verus!
