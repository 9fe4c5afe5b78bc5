use agentos_domain::ids::Slug;
use agentos_domain::psyche::links::{
    Appraisal, Band, Blow, LinkChange, LinkError, Polarity, Standing, TrustEvent, TrustLedger,
    TrustLink,
};
use agentos_domain::time::Timestamp;

const BASE_CONFIDENCE: f64 = 0.5;
const SHOCK_ABSORBER: f64 = 0.85;
const BREAK_DROP: f64 = 0.2;
const BREAKABLE_FROM: f64 = 0.6;
const CLOSE_FROM: f64 = 0.65;
const WARY_UNDER: f64 = 0.35;
const MAX_WEIGHT: f64 = 10.0;

fn band(confidence: f64) -> Band {
    if confidence >= CLOSE_FROM {
        Band::High
    } else if confidence <= WARY_UNDER {
        Band::Low
    } else {
        Band::Middle
    }
}

fn blow(before: f64, event: TrustEvent, weight: f64) -> Blow<f64> {
    let weight = if weight.is_nan() {
        1.0
    } else {
        weight.clamp(0.0, MAX_WEIGHT)
    };
    let mut increment = f64::from(event.delta()) / 100.0 * weight;
    if increment < 0.0 {
        increment *= 1.0 - SHOCK_ABSORBER * (before - BASE_CONFIDENCE).max(0.0) * 2.0;
    }
    let after = (before + increment).clamp(0.0, 1.0);
    Blow {
        after,
        collapsed: before - after > BREAK_DROP,
        breakable: before >= BREAKABLE_FROM,
    }
}

fn apply(
    link: &mut TrustLink<f64>,
    event: TrustEvent,
    weight: f64,
    now: Timestamp,
) -> LinkChange<f64> {
    let blow = blow(link.confidence(), event, weight);
    link.apply(event, blow, now)
}

fn record(
    ledger: &mut TrustLedger<f64>,
    who: &Slug,
    event: TrustEvent,
    weight: f64,
    now: Timestamp,
) -> LinkChange<f64> {
    let before = ledger.confidence(who, BASE_CONFIDENCE);
    ledger.record(who, BASE_CONFIDENCE, event, blow(before, event, weight), now)
}

fn appraise(ledger: &TrustLedger<f64>, who: &Slug, polarity: Polarity) -> Appraisal {
    ledger.appraise(who, band(ledger.confidence(who, BASE_CONFIDENCE)), polarity)
}

fn factor(appraisal: &Appraisal) -> f64 {
    f64::from(appraisal.factor_halves) / 2.0
}

fn ranked(ledger: &TrustLedger<f64>) -> Vec<(&Slug, &TrustLink<f64>)> {
    let ranks = ledger
        .iter()
        .iter()
        .map(|(_, link)| link.confidence().to_bits() as i64)
        .collect();
    ledger.ranked(ranks)
}

fn handle(s: &str) -> Slug {
    Slug::parse(s).expect("test handle")
}

fn at(day: u32) -> Timestamp {
    Timestamp::from_parts(1_767_268_800 + i64::from(day - 1) * 86_400, 0).unwrap()
}

fn build(ledger: &mut TrustLedger<f64>, who: &Slug, n: usize) {
    for _ in 0..n {
        record(ledger, who, TrustEvent::PromiseKept, 1.0, at(1));
    }
}

#[test]
fn a_stranger_sits_at_the_neutral_prior() {
    let ledger = TrustLedger::new();
    let who = handle("acme-forge");
    assert_eq!(ledger.get(&who), None);
    assert_eq!(ledger.confidence(&who, BASE_CONFIDENCE), BASE_CONFIDENCE);
    assert_eq!(
        appraise(&ledger, &who, Polarity::Bad).standing,
        Standing::Neutral
    );
}

#[test]
fn trust_cannot_be_assigned_only_earned() {
    assert_eq!(TrustLink::fresh(BASE_CONFIDENCE).confidence(), BASE_CONFIDENCE);
    let mut ledger = TrustLedger::new();
    let who = handle("acme-forge");
    build(&mut ledger, &who, 3);
    assert!((ledger.confidence(&who, BASE_CONFIDENCE) - 0.8).abs() < 1e-12);
}

fn restore(confidence: f64) -> Result<TrustLink<f64>, LinkError<f64>> {
    let sound = confidence.is_finite() && (0.0..=1.0).contains(&confidence);
    TrustLink::restore(confidence, sound, None)
}

#[test]
fn a_corrupt_stored_confidence_is_rejected() {
    assert_eq!(restore(1.4), Err(LinkError::Confidence { got: 1.4 }));
    assert!(restore(f64::NAN).is_err());
    let link = restore(0.75).unwrap();
    assert_eq!(link.confidence(), 0.75);
    assert!(!link.is_broken());
}

#[test]
fn kept_promises_build_and_saturate_at_one() {
    let mut ledger = TrustLedger::new();
    let who = handle("acme-forge");
    build(&mut ledger, &who, 40);
    assert_eq!(ledger.confidence(&who, BASE_CONFIDENCE), 1.0);
    assert!(!ledger.get(&who).unwrap().is_broken());
}

#[test]
fn breaking_requires_having_been_built() {
    let mut cold = TrustLedger::new();
    let who = handle("cold-supplier");
    let change = record(&mut cold, &who, TrustEvent::CommitmentBroken, 3.0, at(1));
    assert_eq!(change.after, 0.0);
    assert!(change.before - change.after > BREAK_DROP);
    assert!(!change.broke, "a cold link cannot be broken");
    assert!(!cold.get(&who).unwrap().is_broken());

    let mut warm = TrustLedger::new();
    let partner = handle("warm-supplier");
    build(&mut warm, &partner, 3); // 0.8
    let change = record(&mut warm, &partner, TrustEvent::CommitmentBroken, 3.0, at(2));
    assert!(change.broke, "a built link must break");
    assert_eq!(warm.get(&partner).unwrap().broken_at(), Some(at(2)));
}

#[test]
fn the_shock_absorber_wounds_first_and_kills_second() {
    let mut link = TrustLink::fresh(BASE_CONFIDENCE);
    for _ in 0..5 {
        apply(&mut link, TrustEvent::PromiseKept, 1.0, at(1));
    }
    let first = apply(&mut link, TrustEvent::FaultRepeated, 1.0, at(1));
    assert!(first.before > 0.9);

    let hit1 = apply(&mut link, TrustEvent::CommitmentBroken, 3.0, at(2));
    assert!(
        !hit1.broke,
        "one blow must not undo a long relationship, dropped {}",
        hit1.before - hit1.after
    );
    let hit2 = apply(&mut link, TrustEvent::CommitmentBroken, 3.0, at(3));
    assert!(hit2.broke, "the second blow must break: doubt then kills");
}

#[test]
fn a_slow_decline_erodes_without_breaking() {
    let mut link = TrustLink::fresh(BASE_CONFIDENCE);
    let mut broke_any = false;
    for _ in 0..30 {
        broke_any |= apply(&mut link, TrustEvent::FaultRepeated, 1.0, at(1)).broke;
    }
    assert!(!broke_any);
    assert_eq!(link.confidence(), 0.0);
    assert!(!link.is_broken());
}

#[test]
fn breakage_is_structural_and_not_re_earnable() {
    let mut ledger = TrustLedger::new();
    let who = handle("was-a-partner");
    build(&mut ledger, &who, 3);
    let broke = record(&mut ledger, &who, TrustEvent::CommitmentBroken, 3.0, at(2));
    assert!(broke.broke);
    let broken_at = ledger.get(&who).unwrap().broken_at();

    build(&mut ledger, &who, 1);
    assert!(ledger.get(&who).unwrap().is_broken());
    build(&mut ledger, &who, 20);
    assert_eq!(ledger.confidence(&who, BASE_CONFIDENCE), 1.0);
    let link = ledger.get(&who).unwrap();
    assert!(link.is_broken(), "the scar must stay visible");
    assert_eq!(link.broken_at(), broken_at, "breakage date is immutable");
    assert_eq!(
        link.standing(band(link.confidence())),
        Standing::Neutral,
        "a broken link never reads Close again"
    );
    assert_eq!(ledger.broken(), vec![&who]);

    let again = record(&mut ledger, &who, TrustEvent::CommitmentBroken, 3.0, at(5));
    assert!(!again.broke);
    assert_eq!(ledger.get(&who).unwrap().broken_at(), broken_at);
}

#[test]
fn proximity_weighting_is_exactly_two() {
    let mut ledger = TrustLedger::new();
    let close = handle("three-year-partner");
    let stranger = handle("first-order");
    let wary = handle("known-slipper");

    build(&mut ledger, &close, 2); // 0.7 -> Close
    record(&mut ledger, &wary, TrustEvent::FaultRepeated, 2.0, at(1)); // 0.3 -> Wary

    let bad_from_close = appraise(&ledger, &close, Polarity::Bad);
    let bad_from_stranger = appraise(&ledger, &stranger, Polarity::Bad);
    let bad_from_wary = appraise(&ledger, &wary, Polarity::Bad);

    assert_eq!(bad_from_close.standing, Standing::Close);
    assert_eq!(bad_from_stranger.standing, Standing::Neutral);
    assert_eq!(bad_from_wary.standing, Standing::Wary);

    assert_eq!(factor(&bad_from_stranger), 1.0);
    assert_eq!(factor(&bad_from_close), 2.0);
    assert!(
        (factor(&bad_from_close) - 2.0 * factor(&bad_from_stranger)).abs() < f64::EPSILON,
        "a late delivery from a three-year partner must weigh exactly twice a stranger's"
    );
    assert_eq!(factor(&bad_from_wary), 0.5, "that figures");

    assert_eq!(factor(&appraise(&ledger, &wary, Polarity::Good)), 1.5);
    assert_eq!(factor(&appraise(&ledger, &close, Polarity::Good)), 1.0);
    assert_eq!(factor(&appraise(&ledger, &stranger, Polarity::Good)), 1.0);
}

#[test]
fn appraisal_does_not_move_confidence() {
    let mut ledger = TrustLedger::new();
    let who = handle("acme-forge");
    build(&mut ledger, &who, 2);
    let before = ledger.clone();
    for _ in 0..100 {
        appraise(&ledger, &who, Polarity::Bad);
        appraise(&ledger, &who, Polarity::Good);
    }
    assert_eq!(ledger.clone(), before);
}

#[test]
fn weight_frontiers_are_neutralised() {
    let mut nan = TrustLink::fresh(BASE_CONFIDENCE);
    let mut one = TrustLink::fresh(BASE_CONFIDENCE);
    apply(&mut nan, TrustEvent::PromiseKept, f64::NAN, at(1));
    apply(&mut one, TrustEvent::PromiseKept, 1.0, at(1));
    assert_eq!(nan.confidence(), one.confidence());

    let mut negative = TrustLink::fresh(BASE_CONFIDENCE);
    let change = apply(&mut negative, TrustEvent::CommitmentBroken, -5.0, at(1));
    assert_eq!(change.after, BASE_CONFIDENCE);

    let mut huge = TrustLink::fresh(BASE_CONFIDENCE);
    let mut capped = TrustLink::fresh(BASE_CONFIDENCE);
    apply(&mut huge, TrustEvent::CommitmentBroken, f64::INFINITY, at(1));
    apply(&mut capped, TrustEvent::CommitmentBroken, MAX_WEIGHT, at(1));
    assert_eq!(huge.confidence(), capped.confidence());
}

#[test]
fn counterparty_order_never_changes_an_observable_output() {
    let events = [
        (handle("zeta-metals"), TrustEvent::PromiseKept),
        (handle("alpha-tools"), TrustEvent::CommitmentBroken),
        (handle("mid-cast"), TrustEvent::FaultRepeated),
        (handle("zeta-metals"), TrustEvent::PromiseKept),
        (handle("alpha-tools"), TrustEvent::PromiseKept),
    ];

    let mut forward = TrustLedger::new();
    for (who, event) in &events {
        record(&mut forward, who, *event, 1.0, at(1));
    }
    let mut interleaved = TrustLedger::new();
    for (who, event) in [&events[1], &events[4], &events[0], &events[3], &events[2]] {
        record(&mut interleaved, who, *event, 1.0, at(1));
    }

    assert_eq!(forward, interleaved);
    assert_eq!(
        forward.iter(),
        interleaved.iter()
    );
    assert_eq!(
        ranked(&forward).iter().map(|(h, _)| *h).collect::<Vec<_>>(),
        ranked(&interleaved).iter()
            .map(|(h, _)| *h)
            .collect::<Vec<_>>()
    );
    assert_eq!(
        forward.iter().into_iter().map(|(h, _)| h).collect::<Vec<_>>(),
        vec![
            &handle("alpha-tools"),
            &handle("mid-cast"),
            &handle("zeta-metals")
        ]
    );
}

#[test]
fn ranking_is_total_even_on_ties() {
    let mut ledger = TrustLedger::new();
    for who in ["b-supplier", "a-supplier", "c-supplier"] {
        record(&mut ledger, &handle(who), TrustEvent::PromiseKept, 1.0, at(1));
    }
    let ranked: Vec<_> = ranked(&ledger)
        .into_iter()
        .map(|(h, _)| h.as_str().to_owned())
        .collect();
    assert_eq!(ranked, vec!["a-supplier", "b-supplier", "c-supplier"]);
}

#[test]
fn confidence_stays_in_bounds_and_breakage_is_monotonic() {
    let mut seed: u64 = 3;
    for _ in 0..40 {
        let mut ledger = TrustLedger::new();
        let who = handle("prop-supplier");
        let mut seen_broken = false;
        let mut breaks = 0;
        for _ in 0..80 {
            seed = seed
                .wrapping_mul(6_364_136_223_846_793_005)
                .wrapping_add(1_442_695_040_888_963_407);
            let event = [
                TrustEvent::PromiseKept,
                TrustEvent::CommitmentBroken,
                TrustEvent::FaultRepeated,
            ][((seed >> 40) % 3) as usize];
            let weight = ((seed >> 33) % 121) as f64 / 10.0;
            let change = record(&mut ledger, &who, event, weight, at(1));
            assert!((0.0..=1.0).contains(&change.after));
            if change.broke {
                breaks += 1;
            }
            let broken = ledger.get(&who).unwrap().is_broken();
            assert!(broken || !seen_broken, "a link un-broke");
            seen_broken = broken;
        }
        assert!(breaks <= 1);
    }
}

#[test]
fn the_most_trusted_comes_first() {
    let mut ledger = TrustLedger::new();
    for (who, times) in [("a-supplier", 1), ("b-supplier", 3), ("c-supplier", 2)] {
        build(&mut ledger, &handle(who), times);
    }
    let order: Vec<&str> = ranked(&ledger).iter().map(|(h, _)| h.as_str()).collect();
    assert_eq!(order, vec!["b-supplier", "c-supplier", "a-supplier"]);
    assert_eq!(TrustEvent::FaultRepeated.polarity(), Polarity::Bad);
}

#[test]
fn a_ledger_rebuilt_from_its_links_is_that_ledger() {
    let mut ledger = TrustLedger::new();
    let (forge, mill) = (handle("acme-forge"), handle("baltic-mill"));
    build(&mut ledger, &forge, 3);
    record(&mut ledger, &forge, TrustEvent::CommitmentBroken, 10.0, at(4));
    record(&mut ledger, &mill, TrustEvent::FaultRepeated, 1.0, at(5));
    let stored: Vec<(Slug, TrustLink<f64>)> = ledger
        .iter()
        .into_iter()
        .map(|(who, link)| (who.clone(), *link))
        .collect();
    assert_eq!(TrustLedger::restore(stored.clone()), ledger);

    let mut twice = stored;
    twice.push((mill.clone(), TrustLink::fresh(BASE_CONFIDENCE)));
    let rebuilt = TrustLedger::restore(twice);
    assert_eq!(rebuilt.confidence(&mill, 0.0), BASE_CONFIDENCE, "the last one counts");
    assert_eq!(rebuilt.iter().len(), 2);
}
