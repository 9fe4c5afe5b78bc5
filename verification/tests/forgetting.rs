use agentos_domain::ids::Slug;
use agentos_domain::psyche::forgetting::{
    Impression, Ledger, Neglect, Provenance, Sentiment, Stance, TraceKey, stance as read_stance,
};

const FADE_PER_DERIVE: f64 = 0.0005;
const MISTRUST_FLOOR: f64 = 0.4;
const HEARSAY_CAP: f64 = 0.45;
const SURPRISE_MIN: f64 = 0.5;
const LEARNING_RATE: f64 = 0.3;
const EXTINCTION_PER_DERIVE: f64 = 0.001;
const FRICTION_RECOVERY_PER_DERIVE: f64 = 0.001;
const HOSTILITY_THRESHOLD: f64 = 0.4;
const GRUDGE_CAP: f64 = 2.0;

fn days(n: i64) -> i64 {
    n * 86_400
}

fn minutes(n: i64) -> i64 {
    n * 60
}

fn record(
    ledger: &mut Ledger<f64>,
    key: TraceKey,
    sentiment: Sentiment,
    provenance: Provenance,
) -> f64 {
    let (strength, expectation) = ledger
        .trace(&key)
        .map_or((0.0, 0.0), |t| (t.strength, t.expectation));
    let surprise = f64::from(sentiment.polarity()) - expectation;
    let weight = SURPRISE_MIN + (1.0 - SURPRISE_MIN) * surprise.abs().min(1.0);
    let remaining = strength - weight;
    ledger.record(
        key,
        sentiment,
        provenance,
        Impression {
            nothing: 0.0,
            weight,
            expectation: (expectation + LEARNING_RATE * surprise).clamp(-1.0, 1.0),
            stacked_first_hand: (strength + weight).min(1.0),
            stacked_hearsay: (strength + weight).min(HEARSAY_CAP),
            remaining,
            spent: remaining <= 0.0,
            turned_first_hand: (-remaining).min(1.0),
            turned_hearsay: (-remaining).min(HEARSAY_CAP),
        },
    )
}

fn decay(ledger: &mut Ledger<f64>, elapsed_seconds: i64) {
    let steps = ledger.steps(elapsed_seconds);
    let friction =
        (ledger.resting_friction() - steps as f64 * FRICTION_RECOVERY_PER_DERIVE).max(0.0);
    let mut retention = 1.0_f64;
    for _ in 0..steps {
        retention *= 1.0 - EXTINCTION_PER_DERIVE;
        if retention < f64::EPSILON {
            retention = 0.0;
            break;
        }
    }
    let left = ledger
        .traces()
        .iter()
        .map(|t| {
            let faded = t.strength - t.fading(steps) as f64 * FADE_PER_DERIVE;
            Neglect {
                faded_first_hand: faded.max(MISTRUST_FLOOR.min(t.strength)),
                faded_hearsay: faded.max(0.0_f64.min(t.strength)),
                expectation: t.expectation * retention,
            }
        })
        .collect();
    ledger.decay(elapsed_seconds, friction, left);
}

fn strain(ledger: &mut Ledger<f64>, amount: f64) {
    ledger.add_strain((ledger.resting_friction() + amount.max(0.0)).clamp(0.0, 1.0));
}

fn excess(ledger: &Ledger<f64>, who: &Slug, sentiment: Sentiment) -> f64 {
    ledger
        .strengths(who, sentiment)
        .iter()
        .map(|s| (s - MISTRUST_FLOOR).max(0.0))
        .sum::<f64>()
        .min(GRUDGE_CAP)
}

fn grudge(ledger: &Ledger<f64>, who: &Slug) -> f64 {
    excess(ledger, who, Sentiment::Adverse)
}

fn stance(ledger: &Ledger<f64>, who: &Slug) -> Stance {
    let net = grudge(ledger, who) - excess(ledger, who, Sentiment::Favourable);
    read_stance(
        net >= HOSTILITY_THRESHOLD,
        net <= -HOSTILITY_THRESHOLD,
        ledger
            .witnessed_strengths(who, Sentiment::Adverse)
            .iter()
            .any(|s| *s >= MISTRUST_FLOOR),
    )
}

fn slug(raw: &str) -> Slug {
    Slug::parse(raw).expect("test slug")
}

fn key(counterparty: &str, topic: &str) -> TraceKey {
    TraceKey::new(slug(counterparty), slug(topic))
}

const SUPPLIERS: [&str; 6] = [
    "acme-tooling",
    "beihai-plastics",
    "cortez-castings",
    "delta-fasteners",
    "eastport-resins",
    "fujin-bearings",
];
const GRIEVANCES: [&str; 3] = ["lead-time-miss", "price-hike", "short-shipped"];

fn run_disappointments(ledger: &mut Ledger<f64>) -> usize {
    for topic in GRIEVANCES {
        for supplier in SUPPLIERS {
            record(ledger, key(supplier, topic),
                Sentiment::Adverse,
                Provenance::FirstHand,
            );
        }
        decay(ledger, days(10));
    }
    decay(ledger, days(60));

    SUPPLIERS
        .into_iter()
        .filter(|s| stance(ledger, &slug(s)) == Stance::Hostile)
        .count()
}

#[test]
fn forgetting_is_what_separates_the_dystopia_from_a_working_supplier_book() {
    let mut dystopia = Ledger::without_forgetting(0.0);
    let mut cured = Ledger::new(0.0);

    let hostile_without = run_disappointments(&mut dystopia);
    let hostile_with = run_disappointments(&mut cured);

    assert_eq!(
        hostile_without,
        SUPPLIERS.len(),
        "with nothing forgetting, the whole supplier book should burn"
    );
    assert_eq!(
        hostile_with, 0,
        "differentiated forgetting must keep the book usable"
    );

    for supplier in SUPPLIERS {
        assert_eq!(stance(&cured, &slug(supplier)), Stance::Wary);
        assert!((grudge(&cured, &slug(supplier)) - 0.0).abs() < f64::EPSILON);
    }
    assert!(grudge(&dystopia, &slug(SUPPLIERS[0])) > 1.0);
}

#[test]
fn first_hand_experience_never_fades_below_the_floor() {
    let mut ledger = Ledger::new(0.0);
    let k = key("acme-tooling", "lead-time-miss");
    record(&mut ledger, k.clone(), Sentiment::Adverse, Provenance::FirstHand);
    assert!((ledger.trace(&k).unwrap().strength - 1.0).abs() < f64::EPSILON);

    decay(&mut ledger, days(10_000));
    assert!((ledger.trace(&k).unwrap().strength - MISTRUST_FLOOR).abs() < f64::EPSILON);
}

#[test]
fn hearsay_fades_all_the_way_to_zero() {
    let mut ledger = Ledger::new(0.0);
    let k = key("acme-tooling", "lead-time-miss");
    record(&mut ledger, k.clone(), Sentiment::Adverse, Provenance::Hearsay);
    assert!((ledger.trace(&k).unwrap().strength - HEARSAY_CAP).abs() < f64::EPSILON);

    decay(&mut ledger, days(100));
    assert_eq!(ledger.trace(&k).unwrap().strength, 0.0);
}

#[test]
fn witnessing_it_yourself_outranks_being_told_forever() {
    let mut ledger = Ledger::new(0.0);
    let k = key("acme-tooling", "lead-time-miss");
    record(&mut ledger, k.clone(), Sentiment::Adverse, Provenance::Hearsay);
    record(&mut ledger, k.clone(), Sentiment::Adverse, Provenance::FirstHand);
    record(&mut ledger, k.clone(), Sentiment::Adverse, Provenance::Hearsay);
    assert_eq!(ledger.trace(&k).unwrap().provenance, Provenance::FirstHand);

    decay(&mut ledger, days(1_000));
    assert!((ledger.trace(&k).unwrap().strength - MISTRUST_FLOOR).abs() < f64::EPSILON);
}

#[test]
fn a_predicted_transgression_weighs_less_than_a_surprising_one() {
    let mut ledger = Ledger::new(0.0);
    let k = key("acme-tooling", "lead-time-miss");

    let first = record(&mut ledger, k.clone(), Sentiment::Adverse, Provenance::FirstHand);
    let second = record(&mut ledger, k.clone(), Sentiment::Adverse, Provenance::FirstHand);
    assert!(
        (first - 1.0).abs() < f64::EPSILON,
        "first contact is a surprise"
    );
    assert!(second < first, "the second time is less outrageous");

    let mut last = second;
    for _ in 0..20 {
        let w = record(&mut ledger, k.clone(), Sentiment::Adverse, Provenance::FirstHand);
        assert!(w <= last + f64::EPSILON);
        last = w;
    }
    assert!(
        last < SURPRISE_MIN + 0.05,
        "a fully predicted flaw should sit at the outrage floor, got {last}"
    );

    let other = record(&mut ledger, key("acme-tooling", "short-shipped"),
        Sentiment::Adverse,
        Provenance::FirstHand,
    );
    assert!((other - 1.0).abs() < f64::EPSILON);
}

#[test]
fn sanction_immunity_is_not_permanent() {
    let mut ledger = Ledger::new(0.0);
    let k = key("acme-tooling", "lead-time-miss");
    for _ in 0..20 {
        record(&mut ledger, k.clone(), Sentiment::Adverse, Provenance::FirstHand);
    }
    assert!(ledger.trace(&k).unwrap().expectation < -0.9);

    decay(&mut ledger, days(200));
    assert!(ledger.trace(&k).unwrap().expectation.abs() < 0.01);
    let weight = record(&mut ledger, k.clone(), Sentiment::Adverse, Provenance::FirstHand);
    assert!(weight > 0.99, "outrage did not come back, got {weight}");
}

#[test]
fn the_resting_point_drifts_back() {
    let mut ledger = Ledger::new(0.0);
    strain(&mut ledger, 0.9);
    decay(&mut ledger, days(5));
    let after_five = ledger.resting_friction();
    assert!(
        after_five < 0.9 - 0.2,
        "no allostatic recovery: {after_five}"
    );
    decay(&mut ledger, days(100));
    assert_eq!(ledger.resting_friction(), 0.0);
}

#[test]
fn a_ledger_that_never_forgets_is_frozen() {
    let mut ledger = Ledger::without_forgetting(0.0);
    let k = key("acme-tooling", "lead-time-miss");
    record(&mut ledger, k.clone(), Sentiment::Adverse, Provenance::Hearsay);
    strain(&mut ledger, 0.9);
    let before = ledger.clone();
    decay(&mut ledger, days(10_000));
    assert_eq!(ledger, before);
}

#[test]
fn decay_is_a_pure_function_of_the_elapsed_time_handed_in() {
    let seed = || {
        let mut l = Ledger::new(0.0);
        strain(&mut l, 0.8);
        record(&mut l, key("acme-tooling", "lead-time-miss"),
            Sentiment::Adverse,
            Provenance::FirstHand,
        );
        record(&mut l, key("beihai-plastics", "price-hike"),
            Sentiment::Adverse,
            Provenance::Hearsay,
        );
        l
    };

    let mut a = seed();
    let mut b = seed();
    for _ in 0..7 {
        decay(&mut a, minutes(1_000));
        decay(&mut b, minutes(1_000));
    }
    assert_eq!(a, b);

    let mut whole = seed();
    decay(&mut whole, minutes(7_000));
    for (chunked, single) in a.traces().iter().zip(whole.traces().iter()) {
        assert!((chunked.strength - single.strength).abs() < 1e-9);
        assert!((chunked.expectation - single.expectation).abs() < 1e-9);
        assert_eq!(chunked.idle_derives, single.idle_derives);
    }
    assert!((a.resting_friction() - whole.resting_friction()).abs() < 1e-9);

    let mut back = seed();
    let frozen = back.clone();
    decay(&mut back, days(-30));
    assert_eq!(back, frozen);
}

#[test]
fn delivering_erodes_the_grudge() {
    let mut ledger = Ledger::new(0.0);
    let supplier = slug("acme-tooling");
    for topic in GRIEVANCES {
        record(&mut ledger, key("acme-tooling", topic),
            Sentiment::Adverse,
            Provenance::FirstHand,
        );
    }
    assert_eq!(stance(&ledger, &supplier), Stance::Hostile);

    for topic in GRIEVANCES {
        record(&mut ledger, key("acme-tooling", topic),
            Sentiment::Favourable,
            Provenance::FirstHand,
        );
    }
    assert_ne!(stance(&ledger, &supplier), Stance::Hostile);
}

#[test]
fn a_supplier_that_delivers_becomes_trusted() {
    let mut ledger = Ledger::new(0.0);
    let supplier = slug("fujin-bearings");
    for topic in ["on-time", "spec-clean"] {
        record(&mut ledger, key("fujin-bearings", topic),
            Sentiment::Favourable,
            Provenance::FirstHand,
        );
    }
    assert_eq!(stance(&ledger, &supplier), Stance::Trusted);
    assert_eq!(stance(&ledger, &slug("nobody-known")), Stance::Neutral);
}

#[test]
fn spells_below_a_period_are_carried_over() {
    let mut ledger = Ledger::new(0.0);
    assert_eq!(ledger.steps(1_439), 0);
    decay(&mut ledger, 1_439);
    assert_eq!(ledger.steps(0), 0);
    assert_eq!(ledger.steps(1), 1);
    assert_eq!(ledger.steps(-5), 0);
    assert_eq!(ledger.steps(i64::MAX), i64::MAX as u64 / 1_440);
    assert_eq!(Ledger::without_forgetting(0.0).steps(days(9)), 0);
}

#[test]
fn a_trace_fades_only_past_its_grace() {
    let mut ledger = Ledger::new(0.0);
    let k = key("acme-tooling", "price-hike");
    record(&mut ledger, k.clone(), Sentiment::Adverse, Provenance::FirstHand);
    let trace = *ledger.trace(&k).unwrap();
    assert_eq!(trace.fading(180), 0);
    assert_eq!(trace.fading(181), 1);
    assert_eq!(trace.fading(200), 20);
    decay(&mut ledger, days(3));
    assert_eq!(ledger.trace(&k).unwrap().strength, 1.0);
    assert_eq!(ledger.trace(&k).unwrap().idle_derives, 180);
    assert_eq!(ledger.trace(&k).unwrap().fading(5), 5);
}

#[test]
fn a_ledger_rebuilt_from_its_traces_is_that_ledger() {
    let mut ledger = Ledger::new(0.0);
    record(&mut ledger, key("acme-tooling", "delays"), Sentiment::Adverse, Provenance::FirstHand);
    record(&mut ledger, key("beihai-plastics", "price"), Sentiment::Favourable, Provenance::Hearsay);
    strain(&mut ledger, 0.25);
    decay(&mut ledger, days(2) + 7);
    assert_eq!(ledger.residue_seconds(), 7);
    assert!(ledger.forgets());
    let stored: Vec<_> = ledger
        .keys()
        .iter()
        .cloned()
        .zip(ledger.traces().iter().copied())
        .collect();
    assert_eq!(Ledger::restore(stored.clone(), ledger.resting_friction(), true, 7), ledger);

    // What was stored stands as it is, whatever a decay would have left.
    let mut late = Ledger::restore(stored.clone(), 0.0, true, 1_440);
    assert_eq!(late.residue_seconds(), 1_440);
    assert_eq!(late.steps(1), 1);
    decay(&mut late, 1);
    assert_eq!(late.residue_seconds(), 1);
    let mut early = Ledger::restore(stored, 0.0, true, -1);
    assert_eq!(early.residue_seconds(), -1);
    assert_eq!(early.steps(1_440), 0);
    decay(&mut early, 1_440);
    assert_eq!(early.residue_seconds(), 1_439);
    assert!(!Ledger::without_forgetting(0.0).forgets());
}

#[test]
fn hearsay_alone_makes_nobody_wary() {
    let who = slug("acme-tooling");
    let mut ledger = Ledger::new(0.0);
    record(&mut ledger, key("acme-tooling", "delays"), Sentiment::Adverse, Provenance::Hearsay);
    assert!(ledger.strengths(&who, Sentiment::Adverse)[0] >= MISTRUST_FLOOR);
    assert!(ledger.witnessed_strengths(&who, Sentiment::Adverse).is_empty());
    assert_eq!(stance(&ledger, &who), Stance::Neutral);

    record(&mut ledger, key("acme-tooling", "quality"), Sentiment::Adverse, Provenance::FirstHand);
    decay(&mut ledger, days(60));
    assert_eq!(ledger.witnessed_strengths(&who, Sentiment::Adverse), vec![MISTRUST_FLOOR]);
    assert_eq!(stance(&ledger, &who), Stance::Wary);
}
