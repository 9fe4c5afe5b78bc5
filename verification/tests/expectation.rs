use agentos_domain::ids::Slug;
use agentos_domain::money::{Currency, Money, MoneyError};
use agentos_domain::psyche::expectation::{
    Dimension, Expectation, ExpectationBook, ExpectationError, Figures, PredictionError, Reading,
    Reliability, Size, StoredState, price_delta_bps,
};
use agentos_domain::time::Timestamp;

const LEARNING_RATE: f64 = 0.3;
const SURPRISE_FLOOR: f64 = 0.5;
const K_PRECISION: f64 = 1.0;
const DRIFT_SLACK: f64 = 0.25;
const DRIFT_THRESHOLD: f64 = 2.0;
const DRIFT_CEILING: f64 = 2.0 * DRIFT_THRESHOLD;
const ERRATIC_VARIANCE: f64 = 0.5;
const MAX_OBSERVATION: f64 = 1e9;

fn at(secs: i64) -> Timestamp {
    Timestamp::from_parts(1_700_000_000 + secs, 0).expect("valid timestamp")
}

fn slug(s: &str) -> Slug {
    Slug::parse(s).expect("valid slug")
}

fn close(left: f64, right: f64) {
    assert!(
        (left - right).abs() < 1e-9,
        "expected {right}, got {left} (diff {})",
        (left - right).abs()
    );
}

fn size(value: f64) -> Size {
    if !value.is_finite() {
        Size::NotFinite
    } else if value.abs() > MAX_OBSERVATION {
        Size::TooLarge
    } else {
        Size::Sound
    }
}

fn variance(e: &Expectation<f64>) -> Option<f64> {
    e.variance().map(|(m2, n)| m2 / f64::from(n))
}

fn std_dev(e: &Expectation<f64>) -> Option<f64> {
    variance(e).map(f64::sqrt)
}

fn precision(e: &Expectation<f64>) -> Option<f64> {
    let scale = f64::from(e.dimension().scale());
    variance(e).map(|var| 1.0 / (1.0 + K_PRECISION * var / (scale * scale)))
}

fn reliability(e: &Expectation<f64>) -> Reliability {
    let scale = f64::from(e.dimension().scale());
    let tight = variance(e).is_some_and(|var| var / (scale * scale) <= ERRATIC_VARIANCE);
    e.reliability(tight)
}

fn claim_gap(e: &Expectation<f64>) -> Option<f64> {
    e.claim_gap().map(|(expected, claimed)| expected - claimed)
}

fn reading(e: &Expectation<f64>, observed: f64) -> Reading<f64> {
    let figures = e.figures();
    let scale = f64::from(e.dimension().scale());
    let miss = observed - figures.expected;
    let surprise = if e.is_first_contact() { 0.0 } else { miss };
    let salience =
        SURPRISE_FLOOR + (1.0 - SURPRISE_FLOOR) * (surprise.abs() / scale).min(1.0);
    let z = (surprise / scale).clamp(-1.0, 1.0);
    let drift_up = (figures.drift_up + z - DRIFT_SLACK).clamp(0.0, DRIFT_CEILING);
    let drift_down = (figures.drift_down - z - DRIFT_SLACK).clamp(0.0, DRIFT_CEILING);
    let delta = observed - figures.mean;
    let mean = figures.mean + delta / (f64::from(e.observations()) + 1.0);
    let m2 = figures.m2 + delta * (observed - mean);
    let weighted = LEARNING_RATE * precision(e).unwrap_or(1.0);
    Reading {
        observed,
        size: size(observed),
        miss,
        salience,
        nothing: 0.0,
        whole: 1.0,
        drift_up,
        drift_down,
        drifts_up: drift_up >= DRIFT_THRESHOLD,
        drifts_down: drift_down >= DRIFT_THRESHOLD,
        mean,
        m2,
        learned: figures.expected + LEARNING_RATE * surprise,
        learned_by_precision: figures.expected + weighted * surprise,
    }
}

fn fresh(dimension: Dimension) -> Expectation<f64> {
    Expectation::new(dimension, 0.0)
}

fn with_claim(
    dimension: Dimension,
    claimed: f64,
) -> Result<Expectation<f64>, ExpectationError<f64>> {
    Expectation::with_claim(dimension, claimed, size(claimed), 0.0)
}

fn observe(
    e: &mut Expectation<f64>,
    observed: f64,
    now: Timestamp,
) -> Result<PredictionError<f64>, ExpectationError<f64>> {
    let reading = reading(e, observed);
    e.observe(reading, now)
}

fn book_observe(
    book: &mut ExpectationBook<f64>,
    who: &Slug,
    dimension: Dimension,
    observed: f64,
    now: Timestamp,
) -> Result<PredictionError<f64>, ExpectationError<f64>> {
    let entry = book.get(who, dimension).copied();
    let reading = reading(&entry.unwrap_or_else(|| fresh(dimension)), observed);
    book.observe(who, dimension, 0.0, reading, now)
}

fn book_claim(
    book: &mut ExpectationBook<f64>,
    who: &Slug,
    dimension: Dimension,
    claimed: f64,
) -> Result<(), ExpectationError<f64>> {
    book.record_claim(who, dimension, 0.0, claimed, size(claimed))
}

fn delta_bps(quoted: Money, agreed: Money) -> Result<f64, MoneyError> {
    price_delta_bps(quoted, agreed).map(|d| d.numerator as f64 / d.denominator as f64)
}

#[test]
fn rescorla_wagner_follows_the_textbook_trajectory() {
    let mut exp = with_claim(Dimension::LeadTimeDays, 15.0).unwrap();
    let lambda = 23.0;
    let v0 = 15.0;

    for k in 1..=10_i32 {
        observe(&mut exp, lambda, at(i64::from(k))).unwrap();
        let textbook = lambda - (lambda - v0) * (1.0 - LEARNING_RATE).powi(k);
        close(exp.expected().unwrap(), textbook);
    }
    let mut exp = with_claim(Dimension::LeadTimeDays, 15.0).unwrap();
    close(observe(&mut exp, 23.0, at(1)).unwrap().surprise, 8.0);
    close(exp.expected().unwrap(), 17.4);
    observe(&mut exp, 23.0, at(2)).unwrap();
    close(exp.expected().unwrap(), 19.08);
    observe(&mut exp, 23.0, at(3)).unwrap();
    close(exp.expected().unwrap(), 20.256);
    close(claim_gap(&exp).unwrap(), 5.256);
}

#[test]
fn habituation_falls_out_of_the_update_rule() {
    let mut exp = with_claim(Dimension::LeadTimeDays, 15.0).unwrap();
    let mut previous = f64::INFINITY;
    let first_weight = observe(&mut exp, 23.0, at(0)).unwrap().weight;
    for k in 1..=8 {
        let pe = observe(&mut exp, 23.0, at(k)).unwrap();
        assert!(pe.surprise.abs() < previous, "surprise did not shrink");
        previous = pe.surprise.abs();
    }
    let pe = observe(&mut exp, 23.0, at(9)).unwrap();
    assert!(pe.weight >= SURPRISE_FLOOR);
    assert!(pe.weight < first_weight * 0.7);
    let shock = observe(&mut exp, 60.0, at(10)).unwrap();
    close(shock.weight, 1.0);
    assert!(shock.surprise > 35.0);
}

#[test]
fn one_bad_delivery_is_not_a_new_supplier() {
    let mut exp = fresh(Dimension::LeadTimeDays);
    for day in [20.0, 20.0, 20.0, 20.0] {
        observe(&mut exp, day, at(0)).unwrap();
    }
    let outlier = observe(&mut exp, 200.0, at(1)).unwrap();
    assert!(
        !outlier.regime_change,
        "one miss, however big, is an outlier and not a regime change"
    );
}

#[test]
fn symmetric_noise_never_trips_the_detector() {
    let mut exp = fresh(Dimension::LeadTimeDays);
    observe(&mut exp, 20.0, at(0)).unwrap();
    for (i, day) in [26.0, 14.0, 25.0, 15.0, 27.0, 13.0, 24.0, 16.0]
        .iter()
        .enumerate()
    {
        let err = observe(&mut exp, *day, at(i as i64)).unwrap();
        assert!(
            !err.regime_change,
            "observation {i} ({day}) tripped the detector on symmetric noise"
        );
    }
}

#[test]
fn a_supplier_that_actually_moved_is_followed_rather_than_averaged() {
    let mut exp = fresh(Dimension::LeadTimeDays);
    for day in [15.0, 15.0, 16.0, 15.0] {
        observe(&mut exp, day, at(0)).unwrap();
    }
    let settled = exp.expected().expect("observed");

    let mut fired = false;
    for (i, day) in [40.0, 42.0, 41.0, 40.0, 41.0, 40.0, 41.0]
        .iter()
        .enumerate()
    {
        fired |= observe(&mut exp, *day, at(i as i64)).unwrap().regime_change;
    }

    assert!(fired, "seven consistent misses have to read as a change");
    assert!(
        exp.expected().expect("observed") > settled + 15.0,
        "the belief has to follow: settled at {settled:.1}, now {:.1}, reality 41",
        exp.expected().expect("observed")
    );
    assert_eq!(exp.observations(), 11);
    assert!(!matches!(reliability(&exp), Reliability::Unknown));
}

#[test]
fn the_detector_drains_once_the_belief_catches_up() {
    let mut exp = fresh(Dimension::LeadTimeDays);
    observe(&mut exp, 15.0, at(0)).unwrap();
    for day in [40.0, 41.0, 40.0, 41.0, 40.0] {
        observe(&mut exp, day, at(0)).unwrap();
    }
    let settled = exp.expected().expect("observed");
    let mut last = true;
    for _ in 0..12 {
        last = observe(&mut exp, settled, at(0)).unwrap().regime_change;
    }
    assert!(
        !last,
        "the accumulator has to drain when the counterparty holds still"
    );
}

#[test]
fn welford_matches_the_hand_computed_variance() {
    let mut exp = fresh(Dimension::DefectRatePct);
    for (i, x) in [2.0, 4.0, 4.0, 4.0, 5.0, 5.0, 7.0, 9.0].iter().enumerate() {
        observe(&mut exp, *x, at(i as i64)).unwrap();
    }
    close(exp.mean().unwrap(), 5.0);
    close(variance(&exp).unwrap(), 4.0);
    close(std_dev(&exp).unwrap(), 2.0);
    assert_eq!(exp.observations(), 8);
}

#[test]
fn welford_survives_a_large_offset() {
    let data = [2.0, 4.0, 4.0, 4.0, 5.0, 5.0, 7.0, 9.0].map(|x| x + 5e8);
    let mut exp = fresh(Dimension::DefectRatePct);
    for (i, x) in data.iter().enumerate() {
        observe(&mut exp, *x, at(i as i64)).unwrap();
    }
    assert!((variance(&exp).unwrap() - 4.0).abs() < 1e-4);

    let n = data.len() as f64;
    let sum: f64 = data.iter().sum();
    let sum_sq: f64 = data.iter().map(|x| x * x).sum();
    let naive = sum_sq / n - (sum / n) * (sum / n);
    assert!(
        (naive - 4.0).abs() > 0.1,
        "naive formula unexpectedly accurate ({naive}); the Welford test has lost its point"
    );
}

#[test]
fn consistent_beats_erratic() {
    let mut steady = with_claim(Dimension::LeadTimeDays, 15.0).unwrap();
    let mut erratic = with_claim(Dimension::LeadTimeDays, 15.0).unwrap();
    for (i, (s, e)) in [
        (23.0, 8.0),
        (23.0, 38.0),
        (24.0, 9.0),
        (23.0, 40.0),
        (23.0, 5.0),
        (24.0, 39.0),
    ]
    .iter()
    .enumerate()
    {
        observe(&mut steady, *s, at(i as i64)).unwrap();
        observe(&mut erratic, *e, at(i as i64)).unwrap();
    }

    assert!((steady.mean().unwrap() - erratic.mean().unwrap()).abs() < 2.0);
    assert_eq!(reliability(&steady), Reliability::Predictable);
    assert_eq!(reliability(&erratic), Reliability::Erratic);
    assert!(precision(&steady).unwrap() > 0.9);
    assert!(precision(&erratic).unwrap() < 0.05);
    assert!(std_dev(&steady).unwrap() < 1.0);
    assert!(std_dev(&erratic).unwrap() > 10.0);

    let (before_s, before_e) = (steady.expected().unwrap(), erratic.expected().unwrap());
    observe(&mut steady, 30.0, at(9)).unwrap();
    observe(&mut erratic, 30.0, at(9)).unwrap();
    let moved_s = (steady.expected().unwrap() - before_s).abs();
    let moved_e = (erratic.expected().unwrap() - before_e).abs();
    assert!(
        moved_s > moved_e * 3.0,
        "precision-weighted gain not applied: {moved_s} vs {moved_e}"
    );
}

#[test]
fn a_first_observation_does_not_pretend_to_have_precision() {
    let mut exp = fresh(Dimension::ResponseLatencyHours);
    assert_eq!(exp.expected(), None);
    assert_eq!(reliability(&exp), Reliability::Unknown);

    let pe = observe(&mut exp, 6.0, at(0)).unwrap();
    assert!(pe.first_contact);
    close(pe.surprise, 0.0); // no prior existed; do not invent an error
    close(pe.weight, 1.0); // ...but it is entirely new information
    close(exp.expected().unwrap(), 6.0); // adopted wholesale
    assert_eq!(variance(&exp), None);
    assert_eq!(std_dev(&exp), None);
    assert_eq!(precision(&exp), None);
    assert_eq!(reliability(&exp), Reliability::Unknown);

    observe(&mut exp, 6.0, at(1)).unwrap();
    assert_eq!(variance(&exp), Some(0.0));
    assert_eq!(reliability(&exp), Reliability::Unknown); // still under MIN_OBSERVATIONS
    observe(&mut exp, 6.0, at(2)).unwrap();
    assert_eq!(reliability(&exp), Reliability::Predictable);
}

#[test]
fn a_claim_is_a_prediction() {
    let mut exp = with_claim(Dimension::LeadTimeDays, 15.0).unwrap();
    assert_eq!(exp.expected(), Some(15.0));
    assert_eq!(claim_gap(&exp), None); // never checked yet
    let pe = observe(&mut exp, 23.0, at(0)).unwrap();
    assert!(!pe.first_contact);
    close(pe.surprise, 8.0);
    assert!(claim_gap(&exp).unwrap() > 0.0);
}

#[test]
fn a_later_claim_does_not_reset_learning() {
    let mut exp = fresh(Dimension::LeadTimeDays);
    observe(&mut exp, 23.0, at(0)).unwrap();
    observe(&mut exp, 23.0, at(1)).unwrap();
    let learned = exp.expected().unwrap();
    exp.record_claim(15.0, size(15.0)).unwrap();
    close(exp.expected().unwrap(), learned);
    close(claim_gap(&exp).unwrap(), learned - 15.0);
}

#[test]
fn non_finite_and_absurd_observations_are_rejected() {
    let mut exp = fresh(Dimension::LeadTimeDays);
    observe(&mut exp, 20.0, at(0)).unwrap();
    observe(&mut exp, 24.0, at(1)).unwrap();
    let before = exp.clone();

    for bad in [f64::NAN, f64::INFINITY, f64::NEG_INFINITY] {
        assert_eq!(observe(&mut exp, bad, at(2)), Err(ExpectationError::NotFinite));
        assert_eq!(exp.surprise_of(bad, size(bad)), Err(ExpectationError::NotFinite));
    }
    assert!(matches!(
        observe(&mut exp, 1e300, at(2)),
        Err(ExpectationError::OutOfRange(_))
    ));
    assert!(matches!(
        with_claim(Dimension::LeadTimeDays, f64::NAN),
        Err(ExpectationError::NotFinite)
    ));
    assert_eq!(exp, before);
    assert!(exp.expected().unwrap().is_finite());
    assert!(variance(&exp).unwrap().is_finite());
}

fn figures(expected: f64, mean: f64, m2: f64) -> Figures<f64> {
    Figures {
        expected,
        mean,
        m2,
        drift_up: 0.0,
        drift_down: 0.0,
    }
}

fn restore(
    f: Figures<f64>,
    n: u32,
    claimed: Option<f64>,
) -> Result<Expectation<f64>, ExpectationError<f64>> {
    let state = StoredState {
        figures_finite: f.expected.is_finite() && f.mean.is_finite() && f.m2.is_finite(),
        claim_finite: claimed.is_some_and(f64::is_finite),
        m2_negative: f.m2 < 0.0,
        m2_zero: f.m2 == 0.0,
        drifts_sound: [f.drift_up, f.drift_down]
            .iter()
            .all(|d| d.is_finite() && *d >= 0.0),
    };
    Expectation::restore(Dimension::LeadTimeDays, f, n, claimed, None, None, state)
}

#[test]
fn deserialization_rejects_a_poisoned_blob() {
    assert_eq!(
        restore(figures(f64::NAN, 5.0, 1.0), 3, None),
        Err(ExpectationError::NotFinite)
    );
    assert_eq!(
        restore(figures(5.0, 5.0, 1.0), 3, Some(f64::INFINITY)),
        Err(ExpectationError::NotFinite)
    );
    assert_eq!(
        restore(figures(5.0, 5.0, 9.0), 1, None),
        Err(ExpectationError::Corrupt)
    );
    assert_eq!(
        restore(figures(5.0, 5.0, -1.0), 4, None),
        Err(ExpectationError::Corrupt)
    );
    let drifted = Figures {
        drift_down: -0.5,
        ..figures(5.0, 5.0, 1.0)
    };
    assert_eq!(restore(drifted, 4, None), Err(ExpectationError::Corrupt));
    let good = restore(figures(5.0, 5.0, 1.0), 4, Some(4.0)).unwrap();
    assert_eq!(good.expected(), Some(5.0));
    assert_eq!(good.observations(), 4);
    assert_eq!(good.claimed(), Some(4.0));
}

#[test]
fn replay_is_bit_for_bit_deterministic() {
    let series = [
        ("shenzhen-widgets", Dimension::LeadTimeDays, 23.0),
        ("acme-fasteners", Dimension::PriceDeltaBps, 1400.0),
        ("shenzhen-widgets", Dimension::ResponseLatencyHours, 2.0),
        ("shenzhen-widgets", Dimension::LeadTimeDays, 25.0),
        ("acme-fasteners", Dimension::LeadTimeDays, 12.0),
        ("shenzhen-widgets", Dimension::LeadTimeDays, 22.0),
    ];
    let build = || {
        let mut book = ExpectationBook::new();
        book_claim(&mut book, &slug("shenzhen-widgets"), Dimension::LeadTimeDays, 15.0)
            .unwrap();
        for (i, (name, dim, value)) in series.iter().enumerate() {
            book_observe(&mut book, &slug(name), *dim, *value, at(i as i64))
                .unwrap();
        }
        book
    };
    let a = build();
    let b = build();
    assert_eq!(a, b);

    let keys: Vec<_> = a.iter().iter().map(|(s, d, _)| (s.as_str(), *d)).collect();
    let mut sorted = keys.clone();
    sorted.sort();
    assert_eq!(keys, sorted);
    assert_eq!(a.len(), 4);
    assert!(!a.is_empty());
}

#[test]
fn book_keeps_counterparties_and_dimensions_apart() {
    let mut book = ExpectationBook::new();
    assert!(book.is_empty());
    let z = slug("supplier-z");
    let y = slug("supplier-y");

    book_claim(&mut book, &z, Dimension::LeadTimeDays, 15.0)
        .unwrap();
    for i in 0..6 {
        book_observe(&mut book, &z, Dimension::LeadTimeDays, 23.0, at(i))
            .unwrap();
        book_observe(&mut book, &y, Dimension::LeadTimeDays, 15.0, at(i))
            .unwrap();
        book_observe(&mut book, &z, Dimension::ResponseLatencyHours, 30.0, at(i))
            .unwrap();
    }

    let z_lead = book.get(&z, Dimension::LeadTimeDays).unwrap();
    assert!(claim_gap(z_lead).unwrap() > 6.0); // claims 15, real ~23
    close(
        book.get(&y, Dimension::LeadTimeDays)
            .unwrap()
            .mean()
            .unwrap(),
        15.0,
    );
    assert_eq!(book.get(&y, Dimension::ResponseLatencyHours), None);
    assert_eq!(book.counterparty(&z).len(), 2);
    assert_eq!(book.counterparty(&slug("nobody")).len(), 0);
}

#[test]
fn price_delta_is_computed_on_minor_units() {
    let quoted = Money::new(11_400, Currency::Usd).unwrap();
    let agreed = Money::new(10_000, Currency::Usd).unwrap();
    close(delta_bps(quoted, agreed).unwrap(), 1400.0);
    close(
        delta_bps(agreed, quoted).unwrap(),
        -1_228.070_175_438_596_5,
    );
    assert!(matches!(
        delta_bps(quoted, Money::new(10_000, Currency::Eur).unwrap()),
        Err(MoneyError::CurrencyMismatch { .. })
    ));

    let mut exp = fresh(Dimension::PriceDeltaBps);
    for i in 0..6 {
        observe(&mut exp, delta_bps(quoted, agreed).unwrap(), at(i))
            .unwrap();
    }
    close(exp.expected().unwrap(), 1400.0);
    assert_eq!(reliability(&exp), Reliability::Predictable);
}

#[test]
fn every_dimension_has_a_usable_scale() {
    for dim in Dimension::ALL {
        assert!(dim.scale() > 0);
        assert!(!dim.unit().is_empty());
        let mut exp = fresh(dim);
        observe(&mut exp, 1.0, at(0)).unwrap();
        observe(&mut exp, 2.0, at(1)).unwrap();
        assert!(precision(&exp).unwrap() > 0.0);
    }
}

#[test]
fn state_stays_finite_and_variance_non_negative() {
    let mut seed: u64 = 7;
    for len in 1..64 {
        let mut exp = fresh(Dimension::LeadTimeDays);
        let mut values = Vec::new();
        for i in 0..len {
            seed = seed
                .wrapping_mul(6_364_136_223_846_793_005)
                .wrapping_add(1_442_695_040_888_963_407);
            let v = ((seed >> 33) % 2_000_001) as f64 - 1e6;
            values.push(v);
            observe(&mut exp, v, at(i)).unwrap();
        }
        assert!(exp.expected().unwrap().is_finite());
        assert!(exp.mean().unwrap().is_finite());
        if let Some(var) = variance(&exp) {
            assert!(var >= 0.0 && var.is_finite());
            let precision = precision(&exp).unwrap();
            assert!(precision > 0.0 && precision <= 1.0);
        }
        let lo = values.iter().cloned().fold(f64::INFINITY, f64::min);
        let hi = values.iter().cloned().fold(f64::NEG_INFINITY, f64::max);
        assert!(exp.mean().unwrap() >= lo - 1e-6);
        assert!(exp.mean().unwrap() <= hi + 1e-6);
    }
}

#[test]
fn the_first_and_the_last_sight_are_kept() {
    let mut exp = fresh(Dimension::DefectRatePct);
    assert_eq!(exp.first_observed_at(), None);
    for i in 0..4 {
        observe(&mut exp, 1.0, at(i)).unwrap();
    }
    assert_eq!(exp.first_observed_at(), Some(at(0)));
    assert_eq!(exp.last_observed_at(), Some(at(3)));
    assert_eq!(exp.observations(), 4);
}

#[test]
fn a_refused_observation_makes_no_entry() {
    let mut book: ExpectationBook<f64> = ExpectationBook::new();
    let z = slug("supplier-z");
    assert_eq!(
        book_observe(&mut book, &z, Dimension::LeadTimeDays, f64::NAN, at(0)),
        Err(ExpectationError::NotFinite)
    );
    assert!(matches!(
        book_claim(&mut book, &z, Dimension::LeadTimeDays, 1e300),
        Err(ExpectationError::OutOfRange(_))
    ));
    assert!(book.is_empty());
}

#[test]
fn a_book_rebuilt_from_its_entries_is_that_book() {
    let mut book = ExpectationBook::new();
    let (acme, borealis) = (slug("acme"), slug("borealis"));
    for k in 0..4 {
        book_observe(&mut book, &acme, Dimension::LeadTimeDays, 20.0 + f64::from(k), at(1)).unwrap();
    }
    book_claim(&mut book, &acme, Dimension::DefectRatePct, 1.5).unwrap();
    book_observe(&mut book, &borealis, Dimension::LeadTimeDays, 9.0, at(2)).unwrap();
    let stored: Vec<_> = book
        .iter()
        .into_iter()
        .map(|(who, dimension, known)| (who.clone(), dimension, *known))
        .collect();
    assert_eq!(stored.len(), 3);
    assert_eq!(ExpectationBook::restore(stored), book);
    assert_eq!(ExpectationBook::<f64>::restore(Vec::new()), ExpectationBook::new());
}
