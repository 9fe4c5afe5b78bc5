use agentos_domain::model_access::{ModelAccess, ModelPath, Verdict};
use agentos_domain::ordered::OrdSet;
use agentos_domain::policy::{EffectivePolicy, ModelId, PolicyLimits, model_for};
use agentos_domain::time::Timestamp;
use std::collections::BTreeSet;

#[test]
fn a_path_round_trips_through_its_column_and_an_unknown_one_is_refused() {
    for path in ModelPath::ALL {
        assert_eq!(ModelPath::parse(path.as_str()), Some(path));
    }
    assert_eq!(ModelPath::ApiKey.as_str(), "api_key");
    assert_eq!(ModelPath::Cli.as_str(), "cli");
    assert_eq!(ModelPath::parse("bedrock"), None);
    assert_eq!(ModelPath::parse(""), None);

    assert!(ModelPath::Cli.is_host());
    assert!(!ModelPath::ApiKey.is_host());
    assert!(ModelPath::ApiKey.needs_secret());
    assert!(!ModelPath::Cli.needs_secret());
}

#[test]
fn every_provider_code_lands_somewhere_and_only_a_success_connects() {
    for (code, expected) in [
        ("unauthorized", Verdict::KeyRefused),
        ("forbidden", Verdict::KeyRefused),
        ("not_found", Verdict::ModelNotAccessible),
        ("retryable", Verdict::Unreachable),
        ("rate_limited", Verdict::Unreachable),
        ("timeout", Verdict::Unusable),
        ("bad_request", Verdict::Unusable),
        ("invalid_response", Verdict::Unusable),
        ("something_new", Verdict::Unusable),
    ] {
        assert_eq!(Verdict::from_provider_code(code), expected, "{code}");
        assert!(!Verdict::from_provider_code(code).is_connected());
    }

    let codes: BTreeSet<&str> = [
        Verdict::Connected,
        Verdict::KeyRefused,
        Verdict::ModelNotAccessible,
        Verdict::Unusable,
        Verdict::Unreachable,
    ]
    .into_iter()
    .map(Verdict::code)
    .collect();
    assert_eq!(codes.len(), 5);
    for verdict in [
        Verdict::KeyRefused,
        Verdict::ModelNotAccessible,
        Verdict::Unusable,
        Verdict::Unreachable,
    ] {
        assert!(
            verdict.explain().contains("Nothing was stored"),
            "{}",
            verdict.code()
        );
    }
}

#[test]
fn a_connection_naming_a_model_does_not_put_it_in_the_allowlist() {
    let connected = ModelAccess {
        path: ModelPath::ApiKey,
        model: ModelId::Fable5,
        verified_at: Timestamp::from_parts(1_700_000_000, 0).unwrap(),
    };

    let ceiling = PolicyLimits {
        allowed_models: OrdSet::from_vec(vec![ModelId::Haiku45]),
        ..PolicyLimits::default()
    };
    let policy =
        EffectivePolicy::try_new(&ceiling, &ceiling, &ceiling, &ceiling).expect("coherent");

    assert_eq!(policy.limits().allowed_models.len(), 1);
    assert!(!policy.limits().allowed_models.contains(&connected.model));
    assert_eq!(
        model_for(Some(&policy), connected.model),
        Some(ModelId::Haiku45)
    );

    let nothing = EffectivePolicy::try_new(&PolicyLimits::default(), &ceiling, &ceiling, &ceiling)
        .expect("coherent");
    assert_eq!(model_for(Some(&nothing), connected.model), None);
}
