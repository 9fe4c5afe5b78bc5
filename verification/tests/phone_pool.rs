use agentos_domain::phone_pool::NumberStrategy;

#[test]
fn strategy_round_trips() {
    for s in [NumberStrategy::Dedicated, NumberStrategy::Pooled] {
        assert_eq!(NumberStrategy::parse(s.as_str()), Some(s));
    }
    assert_eq!(NumberStrategy::parse("shared"), None);
}
