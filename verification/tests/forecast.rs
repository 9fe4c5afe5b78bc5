use agentos_domain::forecast::rate_card;
use agentos_domain::policy::ModelId;

#[test]
fn the_rate_card_is_the_published_one() {
    assert_eq!(rate_card(ModelId::Haiku45), (1, 5));
    assert_eq!(rate_card(ModelId::Sonnet5), (3, 15));
    assert_eq!(rate_card(ModelId::Opus5), (5, 25));
    assert_eq!(rate_card(ModelId::Fable5), (10, 50));
    for pair in ModelId::ALL.windows(2) {
        assert!(rate_card(pair[0]) < rate_card(pair[1]));
    }
}
