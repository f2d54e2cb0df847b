use rs_poker::card::{Card, Suit, Value};
use rs_poker::game::{MonteCarloGame, SimulationError, ValidationError};
use rs_poker::hand::Hand;
use rs_poker::rank::Rank;

fn hands(v: &[&str]) -> Vec<Hand> {
    v.iter().map(|s| Hand::new_from_str(s).unwrap()).collect()
}

fn cards(s: &str) -> Vec<Card> {
    Hand::new_from_str(s).unwrap().get_cards().to_vec()
}

#[test]
fn shared_card_is_rejected() {
    let r = MonteCarloGame::new_with_hands(hands(&["AdAh", "AdKs"]));
    assert_eq!(r.err(), Some(ValidationError::DuplicateCard));
    let r = MonteCarloGame::new_with_hands(hands(&["AdAd"]));
    assert_eq!(r.err(), Some(ValidationError::DuplicateCard));
    let r = MonteCarloGame::new_with_hands(hands(&["AdAhKs"]));
    assert_eq!(r.err(), Some(ValidationError::TooManyHoleCards));
}

#[test]
fn disjoint_hands_shrink_deck() {
    let g = MonteCarloGame::new_with_hands(hands(&["AdAh", "2c2s"])).unwrap();
    assert_eq!(g.deck_len(), 48);
    assert_eq!(g.num_hands(), 2);
    let g = MonteCarloGame::new_with_hands(hands(&["AdAh", "2c2s", "Kd"])).unwrap();
    assert_eq!(g.deck_len(), 47);
}

#[test]
fn board_validation() {
    let mut g = MonteCarloGame::new_with_hands(hands(&["AdAh", "2c2s"])).unwrap();
    assert_eq!(g.set_board(&cards("Ad")), Err(ValidationError::DuplicateCard));
    assert_eq!(g.set_board(&cards("KdKd")), Err(ValidationError::DuplicateCard));
    assert_eq!(g.set_board(&cards("3c4c5c6c7c8c")), Err(ValidationError::BoardOverflow));
    assert_eq!(g.deck_len(), 48);
    assert_eq!(g.set_board(&cards("3c4c5c")), Ok(()));
    assert_eq!(g.deck_len(), 45);
    assert_eq!(g.get_board(), &cards("3c4c5c")[..]);
    assert_eq!(g.set_board(&cards("3c")), Err(ValidationError::DuplicateCard));
    assert_eq!(g.set_board(&cards("6d7d8d")), Err(ValidationError::BoardOverflow));
    assert_eq!(g.set_board(&cards("6d7d")), Ok(()));
    assert_eq!(g.deck_len(), 43);
}

#[test]
fn simulate_errors() {
    let mut g = MonteCarloGame::new_with_hands(vec![]).unwrap();
    assert_eq!(g.simulate().err(), Some(SimulationError::NoHands));
    let mut all: Vec<Hand> = Vec::new();
    let deck: Vec<Card> = rs_poker::deck::FlatDeck::from_deck(&rs_poker::deck::Deck::default())
        .as_slice()
        .to_vec();
    for k in 0..24 {
        all.push(Hand::new_with_cards(vec![deck[2 * k], deck[2 * k + 1]]));
    }
    let mut g = MonteCarloGame::new_with_hands(all).unwrap();
    assert_eq!(g.deck_len(), 4);
    assert_eq!(g.simulate().err(), Some(SimulationError::DeckExhausted));
}

#[test]
fn showdown_with_given_board() {
    let mut g = MonteCarloGame::new_with_hands(hands(&["AdAh", "2c2s", "KdKh"])).unwrap();
    g.set_board(&cards("2d7h9c")).unwrap();
    let (w, r) = g.showdown(&cards("JsQs"));
    assert_eq!(w, 1);
    assert!(matches!(r, Rank::ThreeOfAKind(_)));
    let (w, r) = g.showdown(&cards("AcAs"));
    assert_eq!(w, 0);
    assert!(matches!(r, Rank::FourOfAKind(_)));
    // Ties report the first hand.
    let mut g = MonteCarloGame::new_with_hands(hands(&["2c3d", "2d3c"])).unwrap();
    g.set_board(&cards("AsKsQsJsTs")).unwrap();
    assert_eq!(g.simulate(), Ok((0, Rank::StraightFlush(12))));
}

#[test]
fn simulate_and_reset_keep_configuration() {
    let mut g = MonteCarloGame::new_with_hands(hands(&["AdAh", "2c2s"])).unwrap();
    g.set_board(&cards("Kc")).unwrap();
    let board = g.get_board().to_vec();
    let len = g.deck_len();
    for _ in 0..200 {
        let (w, _) = g.simulate().unwrap();
        assert!(w < 2);
        let drawn = g.get_drawn().to_vec();
        assert_eq!(drawn.len(), 4);
        for c in &drawn {
            assert!(!board.contains(c));
            assert!(!cards("AdAh2c2s").contains(c));
        }
        g.reset();
        assert_eq!(g.get_board(), &board[..]);
        assert_eq!(g.deck_len(), len);
        assert!(g.get_drawn().is_empty());
    }
}

#[test]
fn aces_beat_deuces_most_of_the_time() {
    let mut g = MonteCarloGame::new_with_hands(hands(&["AdAh", "2c2s"])).unwrap();
    let mut wins = [0usize; 2];
    for _ in 0..10_000 {
        let (w, _) = g.simulate().unwrap();
        wins[w] += 1;
        g.reset();
    }
    assert!(wins[0] > 7_500, "aces won {}", wins[0]);
    assert!(wins[0] < 9_700, "aces won {}", wins[0]);
    let _ = Card::new(Value::Two, Suit::Club);
}

#[test]
fn seeded_trials_repeat() {
    let mut g = MonteCarloGame::new_with_hands(hands(&["AdAh", "2c2s", "7h8h"])).unwrap();
    let first = g.simulate_seeded(1234).unwrap();
    let drawn = g.get_drawn().to_vec();
    g.reset();
    let second = g.simulate_seeded(1234).unwrap();
    assert_eq!(first, second);
    assert_eq!(drawn, g.get_drawn().to_vec());
    assert_eq!(drawn.len(), 5);
}
