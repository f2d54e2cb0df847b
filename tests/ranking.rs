use rs_poker::card::{Card, Suit, Value};
use rs_poker::hand::Hand;
use rs_poker::rank::{rank_five, Rank};

fn hand(s: &str) -> Hand {
    Hand::new_from_str(s).expect("valid hand text")
}

fn rank(s: &str) -> Rank {
    hand(s).rank()
}

#[test]
fn category_order_matches_poker_strength() {
    let examples = [
        "2c7d9hJsKc", // high card
        "2c2d9hJsKc", // one pair
        "2c2d9h9sKc", // two pair
        "2c2d2hJsKc", // three of a kind
        "2c3d4h5s6c", // straight
        "2c7c9cJcKc", // flush
        "AcAdAhKcKd", // full house
        "2c2s2h2d3c", // four of a kind
        "2c3c4c5c6c", // straight flush
    ];
    for i in 0..examples.len() {
        for j in (i + 1)..examples.len() {
            assert!(rank(examples[i]) < rank(examples[j]), "{} vs {}", examples[i], examples[j]);
        }
    }
    assert!(matches!(rank("2c2s2h2d3c"), Rank::FourOfAKind(_)));
    assert!(matches!(rank("AcAdAhKcKd"), Rank::FullHouse(_)));
    assert!(matches!(rank("2c3c4c5c6c"), Rank::StraightFlush(_)));
}

#[test]
fn exact_keys() {
    assert_eq!(rank("AcKdQhJs9c"), Rank::HighCard(7808));
    assert_eq!(rank("2c2dAhKsQc"), Rank::OnePair(8192 + 7168));
    assert_eq!(rank("Ac2d3h4s5c"), Rank::Straight(3));
    assert_eq!(rank("2c3d4h5s6c"), Rank::Straight(4));
    assert_eq!(rank("TcJdQhKsAc"), Rank::Straight(12));
    assert_eq!(rank("Ac2c3c4c5c"), Rank::StraightFlush(3));
    assert_eq!(rank("AcKcQcJcTc2d3d"), Rank::StraightFlush(12));
}

#[test]
fn kickers_break_ties() {
    assert!(rank("AcAdKhQsJc") > rank("AhAsKdQcTc"));
    assert!(rank("KcKdQhQs2c") > rank("KhKsJdJc2d"));
    assert!(rank("KcKdQhQs3c") > rank("KhKsQdQc2d"));
    assert!(rank("3c3d3h2s2c") < rank("4c4d4h2d2h"));
    assert_eq!(rank("AcKdQhJs9c"), rank("AdKhQsJc9d"));
}

#[test]
fn wheel_between_six_high_straight_and_high_card() {
    let wheel = rank("Ac2d3h4s5c");
    assert!(wheel < rank("2c3d4h5s6c"));
    assert!(wheel > rank("AcKdQhJs9c"));
    assert!(rank("Ac2c3c4c5c") < rank("2h3h4h5h6h"));
}

#[test]
fn five_card_order_does_not_matter() {
    let cards = hand("9sTcJdQhKs").get_cards().to_vec();
    let base = rank_five(&cards);
    let mut perm = cards.clone();
    for k in 0..20 {
        perm.rotate_left(1);
        perm.swap(k % 5, (k * 3 + 1) % 5);
        assert_eq!(rank_five(&perm), base);
    }
    assert_eq!(base, Rank::Straight(11));
}

#[test]
fn seven_card_rank_dominates_every_subset() {
    let h = hand("AsKsQs2s2c2h7s");
    let cards = h.get_cards().to_vec();
    let best = h.rank();
    let mut seen = false;
    for a in 0..7 {
        for b in (a + 1)..7 {
            for c in (b + 1)..7 {
                for d in (c + 1)..7 {
                    for e in (d + 1)..7 {
                        let sub = vec![cards[a], cards[b], cards[c], cards[d], cards[e]];
                        let r = rank_five(&sub);
                        assert!(r <= best);
                        seen |= r == best;
                    }
                }
            }
        }
    }
    assert!(seen);
    assert!(matches!(best, Rank::Flush(_)));
}

#[test]
fn six_cards_pick_best_five() {
    assert!(matches!(rank("2c3d4h5s6c6d"), Rank::Straight(4)));
    assert!(matches!(rank("2c2d2h5s5c9d"), Rank::FullHouse(_)));
}

#[test]
fn card_text() {
    assert_eq!(Value::Ten.to_char(), 'T');
    assert_eq!(Value::Two.to_char(), '2');
    assert_eq!(Value::Ace.to_char(), 'A');
    assert_eq!(Suit::Diamond.to_char(), 'd');
    assert_eq!(Suit::Spade.to_char(), 's');
    assert_eq!(Value::from_char('Q'), Some(Value::Queen));
    assert_eq!(Value::from_char('x'), None);
    assert_eq!(Suit::from_char('h'), Some(Suit::Heart));
    assert_eq!(Suit::from_char('z'), None);
    let h = hand("AdKh");
    assert_eq!(h.get(0), Some(Card::new(Value::Ace, Suit::Diamond)));
    assert_eq!(h.get(1), Some(Card::new(Value::King, Suit::Heart)));
    assert_eq!(h.get(2), None);
    assert!(Hand::new_from_str("AdK").is_none());
    assert!(Hand::new_from_str("AdKx").is_none());
    assert!(Hand::new_from_str("").unwrap().is_empty());
}

#[test]
fn seven_card_order_does_not_matter() {
    let cards = hand("Ks2h9sTsJd2dQs").get_cards().to_vec();
    let base = Hand::new_with_cards(cards.clone()).rank();
    let mut perm = cards.clone();
    for k in 0..30 {
        perm.swap(k % 6, k % 6 + 1);
        perm.rotate_right(k % 4);
        assert_eq!(Hand::new_with_cards(perm.clone()).rank(), base);
    }
    assert_eq!(base, Rank::Straight(11));
}
