use rs_poker::card::{Card, Suit, Value};
use rs_poker::deck::{Deck, FlatDeck, Flattenable};
use std::collections::HashSet;

#[test]
fn default_deck_has_52_distinct_cards() {
    let d = Deck::default();
    assert_eq!(d.len(), 52);
    let flat = d.flatten();
    let set: HashSet<Card> = flat.as_slice().iter().cloned().collect();
    assert_eq!(set.len(), 52);
}

#[test]
fn remove_decreases_size_once() {
    let mut d = Deck::default();
    let c = Card::new(Value::Ace, Suit::Spade);
    assert!(d.contains(&c));
    assert!(d.remove(&c));
    assert_eq!(d.len(), 51);
    assert!(!d.contains(&c));
    assert!(!d.remove(&c));
    assert_eq!(d.len(), 51);
    assert!(d.insert(c));
    assert!(!d.insert(c));
    assert_eq!(d.len(), 52);
}

#[test]
fn flatten_keeps_cards() {
    let mut d = Deck::default();
    d.remove(&Card::new(Value::Two, Suit::Club));
    d.remove(&Card::new(Value::Three, Suit::Heart));
    let expected: HashSet<Card> = Deck::default()
        .flatten()
        .as_slice()
        .iter()
        .cloned()
        .filter(|c| *c != Card::new(Value::Two, Suit::Club) && *c != Card::new(Value::Three, Suit::Heart))
        .collect();
    let flat = FlatDeck::from_deck(&d);
    assert_eq!(flat.len(), 50);
    let got: HashSet<Card> = flat.as_slice().iter().cloned().collect();
    assert_eq!(got, expected);
}

#[test]
fn sample_leaves_deck_alone() {
    let flat = Deck::default().flatten();
    let before = flat.as_slice().to_vec();
    let mut differs = false;
    let first = flat.sample(5);
    for _ in 0..50 {
        let s = flat.sample(5);
        assert_eq!(s.len(), 5);
        let set: HashSet<Card> = s.iter().cloned().collect();
        assert_eq!(set.len(), 5);
        for c in &s {
            assert!(before.contains(c));
        }
        differs |= s != first;
    }
    assert!(differs);
    assert_eq!(flat.as_slice(), &before[..]);
    assert_eq!(flat.sample(60).len(), 52);
}

#[test]
fn shuffle_keeps_membership() {
    let mut flat = Deck::default().flatten();
    let mut before = flat.as_slice().to_vec();
    flat.shuffle();
    let mut after = flat.as_slice().to_vec();
    assert_eq!(after.len(), 52);
    before.sort();
    after.sort();
    assert_eq!(before, after);
}

#[test]
fn deal_takes_last_card_and_signals_empty() {
    let mut flat = Deck::default().flatten();
    let last = flat.get(51).unwrap();
    assert_eq!(flat.deal(), Some(last));
    assert_eq!(flat.len(), 51);
    let mut empty = Deck::new().flatten();
    assert!(empty.is_empty());
    assert_eq!(empty.deal(), None);
    assert_eq!(empty.get(0), None);
}

#[test]
fn seeded_draws_repeat() {
    let flat = Deck::default().flatten();
    let a = flat.sample_seeded(7, 42);
    let b = flat.sample_seeded(7, 42);
    assert_eq!(a, b);
    assert_eq!(a.len(), 7);
    let set: HashSet<Card> = a.iter().cloned().collect();
    assert_eq!(set.len(), 7);
    let mut x = Deck::default().flatten();
    let mut y = Deck::default().flatten();
    let original = x.as_slice().to_vec();
    x.shuffle_seeded(9);
    y.shuffle_seeded(9);
    assert_eq!(x.as_slice(), y.as_slice());
    assert_ne!(x.as_slice(), &original[..]);
    let mut sorted = x.as_slice().to_vec();
    sorted.sort();
    let mut orig_sorted = original.clone();
    orig_sorted.sort();
    assert_eq!(sorted, orig_sorted);
}

#[test]
fn shuffle_changes_order() {
    let mut flat = Deck::default().flatten();
    let before = flat.as_slice().to_vec();
    let mut changed = false;
    for _ in 0..5 {
        flat.shuffle();
        changed |= flat.as_slice() != &before[..];
    }
    assert!(changed);
}

#[test]
fn flattened_full_deck_deals_every_card_once() {
    let mut fd = Deck::default().flatten();
    assert!(!fd.is_empty());
    let mut seen: HashSet<Card> = HashSet::new();
    for _ in 0..52 {
        let c = fd.deal().expect("a card is left");
        assert!(seen.insert(c));
    }
    assert_eq!(seen.len(), 52);
    assert!(fd.is_empty());
    assert_eq!(fd.deal(), None);
}

#[test]
fn from_deck_conversion_keeps_cards() {
    let mut d = Deck::default();
    d.remove(&Card::new(Value::Ace, Suit::Diamond));
    d.remove(&Card::new(Value::Ace, Suit::Diamond));
    let fd = FlatDeck::from(d.clone());
    assert_eq!(fd.len(), 51);
    assert!(!fd.as_slice().contains(&Card::new(Value::Ace, Suit::Diamond)));
    let via_into: FlatDeck = d.into();
    assert_eq!(via_into.as_slice(), fd.as_slice());
}
