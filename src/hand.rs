use vstd::prelude::*;
use crate::card::{Card, Suit, Value, suit_chars, value_chars};
use crate::rank::{Rank, best_rank, is_best, rank_best};

verus! {

/// An ordered collection of cards held by one player, or the board.
#[derive(Clone, Debug)]
pub struct Hand {
    cards: Vec<Card>,
}

impl View for Hand {
    type V = Seq<Card>;

    closed spec fn view(&self) -> Seq<Card> {
        self.cards@
    }
}

/// The two characters that write a card: value, then suit.
pub open spec fn card_text(c: Card) -> Seq<char> {
    seq![value_chars()[c.value.idx() as int], suit_chars()[c.suit.idx() as int]]
}

/// `s` is a sequence of two-character cards.
pub open spec fn is_hand_text(s: Seq<char>) -> bool {
    &&& s.len() % 2 == 0
    &&& forall|i: int|
        0 <= i < s.len() / 2 ==> value_chars().contains(#[trigger] s[2 * i]) && suit_chars().contains(
            s[2 * i + 1],
        )
}

impl Hand {
    pub fn new() -> (r: Hand)
        ensures
            r@ == Seq::<Card>::empty(),
    {
        Hand { cards: Vec::new() }
    }

    pub fn new_with_cards(cards: Vec<Card>) -> (r: Hand)
        ensures
            r@ == cards@,
    {
        Hand { cards }
    }

    /// Reads cards written as value then suit characters, such as `"AdKh"`.
    pub fn new_from_str(s: &str) -> (r: Option<Hand>)
        ensures
            r is Some <==> is_hand_text(s@),
            r matches Some(h) ==> 2 * h@.len() == s@.len() && forall|i: int|
                0 <= i < h@.len() ==> card_text(#[trigger] h@[i]) == s@.subrange(2 * i, 2 * i + 2),
    {
        let n = s.unicode_len();
        if n % 2 != 0 {
            return None;
        }
        let mut cards: Vec<Card> = Vec::new();
        let mut i: usize = 0;
        while i < n / 2
            invariant
                n == s@.len(),
                n % 2 == 0,
                i <= n / 2,
                cards@.len() == i,
                forall|k: int|
                    0 <= k < i ==> value_chars().contains(#[trigger] s@[2 * k]) && suit_chars().contains(
                        s@[2 * k + 1],
                    ),
                forall|k: int| 0 <= k < i ==> card_text(#[trigger] cards@[k]) == s@.subrange(2 * k, 2 * k + 2),
            decreases n / 2 - i,
        {
            let vc = s.get_char(2 * i);
            let sc = s.get_char(2 * i + 1);
            let v = Value::from_char(vc);
            let u = Suit::from_char(sc);
            match (v, u) {
                (Some(v), Some(u)) => {
                    let c = Card { value: v, suit: u };
                    assert(card_text(c) =~= s@.subrange(2 * i as int, 2 * i + 2));
                    cards.push(c);
                },
                _ => {
                    return None;
                },
            }
            i = i + 1;
        }
        assert(is_hand_text(s@)) by {
            assert forall|k: int| 0 <= k < s@.len() / 2 implies value_chars().contains(
                #[trigger] s@[2 * k],
            ) && suit_chars().contains(s@[2 * k + 1]) by {
                assert(k < i);
            }
        }
        Some(Hand { cards })
    }

    pub fn push(&mut self, c: Card)
        ensures
            final(self)@ == old(self)@.push(c),
    {
        self.cards.push(c);
    }

    pub fn len(&self) -> (r: usize)
        ensures
            r == self@.len(),
    {
        self.cards.len()
    }

    pub fn is_empty(&self) -> (r: bool)
        ensures
            r == (self@.len() == 0),
    {
        self.cards.len() == 0
    }

    pub fn get_cards(&self) -> (r: &[Card])
        ensures
            r@ == self@,
    {
        self.cards.as_slice()
    }

    /// The card at `index`, if there is one.
    pub fn get(&self, index: usize) -> (r: Option<Card>)
        ensures
            r is Some <==> index < self@.len(),
            r matches Some(c) ==> c == self@[index as int],
    {
        if index < self.cards.len() {
            Some(self.cards[index])
        } else {
            None
        }
    }

    /// The best rank of any five of the hand's 5 to 7 cards.
    pub fn rank(&self) -> (r: Rank)
        requires
            5 <= self@.len() <= 7,
        ensures
            is_best(self@, r),
            r == best_rank(self@),
    {
        rank_best(&self.cards)
    }
}

} // verus!
