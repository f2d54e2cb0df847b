use vstd::prelude::*;
use vstd::multiset::Multiset;
use rand::seq::SliceRandom;
use rand::SeedableRng;
use crate::card::{Card, Suit, Value, card_at, card_pos, lemma_card_at, lemma_card_pos};

verus! {

broadcast use vstd::seq_lib::group_to_multiset_ensures;

/// The cards not yet given to any hand or the board, each at most once.
#[derive(Clone, Debug)]
pub struct Deck {
    cards: Vec<Card>,
}

impl View for Deck {
    type V = Set<Card>;

    closed spec fn view(&self) -> Set<Card> {
        self.cards@.to_set()
    }
}

impl Deck {
    /// No card is held twice.
    pub closed spec fn wf(&self) -> bool {
        self.cards@.no_duplicates()
    }

    /// An empty deck.
    pub fn new() -> (r: Deck)
        ensures
            r@ == Set::<Card>::empty(),
            r.wf(),
    {
        let r = Deck { cards: Vec::new() };
        assert(r.cards@.to_set() =~= Set::<Card>::empty());
        r
    }

    /// The full deck of 52 cards.
    pub fn full() -> (r: Deck)
        ensures
            forall|c: Card| r@.contains(c),
            r@.len() == 52,
            r.wf(),
    {
        let mut cards: Vec<Card> = Vec::new();
        let mut k: u8 = 0;
        while k < 52
            invariant
                k <= 52,
                cards@ == Seq::new(k as nat, |j: int| card_at(j as nat)),
            decreases 52 - k,
        {
            let c = Card { value: Value::from_index(k / 4), suit: Suit::from_index(k % 4) };
            cards.push(c);
            k = k + 1;
            assert(cards@ =~= Seq::new(k as nat, |j: int| card_at(j as nat)));
        }
        proof {
            assert forall|i: int, j: int|
                0 <= i < cards@.len() && 0 <= j < cards@.len() && i != j implies cards@[i]
                != cards@[j] by {
                lemma_card_at(i as nat);
                lemma_card_at(j as nat);
            }
            assert forall|c: Card| cards@.to_set().contains(c) by {
                lemma_card_pos(c);
                assert(cards@[card_pos(c) as int] == c);
            }
            cards@.unique_seq_to_set();
        }
        Deck { cards }
    }

    /// Number of cards in the deck.
    pub fn len(&self) -> (r: usize)
        requires
            self.wf(),
        ensures
            r == self@.len(),
    {
        proof {
            self.cards@.unique_seq_to_set();
        }
        self.cards.len()
    }

    pub fn is_empty(&self) -> (r: bool)
        requires
            self.wf(),
        ensures
            r == (self@.len() == 0),
    {
        proof {
            self.cards@.unique_seq_to_set();
        }
        self.cards.len() == 0
    }

    fn position(&self, c: &Card) -> (r: Option<usize>)
        ensures
            r is Some <==> self.cards@.contains(*c),
            r matches Some(i) ==> i < self.cards@.len() && self.cards@[i as int] == *c,
    {
        let mut i: usize = 0;
        while i < self.cards.len()
            invariant
                i <= self.cards@.len(),
                forall|k: int| 0 <= k < i ==> self.cards@[k] != *c,
            decreases self.cards@.len() - i,
        {
            if self.cards[i] == *c {
                return Some(i);
            }
            i = i + 1;
        }
        None
    }

    pub fn contains(&self, c: &Card) -> (r: bool)
        ensures
            r == self@.contains(*c),
    {
        self.position(c).is_some()
    }

    /// Removes `c` if the deck holds it; returns whether it did.
    pub fn remove(&mut self, c: &Card) -> (r: bool)
        requires
            old(self).wf(),
        ensures
            final(self).wf(),
            r == old(self)@.contains(*c),
            final(self)@ == old(self)@.remove(*c),
            final(self)@.len() + (if r { 1int } else { 0int }) == old(self)@.len(),
    {
        proof {
            self.cards@.unique_seq_to_set();
        }
        match self.position(c) {
            Some(i) => {
                let ghost before = self.cards@;
                self.cards.remove(i);
                proof {
                    let after = self.cards@;
                    assert(after =~= before.remove(i as int));
                    assert forall|x: Card| after.contains(x) <==> before.contains(x) && x != *c by {
                        if before.contains(x) && x != *c {
                            let k = choose|k: int| 0 <= k < before.len() && before[k] == x;
                            if k < i {
                                assert(after[k] == x);
                            } else {
                                assert(after[k - 1] == x);
                            }
                        }
                    }
                    assert(after.to_set() =~= before.to_set().remove(*c));
                    after.unique_seq_to_set();
                }
                true
            },
            None => {
                assert(self.cards@.to_set().remove(*c) =~= self.cards@.to_set());
                false
            },
        }
    }

    /// Adds `c` unless the deck holds it already; returns whether it was added.
    pub fn insert(&mut self, c: Card) -> (r: bool)
        requires
            old(self).wf(),
        ensures
            final(self).wf(),
            r == !old(self)@.contains(c),
            final(self)@ == old(self)@.insert(c),
    {
        if self.contains(&c) {
            assert(self.cards@.to_set().insert(c) =~= self.cards@.to_set());
            false
        } else {
            let ghost before = self.cards@;
            self.cards.push(c);
            assert(self.cards@ =~= before.push(c));
            assert forall|x: Card| self.cards@.contains(x) <==> before.contains(x) || x == c by {
                if before.contains(x) {
                    let k = choose|k: int| 0 <= k < before.len() && before[k] == x;
                    assert(self.cards@[k] == x);
                }
                if x == c {
                    assert(self.cards@[before.len() as int] == x);
                }
            }
            assert(self.cards@.to_set() =~= before.to_set().insert(c));
            true
        }
    }
}

impl Default for Deck {
    /// The full deck of 52 cards.
    fn default() -> (r: Deck)
        ensures
            forall|c: Card| r@.contains(c),
            r@.len() == 52,
            r.wf(),
    {
        Deck::full()
    }
}

/// Relies on rand's `SliceRandom::shuffle`, which only swaps elements: the
/// cards end up in some order of the same cards.
#[verifier::external_body]
fn shuffle_cards(cards: &mut Vec<Card>)
    ensures
        final(cards)@.to_multiset() == old(cards)@.to_multiset(),
{
    cards.shuffle(&mut rand::thread_rng());
}

/// Relies on rand's `SliceRandom::choose_multiple`: it picks `min(n, len)`
/// distinct positions of the slice.
#[verifier::external_body]
fn choose_cards(cards: &Vec<Card>, n: usize) -> (r: Vec<Card>)
    ensures
        r@.len() == if n <= cards@.len() { n as nat } else { cards@.len() },
        r@.to_multiset().subset_of(cards@.to_multiset()),
{
    cards.choose_multiple(&mut rand::thread_rng(), n).cloned().collect()
}

/// Relies on rand's `SliceRandom::shuffle` driven by `StdRng::seed_from_u64(seed)`:
/// the same swaps-only shuffle, from a generator fixed by the seed.
#[verifier::external_body]
fn shuffle_cards_seeded(cards: &mut Vec<Card>, seed: u64)
    ensures
        final(cards)@.to_multiset() == old(cards)@.to_multiset(),
{
    cards.shuffle(&mut rand::rngs::StdRng::seed_from_u64(seed));
}

/// Relies on rand's `SliceRandom::choose_multiple` driven by
/// `StdRng::seed_from_u64(seed)`: `min(n, len)` distinct positions.
#[verifier::external_body]
fn choose_cards_seeded(cards: &Vec<Card>, n: usize, seed: u64) -> (r: Vec<Card>)
    ensures
        r@.len() == if n <= cards@.len() { n as nat } else { cards@.len() },
        r@.to_multiset().subset_of(cards@.to_multiset()),
{
    cards.choose_multiple(&mut rand::rngs::StdRng::seed_from_u64(seed), n).cloned().collect()
}

/// A deck laid out in an order, for random access, shuffling and dealing.
#[derive(Debug)]
pub struct FlatDeck {
    cards: Vec<Card>,
}

impl View for FlatDeck {
    type V = Seq<Card>;

    closed spec fn view(&self) -> Seq<Card> {
        self.cards@
    }
}

proof fn lemma_no_dup_sub(s: Seq<Card>, t: Seq<Card>)
    requires
        t.no_duplicates(),
        s.to_multiset().subset_of(t.to_multiset()),
    ensures
        s.no_duplicates(),
{
    t.lemma_multiset_has_no_duplicates();
    assert forall|x: Card| s.to_multiset().contains(x) implies s.to_multiset().count(x) == 1 by {
        assert(s.to_multiset().count(x) <= t.to_multiset().count(x));
        assert(t.to_multiset().count(x) > 0);
        assert(t.contains(x));
    }
    s.lemma_multiset_has_no_duplicates_conv();
}

impl FlatDeck {
    /// No card is held twice.
    pub closed spec fn wf(&self) -> bool {
        self.cards@.no_duplicates()
    }

    /// The cards of `deck`, laid out in some order.
    pub fn from_deck(deck: &Deck) -> (r: FlatDeck)
        ensures
            r@.to_set() == deck@,
            deck.wf() ==> r.wf() && r@.len() == deck@.len(),
    {
        proof {
            if deck.wf() {
                deck.cards@.unique_seq_to_set();
            }
        }
        let mut cards: Vec<Card> = Vec::new();
        let mut i: usize = 0;
        while i < deck.cards.len()
            invariant
                i <= deck.cards@.len(),
                cards@ == deck.cards@.subrange(0, i as int),
            decreases deck.cards@.len() - i,
        {
            cards.push(deck.cards[i]);
            i = i + 1;
            assert(cards@ =~= deck.cards@.subrange(0, i as int));
        }
        assert(cards@ =~= deck.cards@);
        FlatDeck { cards }
    }

    pub fn len(&self) -> (r: usize)
        ensures
            r == self@.len(),
    {
        self.cards.len()
    }

    pub fn is_empty(&self) -> (r: bool)
        ensures
            r == (self@.len() == 0),
    {
        self.cards.len() == 0
    }

    /// The card at `index`, if there is one.
    pub fn get(&self, index: usize) -> (r: Option<Card>)
        ensures
            r is Some <==> index < self@.len(),
            r matches Some(c) ==> c == self@[index as int],
    {
        if index < self.cards.len() {
            Some(self.cards[index])
        } else {
            None
        }
    }

    /// The cards in their current order.
    pub fn as_slice(&self) -> (r: &[Card])
        ensures
            r@ == self@,
    {
        self.cards.as_slice()
    }

    /// `n` distinct cards of the deck chosen at random (all of them if it has
    /// fewer); the deck is left as it is.
    pub fn sample(&self, n: usize) -> (r: Vec<Card>)
        requires
            self.wf(),
        ensures
            r@.len() == if n <= self@.len() { n as nat } else { self@.len() },
            r@.to_multiset().subset_of(self@.to_multiset()),
            r@.no_duplicates(),
            forall|c: Card| r@.contains(c) ==> self@.contains(c),
    {
        let r = choose_cards(&self.cards, n);
        proof {
            self.lemma_sample_facts(r@);
        }
        r
    }

    proof fn lemma_sample_facts(&self, r: Seq<Card>)
        requires
            self.wf(),
            r.to_multiset().subset_of(self@.to_multiset()),
        ensures
            r.no_duplicates(),
            forall|c: Card| r.contains(c) ==> self@.contains(c),
    {
        lemma_no_dup_sub(r, self.cards@);
        assert forall|c: Card| r.contains(c) implies self@.contains(c) by {
            assert(r.to_multiset().count(c) <= self.cards@.to_multiset().count(c));
        }
    }

    /// Like `sample`, with the random choice fixed by `seed`.
    pub fn sample_seeded(&self, n: usize, seed: u64) -> (r: Vec<Card>)
        requires
            self.wf(),
        ensures
            r@.len() == if n <= self@.len() { n as nat } else { self@.len() },
            r@.to_multiset().subset_of(self@.to_multiset()),
            r@.no_duplicates(),
            forall|c: Card| r@.contains(c) ==> self@.contains(c),
    {
        let r = choose_cards_seeded(&self.cards, n, seed);
        proof {
            self.lemma_sample_facts(r@);
        }
        r
    }

    /// Like `shuffle`, with the random order fixed by `seed`.
    pub fn shuffle_seeded(&mut self, seed: u64)
        requires
            old(self).wf(),
        ensures
            final(self).wf(),
            final(self)@.to_multiset() == old(self)@.to_multiset(),
            final(self)@.len() == old(self)@.len(),
    {
        let ghost before = self.cards@;
        shuffle_cards_seeded(&mut self.cards, seed);
        proof {
            assert(self.cards@.to_multiset().subset_of(before.to_multiset()));
            assert(self.cards@.to_multiset().len() == self.cards@.len());
            assert(before.to_multiset().len() == before.len());
            lemma_no_dup_sub(self.cards@, before);
        }
    }

    /// Puts the cards in a random order; the cards held stay the same.
    pub fn shuffle(&mut self)
        requires
            old(self).wf(),
        ensures
            final(self).wf(),
            final(self)@.to_multiset() == old(self)@.to_multiset(),
            final(self)@.len() == old(self)@.len(),
    {
        let ghost before = self.cards@;
        shuffle_cards(&mut self.cards);
        proof {
            assert(self.cards@.to_multiset().subset_of(before.to_multiset()));
            assert(self.cards@.to_multiset().len() == self.cards@.len());
            assert(before.to_multiset().len() == before.len());
            lemma_no_dup_sub(self.cards@, before);
        }
    }

    /// Removes and returns the last card, or `None` when the deck is empty.
    pub fn deal(&mut self) -> (r: Option<Card>)
        requires
            old(self).wf(),
        ensures
            final(self).wf(),
            old(self)@.len() == 0 ==> r is None && final(self)@ == old(self)@,
            old(self)@.len() > 0 ==> r == Some(old(self)@.last()) && final(self)@ == old(
                self,
            )@.drop_last(),
    {
        let ghost before = self.cards@;
        let r = self.cards.pop();
        proof {
            if before.len() > 0 {
                assert(self.cards@ =~= before.drop_last());
            }
        }
        r
    }
}

/// A deck that can be laid out as a `FlatDeck`.
pub trait Flattenable {
    /// The cards that the laid-out deck holds.
    spec fn flat_cards(&self) -> Set<Card>;

    /// The deck is well formed, so that it can be laid out.
    spec fn flat_wf(&self) -> bool;

    /// Lays the deck out; every card of it appears exactly once.
    fn flatten(self) -> (r: FlatDeck)
        requires
            self.flat_wf(),
        ensures
            r.wf(),
            r@.to_set() == self.flat_cards(),
            r@.len() == self.flat_cards().len(),
    ;
}

impl Flattenable for Deck {
    open spec fn flat_cards(&self) -> Set<Card> {
        self@
    }

    open spec fn flat_wf(&self) -> bool {
        self.wf()
    }

    fn flatten(self) -> (r: FlatDeck) {
        FlatDeck::from_deck(&self)
    }
}

impl From<Deck> for FlatDeck {
    /// Lays the deck out, keeping its cards in their current order.
    fn from(deck: Deck) -> (r: FlatDeck) {
        FlatDeck { cards: deck.cards }
    }
}

impl vstd::std_specs::convert::FromSpecImpl<Deck> for FlatDeck {
    open spec fn obeys_from_spec() -> bool {
        true
    }

    closed spec fn from_spec(deck: Deck) -> FlatDeck {
        FlatDeck { cards: deck.cards }
    }
}

impl FlatDeck {
    /// What `FlatDeck::from` makes of a well-formed deck: a well-formed flat
    /// deck holding exactly its cards, each once.
    pub proof fn lemma_from_deck(deck: Deck)
        requires
            deck.wf(),
        ensures
            <FlatDeck as vstd::std_specs::convert::FromSpec<Deck>>::from_spec(deck).wf(),
            <FlatDeck as vstd::std_specs::convert::FromSpec<Deck>>::from_spec(deck)@.to_set() == deck@,
            <FlatDeck as vstd::std_specs::convert::FromSpec<Deck>>::from_spec(deck)@.len() == deck@.len(),
    {
        deck.cards@.unique_seq_to_set();
    }
}

} // verus!
