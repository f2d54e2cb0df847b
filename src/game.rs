use vstd::prelude::*;
use crate::card::Card;
use crate::deck::{Deck, FlatDeck};
use crate::hand::Hand;
use crate::rank::{Rank, best_rank, rank_best};

verus! {

broadcast use vstd::seq_lib::group_to_multiset_ensures;

/// A configuration that cannot be played.
#[derive(Clone, Copy, Debug, PartialEq, Eq, Structural)]
pub enum ValidationError {
    /// A card is held twice: by two hands, or by a hand and the board.
    DuplicateCard,
    /// The board would hold more than five cards.
    BoardOverflow,
    /// A hand holds more than two hole cards.
    TooManyHoleCards,
}

/// A trial that cannot be run.
#[derive(Clone, Copy, Debug, PartialEq, Eq, Structural)]
pub enum SimulationError {
    /// There is no hand to rank.
    NoHands,
    /// Fewer cards are left than the board needs.
    DeckExhausted,
}

/// The cards of all hands, one hand after the other.
pub open spec fn all_cards(hs: Seq<Seq<Card>>) -> Seq<Card>
    decreases hs.len(),
{
    if hs.len() == 0 {
        Seq::empty()
    } else {
        all_cards(hs.drop_last()) + hs.last()
    }
}

/// The rank of each hand together with a complete board.
pub open spec fn showdown_ranks(hs: Seq<Seq<Card>>, board: Seq<Card>) -> Seq<Rank> {
    Seq::new(hs.len(), |i: int| best_rank(hs[i] + board))
}

/// `w` is the first index whose rank `r` is the highest of `ranks`.
pub open spec fn first_best(ranks: Seq<Rank>, w: int, r: Rank) -> bool {
    &&& 0 <= w < ranks.len()
    &&& ranks[w] == r
    &&& forall|j: int| 0 <= j < ranks.len() ==> #[trigger] ranks[j].score() <= r.score()
    &&& forall|j: int| 0 <= j < w ==> #[trigger] ranks[j].score() < r.score()
}

/// Every one of the 52 cards but those in `held`.
pub open spec fn all_but(held: Set<Card>) -> Set<Card> {
    Set::new(|c: Card| !held.contains(c))
}

proof fn lemma_concat_to_set(a: Seq<Card>, b: Seq<Card>)
    ensures
        (a + b).to_set() == a.to_set().union(b.to_set()),
{
    assert forall|x: Card| (a + b).to_set().contains(x) == a.to_set().union(b.to_set()).contains(
        x,
    ) by {
        if a.contains(x) {
            let k = choose|k: int| 0 <= k < a.len() && a[k] == x;
            assert((a + b)[k] == x);
        }
        if b.contains(x) {
            let k = choose|k: int| 0 <= k < b.len() && b[k] == x;
            assert((a + b)[a.len() + k] == x);
        }
        if (a + b).contains(x) {
            let k = choose|k: int| 0 <= k < a.len() + b.len() && (a + b)[k] == x;
            if k < a.len() {
                assert(a[k] == x);
            } else {
                assert(b[k - a.len()] == x);
            }
        }
    }
    assert((a + b).to_set() =~= a.to_set().union(b.to_set()));
}

proof fn lemma_push_to_set(s: Seq<Card>, c: Card)
    ensures
        s.push(c).to_set() == s.to_set().insert(c),
{
    assert forall|x: Card| s.push(c).to_set().contains(x) == s.to_set().insert(c).contains(x) by {
        if s.contains(x) {
            let k = choose|k: int| 0 <= k < s.len() && s[k] == x;
            assert(s.push(c)[k] == x);
        }
        if x == c {
            assert(s.push(c)[s.len() as int] == x);
        }
        if s.push(c).contains(x) {
            let k = choose|k: int| 0 <= k < s.len() + 1 && s.push(c)[k] == x;
            if k < s.len() {
                assert(s[k] == x);
            }
        }
    }
    assert(s.push(c).to_set() =~= s.to_set().insert(c));
}

/// No two of `cards` are the same, and the deck holds each of them.
fn all_fresh(deck: &Deck, cards: &[Card]) -> (r: bool)
    requires
        deck.wf(),
    ensures
        r == (cards@.no_duplicates() && forall|c: Card| #[trigger] cards@.contains(c) ==> deck@.contains(c)),
{
    let mut i: usize = 0;
    while i < cards.len()
        invariant
            i <= cards@.len(),
            deck.wf(),
            cards@.subrange(0, i as int).no_duplicates(),
            forall|k: int| 0 <= k < i ==> deck@.contains(#[trigger] cards@[k]),
        decreases cards@.len() - i,
    {
        if !deck.contains(&cards[i]) {
            assert(cards@.contains(cards@[i as int]));
            return false;
        }
        let mut j: usize = 0;
        while j < i
            invariant
                i < cards@.len(),
                j <= i,
                forall|k: int| 0 <= k < j ==> cards@[k] != cards@[i as int],
            decreases i - j,
        {
            if cards[j] == cards[i] {
                return false;
            }
            j = j + 1;
        }
        i = i + 1;
        assert(cards@.subrange(0, i as int).no_duplicates()) by {
            assert forall|a: int, b: int|
                0 <= a < i && 0 <= b < i && a != b implies cards@[a] != cards@[b] by {
                if a < i - 1 && b < i - 1 {
                    assert(cards@.subrange(0, i - 1)[a] == cards@[a]);
                    assert(cards@.subrange(0, i - 1)[b] == cards@[b]);
                }
            }
        }
    }
    assert(cards@.subrange(0, cards@.len() as int) =~= cards@);
    true
}

/// Monte Carlo equity simulation for a fixed set of hands and a partial board.
pub struct MonteCarloGame {
    hands: Vec<Hand>,
    board: Vec<Card>,
    deck: Deck,
    drawn: Vec<Card>,
}

impl MonteCarloGame {
    /// The hole cards of each hand.
    pub closed spec fn hands(&self) -> Seq<Seq<Card>> {
        self.hands@.map_values(|h: Hand| h@)
    }

    /// The known board cards.
    pub closed spec fn board(&self) -> Seq<Card> {
        self.board@
    }

    /// The cards that no hand and no known board card holds.
    pub closed spec fn deck(&self) -> Set<Card> {
        self.deck@
    }

    /// The cards that completed the board in the last trial.
    pub closed spec fn drawn(&self) -> Seq<Card> {
        self.drawn@
    }

    /// The cards held by the hands, then by the known board.
    pub open spec fn held(&self) -> Seq<Card> {
        all_cards(self.hands()) + self.board()
    }

    /// No card is held twice, and the deck holds exactly the cards not held.
    pub closed spec fn wf(&self) -> bool {
        &&& self.deck.wf()
        &&& self.board@.len() <= 5
        &&& forall|i: int| 0 <= i < self.hands@.len() ==> (#[trigger] self.hands@[i])@.len() <= 2
        &&& self.held().no_duplicates()
        &&& self.deck@ == all_but(self.held().to_set())
    }

    /// A game of the given hands with an empty board. Fails when a hand has
    /// more than two cards, or when a card is held twice.
    pub fn new_with_hands(hands: Vec<Hand>) -> (r: Result<MonteCarloGame, ValidationError>)
        ensures
            (exists|i: int| 0 <= i < hands@.len() && (#[trigger] hands@[i])@.len() > 2) ==> r
                == Err::<MonteCarloGame, ValidationError>(ValidationError::TooManyHoleCards),
            (forall|i: int| 0 <= i < hands@.len() ==> (#[trigger] hands@[i])@.len() <= 2) ==> {
                let held = all_cards(hands@.map_values(|h: Hand| h@));
                &&& r is Ok <==> held.no_duplicates()
                &&& r is Err ==> r == Err::<MonteCarloGame, ValidationError>(
                    ValidationError::DuplicateCard,
                )
            },
            r matches Ok(g) ==> {
                &&& g.wf()
                &&& g.hands() == hands@.map_values(|h: Hand| h@)
                &&& g.board() == Seq::<Card>::empty()
                &&& g.drawn() == Seq::<Card>::empty()
                &&& g.deck() == all_but(all_cards(g.hands()).to_set())
                &&& g.deck().len() == 52 - all_cards(g.hands()).len()
            },
    {
        let ghost hv = hands@.map_values(|h: Hand| h@);
        let mut i: usize = 0;
        while i < hands.len()
            invariant
                i <= hands@.len(),
                forall|k: int| 0 <= k < i ==> (#[trigger] hands@[k])@.len() <= 2,
            decreases hands@.len() - i,
        {
            if hands[i].len() > 2 {
                return Err(ValidationError::TooManyHoleCards);
            }
            i = i + 1;
        }
        let mut held: Vec<Card> = Vec::new();
        i = 0;
        while i < hands.len()
            invariant
                i <= hands@.len(),
                hv == hands@.map_values(|h: Hand| h@),
                hv.len() == hands@.len(),
                forall|k: int| 0 <= k < hands@.len() ==> (#[trigger] hands@[k])@.len() <= 2,
                held@ == all_cards(hv.subrange(0, i as int)),
            decreases hands@.len() - i,
        {
            let cards = hands[i].get_cards();
            let mut j: usize = 0;
            while j < cards.len()
                invariant
                    i < hands@.len(),
                    j <= cards@.len(),
                    hv.len() == hands@.len(),
                    cards@ == hv[i as int],
                    held@ == all_cards(hv.subrange(0, i as int)) + cards@.subrange(0, j as int),
                decreases cards@.len() - j,
            {
                held.push(cards[j]);
                j = j + 1;
                assert(held@ =~= all_cards(hv.subrange(0, i as int)) + cards@.subrange(0, j as int));
            }
            assert(hv.subrange(0, i + 1).drop_last() =~= hv.subrange(0, i as int));
            assert(cards@.subrange(0, j as int) =~= cards@);
            i = i + 1;
        }
        assert(hv.subrange(0, hands@.len() as int) =~= hv);
        let mut deck = Deck::full();
        let mut k: usize = 0;
        while k < held.len()
            invariant
                k <= held@.len(),
                hv == hands@.map_values(|h: Hand| h@),
                held@ == all_cards(hv),
                deck.wf(),
                forall|x: int| 0 <= x < hands@.len() ==> (#[trigger] hands@[x])@.len() <= 2,
                held@.subrange(0, k as int).no_duplicates(),
                deck@ == all_but(held@.subrange(0, k as int).to_set()),
                deck@.len() == 52 - k,
            decreases held@.len() - k,
        {
            let c = held[k];
            let ghost seen = held@.subrange(0, k as int);
            if !deck.remove(&c) {
                proof {
                    assert(seen.to_set().contains(c));
                    let x = choose|x: int| 0 <= x < seen.len() && seen[x] == c;
                    assert(held@[x] == held@[k as int]);
                }
                return Err(ValidationError::DuplicateCard);
            }
            k = k + 1;
            proof {
                assert(held@.subrange(0, k as int) =~= seen.push(c));
                lemma_push_to_set(seen, c);
                assert(deck@ =~= all_but(held@.subrange(0, k as int).to_set()));
            }
        }
        assert(held@.subrange(0, held@.len() as int) =~= held@);
        let game = MonteCarloGame { hands, board: Vec::new(), deck, drawn: Vec::new() };
        assert(game.hands() =~= hv);
        assert(game.held() =~= held@);
        Ok(game)
    }

    /// Adds known board cards. Fails, changing nothing, when the board would
    /// exceed five cards, or when a card is held by a hand, by the board, or
    /// twice among `cards`.
    pub fn set_board(&mut self, cards: &[Card]) -> (r: Result<(), ValidationError>)
        requires
            old(self).wf(),
        ensures
            final(self).wf(),
            final(self).hands() == old(self).hands(),
            old(self).board().len() + cards@.len() > 5 ==> r == Err::<(), ValidationError>(
                ValidationError::BoardOverflow,
            ),
            old(self).board().len() + cards@.len() <= 5 ==> (r is Ok <==> cards@.no_duplicates()
                && forall|c: Card| #[trigger] cards@.contains(c) ==> old(self).deck().contains(c)),
            old(self).board().len() + cards@.len() <= 5 && r is Err ==> r == Err::<
                (),
                ValidationError,
            >(ValidationError::DuplicateCard),
            r is Err ==> final(self).board() == old(self).board() && final(self).deck() == old(
                self,
            ).deck() && final(self).drawn() == old(self).drawn(),
            r is Ok ==> {
                &&& final(self).board() == old(self).board() + cards@
                &&& final(self).deck() == old(self).deck().difference(cards@.to_set())
                &&& final(self).deck().len() + cards@.len() == old(self).deck().len()
                &&& final(self).drawn() == Seq::<Card>::empty()
            },
    {
        if cards.len() > 5 - self.board.len() {
            return Err(ValidationError::BoardOverflow);
        }
        if !all_fresh(&self.deck, cards) {
            return Err(ValidationError::DuplicateCard);
        }
        let mut i: usize;
        assert(cards@.subrange(0, cards@.len() as int) =~= cards@);
        let ghost old_deck = self.deck@;
        let ghost old_board = self.board@;
        i = 0;
        while i < cards.len()
            invariant
                i <= cards@.len() <= 5,
                old_board.len() + cards@.len() <= 5,
                self.deck.wf(),
                cards@.no_duplicates(),
                forall|c: Card| #[trigger] cards@.contains(c) ==> old_deck.contains(c),
                self.deck@ == old_deck.difference(cards@.subrange(0, i as int).to_set()),
                self.deck@.len() + i == old_deck.len(),
                self.board@ == old_board + cards@.subrange(0, i as int),
                self.hands@ == old(self).hands@,
                forall|k: int| 0 <= k < self.hands@.len() ==> (#[trigger] self.hands@[k])@.len() <= 2,
            decreases cards@.len() - i,
        {
            let c = cards[i];
            let ghost done = cards@.subrange(0, i as int);
            proof {
                assert(cards@.contains(c));
                assert(!done.contains(c));
            }
            self.deck.remove(&c);
            self.board.push(c);
            i = i + 1;
            proof {
                assert(cards@.subrange(0, i as int) =~= done.push(c));
                lemma_push_to_set(done, c);
                assert(self.deck@ =~= old_deck.difference(cards@.subrange(0, i as int).to_set()));
                assert(self.board@ =~= old_board + cards@.subrange(0, i as int));
            }
        }
        assert(cards@.subrange(0, cards@.len() as int) =~= cards@);
        proof {
            let h = all_cards(old(self).hands());
            let before = h + old_board;
            assert(self.hands() =~= old(self).hands());
            assert(self.held() =~= before + cards@);
            lemma_concat_to_set(before, cards@);
            assert(self.deck@ =~= all_but(self.held().to_set()));
            assert forall|x: int, y: int|
                0 <= x < before.len() && 0 <= y < cards@.len() implies before[x] != cards@[y] by {
                assert(cards@.contains(cards@[y]));
                assert(before.to_set().contains(before[x]));
            }
            vstd::seq_lib::lemma_no_dup_in_concat(before, cards@);
        }
        self.drawn = Vec::new();
        Ok(())
    }

    /// Ranks every hand with the known board completed by `completion`, and
    /// returns the first hand of the highest rank, with that rank.
    pub fn showdown(&self, completion: &[Card]) -> (r: (usize, Rank))
        requires
            self.wf(),
            self.hands().len() > 0,
            self.board().len() + completion@.len() == 5,
        ensures
            first_best(
                showdown_ranks(self.hands(), self.board() + completion@),
                r.0 as int,
                r.1,
            ),
    {
        let ghost hv = self.hands();
        let mut full: Vec<Card> = Vec::new();
        let mut k: usize = 0;
        while k < self.board.len()
            invariant
                k <= self.board@.len(),
                full@ == self.board@.subrange(0, k as int),
            decreases self.board@.len() - k,
        {
            full.push(self.board[k]);
            k = k + 1;
            assert(full@ =~= self.board@.subrange(0, k as int));
        }
        k = 0;
        while k < completion.len()
            invariant
                k <= completion@.len(),
                full@ == self.board@ + completion@.subrange(0, k as int),
            decreases completion@.len() - k,
        {
            full.push(completion[k]);
            k = k + 1;
            assert(full@ =~= self.board@ + completion@.subrange(0, k as int));
        }
        assert(full@ =~= self.board@ + completion@);
        let ghost ranks = showdown_ranks(hv, full@);
        let mut best_i: usize = 0;
        let mut best = rank_best(&self.joined(0, &full));
        let mut i: usize = 1;
        while i < self.hands.len()
            invariant
                self.wf(),
                hv == self.hands(),
                full@.len() == 5,
                ranks == showdown_ranks(hv, full@),
                1 <= i <= self.hands@.len(),
                best_i < i,
                ranks[best_i as int] == best,
                forall|j: int| 0 <= j < i ==> #[trigger] ranks[j].score() <= best.score(),
                forall|j: int| 0 <= j < best_i ==> #[trigger] ranks[j].score() < best.score(),
            decreases self.hands@.len() - i,
        {
            let r = rank_best(&self.joined(i, &full));
            if r.beats(&best) {
                best = r;
                best_i = i;
            }
            i = i + 1;
        }
        (best_i, best)
    }

    /// The cards of hand `i` followed by `board`.
    fn joined(&self, i: usize, board: &Vec<Card>) -> (r: Vec<Card>)
        requires
            self.wf(),
            i < self.hands@.len(),
            board@.len() == 5,
        ensures
            r@ == self.hands()[i as int] + board@,
            5 <= r@.len() <= 7,
    {
        let hole = self.hands[i].get_cards();
        let mut r: Vec<Card> = Vec::new();
        let mut k: usize = 0;
        while k < hole.len()
            invariant
                k <= hole@.len(),
                r@ == hole@.subrange(0, k as int),
            decreases hole@.len() - k,
        {
            r.push(hole[k]);
            k = k + 1;
            assert(r@ =~= hole@.subrange(0, k as int));
        }
        k = 0;
        while k < board.len()
            invariant
                k <= board@.len(),
                r@ == hole@ + board@.subrange(0, k as int),
            decreases board@.len() - k,
        {
            r.push(board[k]);
            k = k + 1;
            assert(r@ =~= hole@ + board@.subrange(0, k as int));
        }
        assert(r@ =~= hole@ + board@);
        r
    }

    /// What one trial promises: the configuration stays, and a trial runs
    /// exactly when there are hands and enough cards to complete the board.
    pub open spec fn trial_outcome(
        pre: MonteCarloGame,
        post: MonteCarloGame,
        r: Result<(usize, Rank), SimulationError>,
    ) -> bool {
        &&& post.wf()
        &&& post.hands() == pre.hands()
        &&& post.board() == pre.board()
        &&& post.deck() == pre.deck()
        &&& pre.hands().len() == 0 ==> r == Err::<(usize, Rank), SimulationError>(
            SimulationError::NoHands,
        )
        &&& pre.hands().len() > 0 && pre.deck().len() + pre.board().len() < 5 ==> r == Err::<
            (usize, Rank),
            SimulationError,
        >(SimulationError::DeckExhausted)
        &&& pre.hands().len() > 0 && pre.deck().len() + pre.board().len() >= 5 ==> r is Ok
        &&& r is Err ==> post.drawn() == pre.drawn()
        &&& r matches Ok(res) ==> {
            &&& post.drawn().len() + pre.board().len() == 5
            &&& post.drawn().no_duplicates()
            &&& forall|c: Card| #[trigger]
                post.drawn().contains(c) ==> pre.deck().contains(c) && !pre.held().contains(c)
            &&& first_best(showdown_ranks(pre.hands(), pre.board() + post.drawn()), res.0 as int, res.1)
        }
    }

    /// One trial: completes the board with cards drawn at random from the
    /// deck, and returns the first hand of the highest rank, with that rank.
    /// The configured hands, board and deck stay as they are.
    pub fn simulate(&mut self) -> (r: Result<(usize, Rank), SimulationError>)
        requires
            old(self).wf(),
        ensures
            Self::trial_outcome(*old(self), *final(self), r),
    {
        self.trial(None)
    }

    /// Like `simulate`, with the random draw fixed by `seed`.
    pub fn simulate_seeded(&mut self, seed: u64) -> (r: Result<(usize, Rank), SimulationError>)
        requires
            old(self).wf(),
        ensures
            Self::trial_outcome(*old(self), *final(self), r),
    {
        self.trial(Some(seed))
    }

    fn trial(&mut self, seed: Option<u64>) -> (r: Result<(usize, Rank), SimulationError>)
        requires
            old(self).wf(),
        ensures
            Self::trial_outcome(*old(self), *final(self), r),
    {
        if self.hands.len() == 0 {
            return Err(SimulationError::NoHands);
        }
        let need = 5 - self.board.len();
        let flat = FlatDeck::from_deck(&self.deck);
        if flat.len() < need {
            return Err(SimulationError::DeckExhausted);
        }
        let drawn = match seed {
            Some(seed) => flat.sample_seeded(need, seed),
            None => flat.sample(need),
        };
        proof {
            assert forall|c: Card| #[trigger] drawn@.contains(c) implies self.deck@.contains(c) && !self.held().contains(c) by {
                assert(flat@.contains(c));
                assert(flat@.to_set().contains(c));
                assert(!self.held().to_set().contains(c));
            }
        }
        let res = self.showdown(drawn.as_slice());
        self.drawn = drawn;
        Ok(res)
    }

    /// The engine's invariant, for callers: no card is held twice, and the
    /// deck holds exactly the cards that no hand and no board card holds.
    pub proof fn lemma_deck_is_unheld(&self)
        requires
            self.wf(),
        ensures
            self.held().no_duplicates(),
            self.deck() == all_but(self.held().to_set()),
    {
    }

    /// What a reset promises: the configuration stays and nothing is drawn.
    pub open spec fn reset_outcome(pre: MonteCarloGame, post: MonteCarloGame) -> bool {
        &&& post.wf()
        &&& post.hands() == pre.hands()
        &&& post.board() == pre.board()
        &&& post.deck() == pre.deck()
        &&& post.drawn() == Seq::<Card>::empty()
    }

    /// Any number of trials, each followed by a reset, leave the game as it
    /// was configured: the same hands, board and deck, and nothing drawn.
    pub proof fn lemma_trials_keep_configuration(
        states: Seq<MonteCarloGame>,
        results: Seq<Result<(usize, Rank), SimulationError>>,
    )
        requires
            states.len() == 2 * results.len() + 1,
            states[0].wf(),
            states[0].drawn() == Seq::<Card>::empty(),
            forall|k: int|
                0 <= k < results.len() ==> Self::trial_outcome(
                    states[2 * k],
                    states[2 * k + 1],
                    #[trigger] results[k],
                ) && Self::reset_outcome(states[2 * k + 1], states[2 * k + 2]),
        ensures
            states.last().hands() == states[0].hands(),
            states.last().board() == states[0].board(),
            states.last().deck() == states[0].deck(),
            states.last().drawn() == states[0].drawn(),
        decreases results.len(),
    {
        if results.len() > 0 {
            let n = results.len() - 1;
            let prev = states.subrange(0, 2 * n + 1);
            let rs = results.subrange(0, n as int);
            assert forall|k: int| 0 <= k < rs.len() implies Self::trial_outcome(
                prev[2 * k],
                prev[2 * k + 1],
                #[trigger] rs[k],
            ) && Self::reset_outcome(prev[2 * k + 1], prev[2 * k + 2]) by {
                assert(results[k] == rs[k]);
            }
            Self::lemma_trials_keep_configuration(prev, rs);
            assert(Self::trial_outcome(states[2 * n], states[2 * n + 1], results[n as int]));
            assert(Self::reset_outcome(states[2 * n + 1], states[2 * n + 2]));
        }
    }

    /// Discards the cards drawn by the last trial.
    pub fn reset(&mut self)
        requires
            old(self).wf(),
        ensures
            Self::reset_outcome(*old(self), *final(self)),
    {
        self.drawn = Vec::new();
    }

    /// Number of cards left in the deck.
    pub fn deck_len(&self) -> (r: usize)
        requires
            self.wf(),
        ensures
            r == self.deck().len(),
    {
        self.deck.len()
    }

    pub fn get_board(&self) -> (r: &[Card])
        ensures
            r@ == self.board(),
    {
        self.board.as_slice()
    }

    pub fn get_drawn(&self) -> (r: &[Card])
        ensures
            r@ == self.drawn(),
    {
        self.drawn.as_slice()
    }

    pub fn num_hands(&self) -> (r: usize)
        ensures
            r == self.hands().len(),
    {
        self.hands.len()
    }
}

} // verus!
