use vstd::prelude::*;
use vstd::multiset::Multiset;
use crate::card::{Card, Suit, Value};

verus! {

broadcast use vstd::seq_lib::group_to_multiset_ensures;

/// The strength of a poker hand: its category, and a key that orders hands of
/// the same category (higher is stronger).
#[derive(Clone, Copy, Debug, PartialEq, Eq, Structural, Hash, PartialOrd, Ord)]
pub enum Rank {
    HighCard(u64),
    OnePair(u64),
    TwoPair(u64),
    ThreeOfAKind(u64),
    Straight(u64),
    Flush(u64),
    FullHouse(u64),
    FourOfAKind(u64),
    StraightFlush(u64),
}

impl Rank {
    /// Category, from 0 (high card) to 8 (straight flush).
    pub open spec fn category(self) -> nat {
        match self {
            Rank::HighCard(_) => 0,
            Rank::OnePair(_) => 1,
            Rank::TwoPair(_) => 2,
            Rank::ThreeOfAKind(_) => 3,
            Rank::Straight(_) => 4,
            Rank::Flush(_) => 5,
            Rank::FullHouse(_) => 6,
            Rank::FourOfAKind(_) => 7,
            Rank::StraightFlush(_) => 8,
        }
    }

    pub open spec fn key(self) -> nat {
        match self {
            Rank::HighCard(k) => k as nat,
            Rank::OnePair(k) => k as nat,
            Rank::TwoPair(k) => k as nat,
            Rank::ThreeOfAKind(k) => k as nat,
            Rank::Straight(k) => k as nat,
            Rank::Flush(k) => k as nat,
            Rank::FullHouse(k) => k as nat,
            Rank::FourOfAKind(k) => k as nat,
            Rank::StraightFlush(k) => k as nat,
        }
    }

    /// Total strength: category first, then key. This is the order of `Ord`.
    pub open spec fn score(self) -> int {
        (self.category() * 0x1_0000_0000_0000_0000 + self.key()) as int
    }

    pub fn category_index(&self) -> (r: u8)
        ensures
            r as nat == self.category(),
    {
        match self {
            Rank::HighCard(_) => 0,
            Rank::OnePair(_) => 1,
            Rank::TwoPair(_) => 2,
            Rank::ThreeOfAKind(_) => 3,
            Rank::Straight(_) => 4,
            Rank::Flush(_) => 5,
            Rank::FullHouse(_) => 6,
            Rank::FourOfAKind(_) => 7,
            Rank::StraightFlush(_) => 8,
        }
    }

    pub fn key_value(&self) -> (r: u64)
        ensures
            r as nat == self.key(),
    {
        match self {
            Rank::HighCard(k) => *k,
            Rank::OnePair(k) => *k,
            Rank::TwoPair(k) => *k,
            Rank::ThreeOfAKind(k) => *k,
            Rank::Straight(k) => *k,
            Rank::Flush(k) => *k,
            Rank::FullHouse(k) => *k,
            Rank::FourOfAKind(k) => *k,
            Rank::StraightFlush(k) => *k,
        }
    }

    /// Whether this rank is strictly stronger than `other`.
    pub fn beats(&self, other: &Rank) -> (r: bool)
        ensures
            r == (self.score() > other.score()),
    {
        let a = self.category_index();
        let b = other.category_index();
        a > b || (a == b && self.key_value() > other.key_value())
    }
}

pub proof fn lemma_score_injective(a: Rank, b: Rank)
    requires
        a.score() == b.score(),
    ensures
        a == b,
{
}

/// How many cards of value `v` the multiset holds.
pub open spec fn value_count(m: Multiset<Card>, v: Value) -> nat {
    m.count(Card { value: v, suit: Suit::Spade }) + m.count(Card { value: v, suit: Suit::Club })
        + m.count(Card { value: v, suit: Suit::Heart }) + m.count(
        Card { value: v, suit: Suit::Diamond },
    )
}

/// The count of each value, indexed by value position.
pub open spec fn value_counts(m: Multiset<Card>) -> Seq<nat> {
    Seq::new(13, |i: int| value_count(m, Value::at(i as nat)))
}

/// All cards share one suit.
pub open spec fn one_suit(m: Multiset<Card>) -> bool {
    forall|a: Card, b: Card| #![trigger m.count(a), m.count(b)]
        m.count(a) > 0 && m.count(b) > 0 ==> a.suit == b.suit
}

/// Number of values below position `n` that occur exactly `k` times.
pub open spec fn num_with(cnt: Seq<nat>, k: nat, n: nat) -> nat
    decreases n,
{
    if n == 0 {
        0
    } else {
        num_with(cnt, k, (n - 1) as nat) + if cnt[n - 1] == k { 1nat } else { 0nat }
    }
}

pub open spec fn pow2(n: nat) -> nat
    decreases n,
{
    if n == 0 { 1 } else { 2 * pow2((n - 1) as nat) }
}

/// Bit set, over the value positions below `n`, of the values that occur exactly `k` times.
pub open spec fn mask_with(cnt: Seq<nat>, k: nat, n: nat) -> nat
    decreases n,
{
    if n == 0 {
        0
    } else {
        mask_with(cnt, k, (n - 1) as nat) + if cnt[n - 1] == k {
            pow2((n - 1) as nat)
        } else {
            0nat
        }
    }
}

/// Tie-break key: the set of values occurring four times is most significant,
/// then those occurring three times, twice, and once; within a set, a higher
/// value weighs more than all lower ones together.
pub open spec fn tie_key(cnt: Seq<nat>) -> nat {
    mask_with(cnt, 4, 13) * 0x80_0000_0000 + mask_with(cnt, 3, 13) * 0x400_0000 + mask_with(
        cnt,
        2,
        13,
    ) * 0x2000 + mask_with(cnt, 1, 13)
}

/// Five values ending at position `top` each occur once.
pub open spec fn run_at(cnt: Seq<nat>, top: int) -> bool {
    if top == 3 {
        cnt[12] == 1 && cnt[0] == 1 && cnt[1] == 1 && cnt[2] == 1 && cnt[3] == 1
    } else {
        4 <= top < 13 && cnt[top] == 1 && cnt[top - 1] == 1 && cnt[top - 2] == 1 && cnt[top
            - 3] == 1 && cnt[top - 4] == 1
    }
}

/// The highest card of the highest straight with its top at or below
/// `top`, where an Ace-to-Five straight tops at the Five; -1 if none.
pub open spec fn straight_top_from(cnt: Seq<nat>, top: int) -> int
    decreases top + 1,
{
    if top < 3 {
        -1
    } else if run_at(cnt, top) {
        top
    } else {
        straight_top_from(cnt, top - 1)
    }
}

pub open spec fn straight_top(cnt: Seq<nat>) -> int {
    straight_top_from(cnt, 12)
}

/// The rank of a five-card hand given by its multiset of cards.
pub open spec fn rank_of(m: Multiset<Card>) -> Rank {
    let cnt = value_counts(m);
    let flush = one_suit(m);
    let top = straight_top(cnt);
    let key = tie_key(cnt);
    if flush && top >= 0 {
        Rank::StraightFlush(top as u64)
    } else if num_with(cnt, 4, 13) > 0 {
        Rank::FourOfAKind(key as u64)
    } else if num_with(cnt, 3, 13) > 0 && num_with(cnt, 2, 13) > 0 {
        Rank::FullHouse(key as u64)
    } else if flush {
        Rank::Flush(key as u64)
    } else if top >= 0 {
        Rank::Straight(top as u64)
    } else if num_with(cnt, 3, 13) > 0 {
        Rank::ThreeOfAKind(key as u64)
    } else if num_with(cnt, 2, 13) >= 2 {
        Rank::TwoPair(key as u64)
    } else if num_with(cnt, 2, 13) > 0 {
        Rank::OnePair(key as u64)
    } else {
        Rank::HighCard(key as u64)
    }
}

proof fn lemma_mask_bound(cnt: Seq<nat>, k: nat, n: nat)
    ensures
        mask_with(cnt, k, n) < pow2(n),
    decreases n,
{
    if n > 0 {
        lemma_mask_bound(cnt, k, (n - 1) as nat);
    }
}

proof fn lemma_tie_key_bound(cnt: Seq<nat>)
    ensures
        tie_key(cnt) < 0x10_0000_0000_0000,
{
    lemma_mask_bound(cnt, 4, 13);
    lemma_mask_bound(cnt, 3, 13);
    lemma_mask_bound(cnt, 2, 13);
    lemma_mask_bound(cnt, 1, 13);
    reveal_with_fuel(pow2, 14);
    assert(pow2(13) == 0x2000);
    let m4 = mask_with(cnt, 4, 13);
    let m3 = mask_with(cnt, 3, 13);
    let m2 = mask_with(cnt, 2, 13);
    assert(m4 * 0x80_0000_0000 <= 0x1fff * 0x80_0000_0000) by (nonlinear_arith)
        requires
            m4 < 0x2000,
    ;
    assert(m3 * 0x400_0000 <= 0x1fff * 0x400_0000) by (nonlinear_arith)
        requires
            m3 < 0x2000,
    ;
    assert(m2 * 0x2000 <= 0x1fff * 0x2000) by (nonlinear_arith)
        requires
            m2 < 0x2000,
    ;
}

proof fn lemma_value_count_insert(m: Multiset<Card>, c: Card, v: Value)
    ensures
        value_count(m.insert(c), v) == value_count(m, v) + if c.value == v { 1nat } else { 0nat },
{
}

/// Counts the values of a sequence of cards.
fn count_values(cards: &Vec<Card>) -> (cnt: [u8; 13])
    requires
        cards@.len() <= 7,
    ensures
        forall|i: int| 0 <= i < 13 ==> cnt@[i] as nat == value_counts(cards@.to_multiset())[i],
{
    let mut cnt: [u8; 13] = [0u8; 13];
    let mut i: usize = 0;
    proof {
        assert(cards@.subrange(0, 0).to_multiset() =~= Multiset::empty());
    }
    while i < cards.len()
        invariant
            i <= cards@.len() <= 7,
            forall|j: int| 0 <= j < 13 ==> cnt@[j] as nat == value_counts(cards@.subrange(0, i as int).to_multiset())[j],
            forall|j: int| 0 <= j < 13 ==> cnt@[j] <= i,
        decreases cards@.len() - i,
    {
        let c = cards[i];
        let v = c.value.index() as usize;
        proof {
            let pre = cards@.subrange(0, i as int);
            assert(cards@.subrange(0, i + 1) =~= pre.push(c));
            assert(pre.push(c).to_multiset() =~= pre.to_multiset().insert(c));
        }
        cnt[v] = cnt[v] + 1;
        i = i + 1;
        proof {
            let pre = cards@.subrange(0, i - 1);
            let now = cards@.subrange(0, i as int);
            assert forall|j: int| 0 <= j < 13 implies cnt@[j] as nat == value_counts(
                now.to_multiset(),
            )[j] by {
                lemma_value_count_insert(pre.to_multiset(), c, Value::at(j as nat));
            }
        }
    }
    assert(cards@.subrange(0, cards@.len() as int) =~= cards@);
    cnt
}

/// The highest straight in the counts, as the position of its top card.
fn find_straight(cnt: &[u8; 13], Ghost(cs): Ghost<Seq<nat>>) -> (r: Option<u8>)
    requires
        cs.len() == 13,
        forall|j: int| 0 <= j < 13 ==> cnt@[j] as nat == cs[j],
    ensures
        r is Some <==> straight_top(cs) >= 0,
        r matches Some(t) ==> t as int == straight_top(cs),
{
    let mut t: usize = 12;
    while t >= 4
        invariant
            3 <= t <= 12,
            straight_top(cs) == straight_top_from(cs, t as int),
            forall|j: int| 0 <= j < 13 ==> cnt@[j] as nat == cs[j],
        decreases t,
    {
        if cnt[t] == 1 && cnt[t - 1] == 1 && cnt[t - 2] == 1 && cnt[t - 3] == 1 && cnt[t - 4] == 1 {
            return Some(t as u8);
        }
        t = t - 1;
    }
    assert(straight_top_from(cs, 2) == -1);
    if cnt[12] == 1 && cnt[0] == 1 && cnt[1] == 1 && cnt[2] == 1 && cnt[3] == 1 {
        Some(3)
    } else {
        None
    }
}

/// Whether every card of a non-empty sequence has the suit of the first.
fn same_suit(cards: &Vec<Card>) -> (r: bool)
    requires
        cards@.len() > 0,
    ensures
        r == one_suit(cards@.to_multiset()),
{
    let s = cards[0].suit;
    let mut i: usize = 1;
    while i < cards.len()
        invariant
            1 <= i <= cards@.len(),
            s == cards@[0].suit,
            forall|k: int| 0 <= k < i ==> cards@[k].suit == s,
        decreases cards@.len() - i,
    {
        if cards[i].suit != s {
            proof {
                let m = cards@.to_multiset();
                assert(cards@.contains(cards@[i as int]));
                assert(cards@.contains(cards@[0]));
                assert(m.count(cards@[i as int]) > 0 && m.count(cards@[0]) > 0);
            }
            return false;
        }
        i = i + 1;
    }
    proof {
        let m = cards@.to_multiset();
        assert forall|a: Card, b: Card| m.count(a) > 0 && m.count(b) > 0 implies a.suit
            == b.suit by {
            assert(cards@.contains(a));
            assert(cards@.contains(b));
        }
    }
    true
}

/// The rank of a hand of exactly five cards.
pub fn rank_five(cards: &Vec<Card>) -> (r: Rank)
    requires
        cards@.len() == 5,
    ensures
        r == rank_of(cards@.to_multiset()),
{
    let ghost m = cards@.to_multiset();
    let ghost cs = value_counts(m);
    let cnt = count_values(cards);
    let flush = same_suit(cards);
    let top = find_straight(&cnt, Ghost(cs));
    let mut n4: u8 = 0;
    let mut n3: u8 = 0;
    let mut n2: u8 = 0;
    let mut m4: u64 = 0;
    let mut m3: u64 = 0;
    let mut m2: u64 = 0;
    let mut m1: u64 = 0;
    let mut bit: u64 = 1;
    let mut v: usize = 0;
    while v < 13
        invariant
            v <= 13,
            cs == value_counts(m),
            forall|j: int| 0 <= j < 13 ==> cnt@[j] as nat == cs[j],
            bit as nat == pow2(v as nat),
            n4 as nat == num_with(cs, 4, v as nat),
            n3 as nat == num_with(cs, 3, v as nat),
            n2 as nat == num_with(cs, 2, v as nat),
            n4 <= v && n3 <= v && n2 <= v,
            m4 as nat == mask_with(cs, 4, v as nat),
            m3 as nat == mask_with(cs, 3, v as nat),
            m2 as nat == mask_with(cs, 2, v as nat),
            m1 as nat == mask_with(cs, 1, v as nat),
        decreases 13 - v,
    {
        proof {
            lemma_mask_bound(cs, 4, v as nat);
            lemma_mask_bound(cs, 3, v as nat);
            lemma_mask_bound(cs, 2, v as nat);
            lemma_mask_bound(cs, 1, v as nat);
            lemma_pow2_le(v as nat, 12);
            lemma_pow2_12();
        }
        let c = cnt[v];
        if c == 4 {
            n4 = n4 + 1;
            m4 = m4 + bit;
        } else if c == 3 {
            n3 = n3 + 1;
            m3 = m3 + bit;
        } else if c == 2 {
            n2 = n2 + 1;
            m2 = m2 + bit;
        } else if c == 1 {
            m1 = m1 + bit;
        }
        bit = bit * 2;
        v = v + 1;
    }
    proof {
        lemma_tie_key_bound(cs);
        lemma_mask_bound(cs, 4, 13);
        lemma_mask_bound(cs, 3, 13);
        lemma_mask_bound(cs, 2, 13);
        lemma_mask_bound(cs, 1, 13);
        lemma_pow2_12();
    }
    let key: u64 = m4 * 0x80_0000_0000 + m3 * 0x400_0000 + m2 * 0x2000 + m1;
    if flush && top.is_some() {
        Rank::StraightFlush(top.unwrap() as u64)
    } else if n4 > 0 {
        Rank::FourOfAKind(key)
    } else if n3 > 0 && n2 > 0 {
        Rank::FullHouse(key)
    } else if flush {
        Rank::Flush(key)
    } else if top.is_some() {
        Rank::Straight(top.unwrap() as u64)
    } else if n3 > 0 {
        Rank::ThreeOfAKind(key)
    } else if n2 >= 2 {
        Rank::TwoPair(key)
    } else if n2 > 0 {
        Rank::OnePair(key)
    } else {
        Rank::HighCard(key)
    }
}

proof fn lemma_pow2_12()
    ensures
        pow2(12) == 0x1000,
        pow2(13) == 0x2000,
{
    reveal_with_fuel(pow2, 14);
}

proof fn lemma_pow2_le(a: nat, b: nat)
    requires
        a <= b,
    ensures
        pow2(a) <= pow2(b),
    decreases b,
{
    if a < b {
        lemma_pow2_le(a, (b - 1) as nat);
    }
}

/// Indices `a < b < c < d < e` choose five of `n` cards.
pub open spec fn is_pick(n: int, a: int, b: int, c: int, d: int, e: int) -> bool {
    0 <= a < b < c < d < e < n
}

/// The rank of the five cards of `s` at the given indices.
pub open spec fn pick_rank(s: Seq<Card>, a: int, b: int, c: int, d: int, e: int) -> Rank {
    rank_of(seq![s[a], s[b], s[c], s[d], s[e]].to_multiset())
}

/// `r` is the rank of some five cards of `s`, and no five cards of `s` rank higher.
pub open spec fn is_best(s: Seq<Card>, r: Rank) -> bool {
    &&& exists|a: int, b: int, c: int, d: int, e: int|
        is_pick(s.len() as int, a, b, c, d, e) && #[trigger] pick_rank(s, a, b, c, d, e) == r
    &&& forall|a: int, b: int, c: int, d: int, e: int|
        is_pick(s.len() as int, a, b, c, d, e) ==> #[trigger] pick_rank(s, a, b, c, d, e).score()
            <= r.score()
}

/// The best rank of any five cards of `s`.
pub open spec fn best_rank(s: Seq<Card>) -> Rank {
    choose|r: Rank| is_best(s, r)
}

/// Lexicographic order on index tuples.
pub open spec fn lex_lt(
    a: int,
    b: int,
    c: int,
    d: int,
    e: int,
    a1: int,
    b1: int,
    c1: int,
    d1: int,
    e1: int,
) -> bool {
    a < a1 || (a == a1 && (b < b1 || (b == b1 && (c < c1 || (c == c1 && (d < d1 || (d == d1 && e
        < e1)))))))
}

/// Two ranks that are both best for `s` are the same rank.
pub proof fn lemma_best_unique(s: Seq<Card>, r1: Rank, r2: Rank)
    requires
        is_best(s, r1),
        is_best(s, r2),
    ensures
        r1 == r2,
{
    let (a, b, c, d, e) = choose|a: int, b: int, c: int, d: int, e: int|
        is_pick(s.len() as int, a, b, c, d, e) && #[trigger] pick_rank(s, a, b, c, d, e) == r1;
    let (a2, b2, c2, d2, e2) = choose|a: int, b: int, c: int, d: int, e: int|
        is_pick(s.len() as int, a, b, c, d, e) && #[trigger] pick_rank(s, a, b, c, d, e) == r2;
    assert(pick_rank(s, a, b, c, d, e).score() <= r2.score());
    assert(pick_rank(s, a2, b2, c2, d2, e2).score() <= r1.score());
    lemma_score_injective(r1, r2);
}

fn rank_pick(cards: &Vec<Card>, a: usize, b: usize, c: usize, d: usize, e: usize) -> (r: Rank)
    requires
        is_pick(cards@.len() as int, a as int, b as int, c as int, d as int, e as int),
    ensures
        r == pick_rank(cards@, a as int, b as int, c as int, d as int, e as int),
{
    let five = vec![cards[a], cards[b], cards[c], cards[d], cards[e]];
    assert(five@ =~= seq![cards@[a as int], cards@[b as int], cards@[c as int], cards@[d as int], cards@[e as int]]);
    rank_five(&five)
}

/// The best rank of any five of the 5 to 7 given cards.
pub fn rank_best(cards: &Vec<Card>) -> (r: Rank)
    requires
        5 <= cards@.len() <= 7,
    ensures
        is_best(cards@, r),
        r == best_rank(cards@),
{
    let n = cards.len();
    let ghost s = cards@;
    let mut best = rank_pick(cards, 0, 1, 2, 3, 4);
    let ghost mut w: (int, int, int, int, int) = (0, 1, 2, 3, 4);
    let mut a: usize = 0;
    while a < n
        invariant
            n == s.len(),
            s == cards@,
            a <= n,
            is_pick(n as int, w.0, w.1, w.2, w.3, w.4),
            pick_rank(s, w.0, w.1, w.2, w.3, w.4) == best,
            forall|a2: int, b2: int, c2: int, d2: int, e2: int|
                is_pick(n as int, a2, b2, c2, d2, e2) && lex_lt(a2, b2, c2, d2, e2, a as int, 0, 0, 0, 0)
                    ==> #[trigger] pick_rank(s, a2, b2, c2, d2, e2).score() <= best.score(),
        decreases n - a,
    {
        let mut b: usize = a + 1;
        while b < n
            invariant
                n == s.len(),
                s == cards@,
                a < n,
                a < b <= n,
                is_pick(n as int, w.0, w.1, w.2, w.3, w.4),
                pick_rank(s, w.0, w.1, w.2, w.3, w.4) == best,
                forall|a2: int, b2: int, c2: int, d2: int, e2: int|
                    is_pick(n as int, a2, b2, c2, d2, e2) && lex_lt(a2, b2, c2, d2, e2, a as int, b as int, 0, 0, 0)
                        ==> #[trigger] pick_rank(s, a2, b2, c2, d2, e2).score() <= best.score(),
            decreases n - b,
        {
            let mut c: usize = b + 1;
            while c < n
                invariant
                    n == s.len(),
                    s == cards@,
                    a < b < n,
                    b < c <= n,
                    is_pick(n as int, w.0, w.1, w.2, w.3, w.4),
                    pick_rank(s, w.0, w.1, w.2, w.3, w.4) == best,
                    forall|a2: int, b2: int, c2: int, d2: int, e2: int|
                        is_pick(n as int, a2, b2, c2, d2, e2) && lex_lt(a2, b2, c2, d2, e2, a as int, b as int, c as int, 0, 0)
                            ==> #[trigger] pick_rank(s, a2, b2, c2, d2, e2).score() <= best.score(),
                decreases n - c,
            {
                let mut d: usize = c + 1;
                while d < n
                    invariant
                        n == s.len(),
                        s == cards@,
                        a < b < c < n,
                        c < d <= n,
                        is_pick(n as int, w.0, w.1, w.2, w.3, w.4),
                        pick_rank(s, w.0, w.1, w.2, w.3, w.4) == best,
                        forall|a2: int, b2: int, c2: int, d2: int, e2: int|
                            is_pick(n as int, a2, b2, c2, d2, e2) && lex_lt(a2, b2, c2, d2, e2, a as int, b as int, c as int, d as int, 0)
                                ==> #[trigger] pick_rank(s, a2, b2, c2, d2, e2).score() <= best.score(),
                    decreases n - d,
                {
                    let mut e: usize = d + 1;
                    while e < n
                        invariant
                            n == s.len(),
                            s == cards@,
                            a < b < c < d < n,
                            d < e <= n,
                            is_pick(n as int, w.0, w.1, w.2, w.3, w.4),
                            pick_rank(s, w.0, w.1, w.2, w.3, w.4) == best,
                            forall|a2: int, b2: int, c2: int, d2: int, e2: int|
                                is_pick(n as int, a2, b2, c2, d2, e2) && lex_lt(a2, b2, c2, d2, e2, a as int, b as int, c as int, d as int, e as int)
                                    ==> #[trigger] pick_rank(s, a2, b2, c2, d2, e2).score() <= best.score(),
                        decreases n - e,
                    {
                        let r = rank_pick(cards, a, b, c, d, e);
                        if r.beats(&best) {
                            best = r;
                            proof {
                                w = (a as int, b as int, c as int, d as int, e as int);
                            }
                        }
                        e = e + 1;
                    }
                    d = d + 1;
                }
                c = c + 1;
            }
            b = b + 1;
        }
        a = a + 1;
    }
    proof {
        assert(pick_rank(s, w.0, w.1, w.2, w.3, w.4) == best);
        assert(is_best(s, best));
        lemma_best_unique(s, best, best_rank(s));
    }
    best
}

/// Ranking five cards does not depend on their order: two sequences holding
/// the same cards rank the same, under `rank_five` and as best five of five.
pub proof fn lemma_rank_order_free(s: Seq<Card>, t: Seq<Card>)
    requires
        s.len() == 5,
        s.to_multiset() == t.to_multiset(),
    ensures
        rank_of(s.to_multiset()) == rank_of(t.to_multiset()),
        best_rank(s) == best_rank(t),
        best_rank(s) == rank_of(s.to_multiset()),
{
    assert(s.to_multiset().len() == s.len());
    assert(t.to_multiset().len() == t.len());
    lemma_best_of_five(s);
    lemma_best_of_five(t);
}

/// Of exactly five cards, the best rank is the rank of those five.
pub proof fn lemma_best_of_five(s: Seq<Card>)
    requires
        s.len() == 5,
    ensures
        best_rank(s) == rank_of(s.to_multiset()),
{
    assert(seq![s[0], s[1], s[2], s[3], s[4]] =~= s);
    let r = rank_of(s.to_multiset());
    assert(pick_rank(s, 0, 1, 2, 3, 4) == r);
    assert forall|a: int, b: int, c: int, d: int, e: int|
        is_pick(5, a, b, c, d, e) implies #[trigger] pick_rank(s, a, b, c, d, e).score()
        <= r.score() by {
        assert(a == 0 && b == 1 && c == 2 && d == 3 && e == 4);
    }
    assert(is_best(s, r));
    lemma_best_unique(s, r, best_rank(s));
}

/// `s` with the cards at `i` and `i + 1` exchanged.
pub open spec fn swap_next(s: Seq<Card>, i: int) -> Seq<Card> {
    s.update(i, s[i + 1]).update(i + 1, s[i])
}

/// Every five cards picked from `swap_next(s, i)` are five cards of `s`.
#[verifier::rlimit(40)]
proof fn lemma_pick_swap(s: Seq<Card>, i: int, a: int, b: int, c: int, d: int, e: int) -> (q: (
    int,
    int,
    int,
    int,
    int,
))
    requires
        0 <= i < s.len() - 1,
        is_pick(s.len() as int, a, b, c, d, e),
    ensures
        is_pick(s.len() as int, q.0, q.1, q.2, q.3, q.4),
        pick_rank(s, q.0, q.1, q.2, q.3, q.4) == pick_rank(swap_next(s, i), a, b, c, d, e),
{
    let t = swap_next(s, i);
    let x0 = s[a];
    let x1 = s[b];
    let x2 = s[c];
    let x3 = s[d];
    let x4 = s[e];
    if a == i && b == i + 1 {
        lemma_swap_inside(seq![x0, x1, x2, x3, x4], seq![t[a], t[b], t[c], t[d], t[e]], 0);
        (a, b, c, d, e)
    } else if b == i && c == i + 1 {
        lemma_swap_inside(seq![x0, x1, x2, x3, x4], seq![t[a], t[b], t[c], t[d], t[e]], 1);
        (a, b, c, d, e)
    } else if c == i && d == i + 1 {
        lemma_swap_inside(seq![x0, x1, x2, x3, x4], seq![t[a], t[b], t[c], t[d], t[e]], 2);
        (a, b, c, d, e)
    } else if d == i && e == i + 1 {
        lemma_swap_inside(seq![x0, x1, x2, x3, x4], seq![t[a], t[b], t[c], t[d], t[e]], 3);
        (a, b, c, d, e)
    } else {
        lemma_pick_moved(s, i, a, b, c, d, e);
        (swap_index(a, i), swap_index(b, i), swap_index(c, i), swap_index(d, i), swap_index(e, i))
    }
}

/// A pick of `swap_next(s, i)` that holds at most one of `i` and `i + 1`
/// picks the same cards as its indices moved by the exchange pick in `s`.
#[verifier::rlimit(40)]
proof fn lemma_pick_moved(s: Seq<Card>, i: int, a: int, b: int, c: int, d: int, e: int)
    requires
        0 <= i < s.len() - 1,
        is_pick(s.len() as int, a, b, c, d, e),
        !(a == i && b == i + 1),
        !(b == i && c == i + 1),
        !(c == i && d == i + 1),
        !(d == i && e == i + 1),
    ensures
        is_pick(
            s.len() as int,
            swap_index(a, i),
            swap_index(b, i),
            swap_index(c, i),
            swap_index(d, i),
            swap_index(e, i),
        ),
        pick_rank(
            s,
            swap_index(a, i),
            swap_index(b, i),
            swap_index(c, i),
            swap_index(d, i),
            swap_index(e, i),
        ) == pick_rank(swap_next(s, i), a, b, c, d, e),
{
    let t = swap_next(s, i);
    let q = (swap_index(a, i), swap_index(b, i), swap_index(c, i), swap_index(d, i), swap_index(e, i));
    assert(t[a] == s[q.0] && t[b] == s[q.1] && t[c] == s[q.2] && t[d] == s[q.3] && t[e] == s[q.4]);
    assert(seq![t[a], t[b], t[c], t[d], t[e]] =~= seq![s[q.0], s[q.1], s[q.2], s[q.3], s[q.4]]);
}

proof fn lemma_swap_inside(u: Seq<Card>, v: Seq<Card>, k: int)
    requires
        0 <= k < u.len() - 1,
        v =~= swap_next(u, k),
    ensures
        v.to_multiset() == u.to_multiset(),
{
    let w = u.update(k, u[k + 1]);
    vstd::seq_lib::to_multiset_update(u, k, u[k + 1]);
    vstd::seq_lib::to_multiset_update(w, k + 1, u[k]);
    assert(v.to_multiset() =~= u.to_multiset());
}

spec fn swap_index(x: int, i: int) -> int {
    if x == i {
        i + 1
    } else if x == i + 1 {
        i
    } else {
        x
    }
}

proof fn lemma_best_swap_one_way(s: Seq<Card>, i: int, r: Rank)
    requires
        0 <= i < s.len() - 1,
        is_best(s, r),
    ensures
        is_best(swap_next(s, i), r),
{
    let t = swap_next(s, i);
    assert(swap_next(t, i) =~= s);
    let (a, b, c, d, e) = choose|a: int, b: int, c: int, d: int, e: int|
        is_pick(s.len() as int, a, b, c, d, e) && #[trigger] pick_rank(s, a, b, c, d, e) == r;
    let q = lemma_pick_swap(t, i, a, b, c, d, e);
    assert(pick_rank(t, q.0, q.1, q.2, q.3, q.4) == r);
    assert forall|a2: int, b2: int, c2: int, d2: int, e2: int|
        is_pick(t.len() as int, a2, b2, c2, d2, e2) implies #[trigger] pick_rank(
        t,
        a2,
        b2,
        c2,
        d2,
        e2,
    ).score() <= r.score() by {
        let q2 = lemma_pick_swap(s, i, a2, b2, c2, d2, e2);
        assert(pick_rank(s, q2.0, q2.1, q2.2, q2.3, q2.4).score() <= r.score());
    }
}

/// The best rank of a hand does not depend on the order of its cards:
/// exchanging two neighbouring cards (and so any reordering, as a chain of
/// such exchanges) keeps exactly the same ranks best, and where a best rank
/// exists (as `rank_best` shows for 5 to 7 cards), `best_rank` stays the same.
pub proof fn lemma_best_rank_swap(s: Seq<Card>, i: int)
    requires
        0 <= i < s.len() - 1,
    ensures
        forall|r: Rank| is_best(s, r) <==> #[trigger] is_best(swap_next(s, i), r),
        (exists|r: Rank| is_best(s, r)) ==> best_rank(swap_next(s, i)) == best_rank(s),
{
    let t = swap_next(s, i);
    assert(swap_next(t, i) =~= s);
    assert forall|r: Rank| is_best(s, r) <==> #[trigger] is_best(t, r) by {
        if is_best(s, r) {
            lemma_best_swap_one_way(s, i, r);
        }
        if is_best(t, r) {
            lemma_best_swap_one_way(t, i, r);
        }
    }
    if exists|r: Rank| is_best(s, r) {
        let r0 = best_rank(s);
        assert(is_best(t, r0));
        lemma_best_unique(t, r0, best_rank(t));
    }
}

/// Each value position in `vs` occurs once and no other value occurs.
pub open spec fn exactly_values(m: Multiset<Card>, vs: Set<nat>) -> bool {
    forall|v: int| 0 <= v < 13 ==> #[trigger] value_counts(m)[v] == if vs.contains(v as nat) {
        1nat
    } else {
        0nat
    }
}

/// The Ace-to-Five straight ranks below the Two-to-Six straight and above
/// every high-card hand, with or without a flush on both sides.
pub proof fn lemma_wheel_order(wheel: Multiset<Card>, six: Multiset<Card>, high: Multiset<Card>)
    requires
        exactly_values(wheel, set![12nat, 0, 1, 2, 3]),
        exactly_values(six, set![0nat, 1, 2, 3, 4]),
        one_suit(wheel) == one_suit(six),
        rank_of(high) is HighCard,
    ensures
        rank_of(wheel).score() < rank_of(six).score(),
        rank_of(high).score() < rank_of(wheel).score(),
{
    let cw = value_counts(wheel);
    let c6 = value_counts(six);
    assert(cw[12] == 1 && cw[0] == 1 && cw[1] == 1 && cw[2] == 1 && cw[3] == 1);
    assert(cw[4] == 0 && cw[5] == 0 && cw[6] == 0 && cw[7] == 0 && cw[8] == 0 && cw[9] == 0
        && cw[10] == 0 && cw[11] == 0);
    assert(c6[0] == 1 && c6[1] == 1 && c6[2] == 1 && c6[3] == 1 && c6[4] == 1);
    assert(c6[5] == 0 && c6[6] == 0 && c6[7] == 0 && c6[8] == 0 && c6[9] == 0 && c6[10] == 0
        && c6[11] == 0 && c6[12] == 0);
    reveal_with_fuel(straight_top_from, 11);
    assert(straight_top(cw) == 3);
    assert(straight_top(c6) == 4);
    lemma_num_with_none(cw, 4, 13);
    lemma_num_with_none(cw, 3, 13);
    lemma_num_with_none(c6, 4, 13);
    lemma_num_with_none(c6, 3, 13);
}

proof fn lemma_num_with_none(cnt: Seq<nat>, k: nat, n: nat)
    requires
        n <= cnt.len(),
        forall|v: int| 0 <= v < n ==> cnt[v] != k,
    ensures
        num_with(cnt, k, n) == 0,
    decreases n,
{
    if n > 0 {
        lemma_num_with_none(cnt, k, (n - 1) as nat);
    }
}

} // verus!
