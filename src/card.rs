use vstd::prelude::*;

verus! {

/// The thirteen card values, from Two up to Ace.
#[derive(Clone, Copy, Debug, PartialEq, Eq, Structural, Hash, PartialOrd, Ord)]
pub enum Value {
    Two,
    Three,
    Four,
    Five,
    Six,
    Seven,
    Eight,
    Nine,
    Ten,
    Jack,
    Queen,
    King,
    Ace,
}

/// The four suits.
#[derive(Clone, Copy, Debug, PartialEq, Eq, Structural, Hash, PartialOrd, Ord)]
pub enum Suit {
    Spade,
    Club,
    Heart,
    Diamond,
}

/// One of the 52 playing cards.
#[derive(Clone, Copy, Debug, PartialEq, Eq, Structural, Hash, PartialOrd, Ord)]
pub struct Card {
    pub value: Value,
    pub suit: Suit,
}

/// The characters of the values, from Two to Ace.
pub open spec fn value_chars() -> Seq<char> {
    seq!['2', '3', '4', '5', '6', '7', '8', '9', 'T', 'J', 'Q', 'K', 'A']
}

/// The characters of the suits, in the order of `Suit`.
pub open spec fn suit_chars() -> Seq<char> {
    seq!['s', 'c', 'h', 'd']
}

impl Value {
    /// Position of the value in the order Two < Three < ... < Ace.
    pub open spec fn idx(self) -> nat {
        match self {
            Value::Two => 0,
            Value::Three => 1,
            Value::Four => 2,
            Value::Five => 3,
            Value::Six => 4,
            Value::Seven => 5,
            Value::Eight => 6,
            Value::Nine => 7,
            Value::Ten => 8,
            Value::Jack => 9,
            Value::Queen => 10,
            Value::King => 11,
            Value::Ace => 12,
        }
    }

    /// The value at a position in 0..13.
    pub open spec fn at(i: nat) -> Value {
        if i == 0 {
            Value::Two
        } else if i == 1 {
            Value::Three
        } else if i == 2 {
            Value::Four
        } else if i == 3 {
            Value::Five
        } else if i == 4 {
            Value::Six
        } else if i == 5 {
            Value::Seven
        } else if i == 6 {
            Value::Eight
        } else if i == 7 {
            Value::Nine
        } else if i == 8 {
            Value::Ten
        } else if i == 9 {
            Value::Jack
        } else if i == 10 {
            Value::Queen
        } else if i == 11 {
            Value::King
        } else {
            Value::Ace
        }
    }

    pub fn index(&self) -> (r: u8)
        ensures
            r as nat == self.idx(),
            r < 13,
    {
        match self {
            Value::Two => 0,
            Value::Three => 1,
            Value::Four => 2,
            Value::Five => 3,
            Value::Six => 4,
            Value::Seven => 5,
            Value::Eight => 6,
            Value::Nine => 7,
            Value::Ten => 8,
            Value::Jack => 9,
            Value::Queen => 10,
            Value::King => 11,
            Value::Ace => 12,
        }
    }

    pub fn from_index(i: u8) -> (r: Value)
        requires
            i < 13,
        ensures
            r == Value::at(i as nat),
            r.idx() == i,
    {
        if i == 0 {
            Value::Two
        } else if i == 1 {
            Value::Three
        } else if i == 2 {
            Value::Four
        } else if i == 3 {
            Value::Five
        } else if i == 4 {
            Value::Six
        } else if i == 5 {
            Value::Seven
        } else if i == 6 {
            Value::Eight
        } else if i == 7 {
            Value::Nine
        } else if i == 8 {
            Value::Ten
        } else if i == 9 {
            Value::Jack
        } else if i == 10 {
            Value::Queen
        } else if i == 11 {
            Value::King
        } else {
            Value::Ace
        }
    }

    /// The character of the value in the two-character card text.
    pub fn to_char(&self) -> (r: char)
        ensures
            r == value_chars()[self.idx() as int],
    {
        let i = self.index();
        let chars: [char; 13] = ['2', '3', '4', '5', '6', '7', '8', '9', 'T', 'J', 'Q', 'K', 'A'];
        let r = chars[i as usize];
        assert(chars@ =~= value_chars());
        r
    }

    /// The value written by `c`, if `c` is one of `23456789TJQKA`.
    pub fn from_char(c: char) -> (r: Option<Value>)
        ensures
            r is Some <==> value_chars().contains(c),
            r matches Some(v) ==> value_chars()[v.idx() as int] == c,
    {
        let chars: [char; 13] = ['2', '3', '4', '5', '6', '7', '8', '9', 'T', 'J', 'Q', 'K', 'A'];
        assert(chars@ =~= value_chars());
        let mut i: u8 = 0;
        while i < 13
            invariant
                i <= 13,
                chars@ == value_chars(),
                forall|k: int| 0 <= k < i ==> value_chars()[k] != c,
            decreases 13 - i,
        {
            if chars[i as usize] == c {
                return Some(Value::from_index(i));
            }
            i = i + 1;
        }
        None
    }
}

impl Suit {
    /// Position of the suit in the order of `Suit`.
    pub open spec fn idx(self) -> nat {
        match self {
            Suit::Spade => 0,
            Suit::Club => 1,
            Suit::Heart => 2,
            Suit::Diamond => 3,
        }
    }

    /// The suit at a position in 0..4.
    pub open spec fn at(i: nat) -> Suit {
        if i == 0 {
            Suit::Spade
        } else if i == 1 {
            Suit::Club
        } else if i == 2 {
            Suit::Heart
        } else {
            Suit::Diamond
        }
    }

    pub fn index(&self) -> (r: u8)
        ensures
            r as nat == self.idx(),
            r < 4,
    {
        match self {
            Suit::Spade => 0,
            Suit::Club => 1,
            Suit::Heart => 2,
            Suit::Diamond => 3,
        }
    }

    pub fn from_index(i: u8) -> (r: Suit)
        requires
            i < 4,
        ensures
            r == Suit::at(i as nat),
            r.idx() == i,
    {
        if i == 0 {
            Suit::Spade
        } else if i == 1 {
            Suit::Club
        } else if i == 2 {
            Suit::Heart
        } else {
            Suit::Diamond
        }
    }

    /// The character of the suit in the two-character card text.
    pub fn to_char(&self) -> (r: char)
        ensures
            r == suit_chars()[self.idx() as int],
    {
        match self {
            Suit::Spade => 's',
            Suit::Club => 'c',
            Suit::Heart => 'h',
            Suit::Diamond => 'd',
        }
    }

    /// The suit written by `c`, if `c` is one of `schd`.
    pub fn from_char(c: char) -> (r: Option<Suit>)
        ensures
            r is Some <==> suit_chars().contains(c),
            r matches Some(s) ==> suit_chars()[s.idx() as int] == c,
    {
        assert(suit_chars()[0] == 's' && suit_chars()[1] == 'c' && suit_chars()[2] == 'h'
            && suit_chars()[3] == 'd');
        if c == 's' {
            Some(Suit::Spade)
        } else if c == 'c' {
            Some(Suit::Club)
        } else if c == 'h' {
            Some(Suit::Heart)
        } else if c == 'd' {
            Some(Suit::Diamond)
        } else {
            None
        }
    }
}

/// Position of a card in the canonical deck order: by value, then by suit.
pub open spec fn card_pos(c: Card) -> nat {
    4 * c.value.idx() + c.suit.idx()
}

/// The card at a position in 0..52 of the canonical deck order.
pub open spec fn card_at(k: nat) -> Card {
    Card { value: Value::at(k / 4), suit: Suit::at(k % 4) }
}

pub proof fn lemma_card_pos(c: Card)
    ensures
        card_pos(c) < 52,
        card_at(card_pos(c)) == c,
{
}

pub proof fn lemma_card_at(k: nat)
    requires
        k < 52,
    ensures
        card_pos(card_at(k)) == k,
{
}

impl Card {
    pub fn new(value: Value, suit: Suit) -> (r: Card)
        ensures
            r.value == value,
            r.suit == suit,
    {
        Card { value, suit }
    }
}

} // verus!
