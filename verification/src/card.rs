//! Suits, ranks and the packed playing card.

use vstd::prelude::*;

verus! {

/// The four suits. They carry no order; a suit only groups cards.
#[derive(Clone, Copy, Debug, PartialEq, Eq, Structural)]
pub enum Suit {
    Hearts,
    Diamonds,
    Clubs,
    Spades,
}

impl Suit {
    /// The suit's numeric code, from 0 for hearts to 3 for spades.
    pub open spec fn spec_index(self) -> u8 {
        match self {
            Suit::Hearts => 0,
            Suit::Diamonds => 1,
            Suit::Clubs => 2,
            Suit::Spades => 3,
        }
    }

    /// The suit's numeric code, from 0 for hearts to 3 for spades.
    #[verifier::when_used_as_spec(spec_index)]
    pub fn index(self) -> (code: u8)
        ensures
            code == self.spec_index(),
            code <= 3,
    {
        match self {
            Suit::Hearts => 0,
            Suit::Diamonds => 1,
            Suit::Clubs => 2,
            Suit::Spades => 3,
        }
    }

    /// A suit is the suit of its code.
    pub proof fn lemma_from_index(self)
        ensures
            Suit::spec_from_u8(self.spec_index()) == self,
    {
    }

    /// The suit with the given code. Codes above 3 stand for no suit; to keep
    /// this function total they are read as spades.
    pub open spec fn spec_from_u8(value: u8) -> Suit {
        if value == 0 {
            Suit::Hearts
        } else if value == 1 {
            Suit::Diamonds
        } else if value == 2 {
            Suit::Clubs
        } else {
            Suit::Spades
        }
    }

    /// The suit with the given code.
    #[must_use]
    #[verifier::when_used_as_spec(spec_from_u8)]
    pub fn from_u8(value: u8) -> (suit: Suit)
        requires
            value <= 3,
        ensures
            suit == Suit::spec_from_u8(value),
            suit.index() == value,
    {
        if value == 0 {
            Suit::Hearts
        } else if value == 1 {
            Suit::Diamonds
        } else if value == 2 {
            Suit::Clubs
        } else {
            Suit::Spades
        }
    }
}

/// The thirteen ranks, from the two up to the ace.
#[derive(Clone, Copy, Debug, PartialEq, Eq, PartialOrd, Ord, Structural)]
pub enum Number {
    Two,
    Three,
    Four,
    Five,
    Six,
    Seven,
    Eight,
    Nine,
    Ten,
    Jack,
    Queen,
    King,
    Ace,
}

impl Number {
    /// The rank's numeric value, from 2 for the two to 14 for the ace.
    pub open spec fn spec_value(self) -> u8 {
        match self {
            Number::Two => 2,
            Number::Three => 3,
            Number::Four => 4,
            Number::Five => 5,
            Number::Six => 6,
            Number::Seven => 7,
            Number::Eight => 8,
            Number::Nine => 9,
            Number::Ten => 10,
            Number::Jack => 11,
            Number::Queen => 12,
            Number::King => 13,
            Number::Ace => 14,
        }
    }

    /// The rank's numeric value, from 2 for the two to 14 for the ace.
    #[verifier::when_used_as_spec(spec_value)]
    pub fn value(self) -> (code: u8)
        ensures
            code == self.spec_value(),
            2 <= code <= 14,
    {
        match self {
            Number::Two => 2,
            Number::Three => 3,
            Number::Four => 4,
            Number::Five => 5,
            Number::Six => 6,
            Number::Seven => 7,
            Number::Eight => 8,
            Number::Nine => 9,
            Number::Ten => 10,
            Number::Jack => 11,
            Number::Queen => 12,
            Number::King => 13,
            Number::Ace => 14,
        }
    }

    /// The rank with the given value. Values outside 2..=14 stand for no rank;
    /// to keep this function total they are read as the ace.
    pub open spec fn spec_from_u8(value: u8) -> Number {
        if value == 2 {
            Number::Two
        } else if value == 3 {
            Number::Three
        } else if value == 4 {
            Number::Four
        } else if value == 5 {
            Number::Five
        } else if value == 6 {
            Number::Six
        } else if value == 7 {
            Number::Seven
        } else if value == 8 {
            Number::Eight
        } else if value == 9 {
            Number::Nine
        } else if value == 10 {
            Number::Ten
        } else if value == 11 {
            Number::Jack
        } else if value == 12 {
            Number::Queen
        } else if value == 13 {
            Number::King
        } else {
            Number::Ace
        }
    }

    /// The rank with the given value.
    #[must_use]
    #[verifier::when_used_as_spec(spec_from_u8)]
    pub fn from_u8(value: u8) -> (number: Number)
        requires
            2 <= value <= 14,
        ensures
            number == Number::spec_from_u8(value),
            number.value() == value,
    {
        if value == 2 {
            Number::Two
        } else if value == 3 {
            Number::Three
        } else if value == 4 {
            Number::Four
        } else if value == 5 {
            Number::Five
        } else if value == 6 {
            Number::Six
        } else if value == 7 {
            Number::Seven
        } else if value == 8 {
            Number::Eight
        } else if value == 9 {
            Number::Nine
        } else if value == 10 {
            Number::Ten
        } else if value == 11 {
            Number::Jack
        } else if value == 12 {
            Number::Queen
        } else if value == 13 {
            Number::King
        } else {
            Number::Ace
        }
    }

    /// A rank is the rank of its value.
    pub proof fn lemma_from_value(self)
        ensures
            Number::spec_from_u8(self.spec_value()) == self,
    {
    }

    /// The one-bit mask of this rank in a rank bitset: bit `value()` is set.
    pub open spec fn spec_as_bit(self) -> u16 {
        1u16 << (self.spec_value() as u16)
    }

    /// The one-bit mask of this rank in a rank bitset: bit `value()` is set.
    #[must_use]
    #[verifier::when_used_as_spec(spec_as_bit)]
    pub fn as_bit(self) -> (bit: u16)
        ensures
            bit == self.spec_as_bit(),
    {
        1u16 << (self.value() as u16)
    }
}

/// A playing card: the suit's code in the high four bits of one byte, the
/// rank's value in the low four.
#[derive(Clone, Copy, PartialEq, Eq, Structural)]
pub struct Card {
    value: u8,
}

impl Card {
    /// Every card in executable code holds the code of a suit and the value
    /// of a rank.
    #[verifier::type_invariant]
    pub closed spec fn well_formed(self) -> bool {
        (self.value >> 4) <= 3 && 2 <= (self.value & 0xF) <= 14
    }

    /// The card's suit.
    pub closed spec fn spec_suit(self) -> Suit {
        Suit::spec_from_u8(self.value >> 4)
    }

    /// The card's rank.
    pub closed spec fn spec_number(self) -> Number {
        Number::spec_from_u8(self.value & 0xF)
    }

    /// The card of the given suit and rank.
    pub closed spec fn spec_new(suit: Suit, number: Number) -> Card {
        Card { value: (suit.spec_index() << 4) | number.spec_value() }
    }

    /// The card of the given suit and rank.
    #[must_use]
    #[verifier::when_used_as_spec(spec_new)]
    pub fn new(suit: Suit, number: Number) -> (card: Card)
        ensures
            card == Card::spec_new(suit, number),
            card.well_formed(),
            card.suit() == suit,
            card.number() == number,
    {
        let s: u8 = suit.index();
        let n: u8 = number.value();
        proof {
            lemma_pack(s, n);
        }
        Card { value: (s << 4) | n }
    }

    /// The card's rank.
    #[must_use]
    #[verifier::when_used_as_spec(spec_number)]
    pub fn number(self) -> (number: Number)
        ensures
            number == self.spec_number(),
    {
        proof {
            use_type_invariant(self);
        }
        Number::from_u8(self.value & 0xF)
    }

    /// The card's suit.
    #[must_use]
    #[verifier::when_used_as_spec(spec_suit)]
    pub fn suit(self) -> (suit: Suit)
        ensures
            suit == self.spec_suit(),
    {
        proof {
            use_type_invariant(self);
        }
        Suit::from_u8(self.value >> 4)
    }

    /// A well-formed card is the card of its suit and rank, so two
    /// well-formed cards with the same suit and rank are equal.
    pub proof fn lemma_determined(self)
        requires
            self.well_formed(),
        ensures
            self == Card::spec_new(self.spec_suit(), self.spec_number()),
    {
        let v = self.value;
        assert(((v >> 4) << 4) | (v & 0xF) == v) by (bit_vector);
    }

    /// The card made of a suit and a rank is well formed and has that suit
    /// and that rank.
    pub proof fn lemma_new(suit: Suit, number: Number)
        ensures
            Card::spec_new(suit, number).well_formed(),
            Card::spec_new(suit, number).spec_suit() == suit,
            Card::spec_new(suit, number).spec_number() == number,
    {
        lemma_pack(suit.spec_index(), number.spec_value());
    }
}

/// `std::fmt::Formatter`, which receives the debug form of a card. Nothing
/// is stated of it.
#[verifier::external_type_specification]
#[verifier::external_body]
pub struct ExFormatter<'a>(std::fmt::Formatter<'a>);

/// `std::fmt::Error`, with which writing to a formatter fails. Nothing is
/// stated of it.
#[verifier::external_type_specification]
#[verifier::external_body]
pub struct ExFmtError(std::fmt::Error);

impl std::fmt::Debug for Card {
    /// Writes the card with the names of its suit and its rank, as in
    /// `Card { suit: Hearts, number: Ace }`. The text goes through `write!`
    /// of std; no contract states what is written.
    #[verifier::external_body]
    fn fmt(&self, f: &mut std::fmt::Formatter<'_>) -> std::fmt::Result {
        write!(f, "Card {{ suit: {:?}, number: {:?} }}", self.suit(), self.number())
    }
}

proof fn lemma_pack(s: u8, n: u8)
    requires
        s <= 3,
        2 <= n <= 14,
    ensures
        ((s << 4) | n) >> 4 == s,
        ((s << 4) | n) & 0xF == n,
{
    assert(s <= 3 && n <= 14 ==> ((s << 4) | n) >> 4 == s && ((s << 4) | n) & 0xF == n)
        by (bit_vector);
}

} // verus!
