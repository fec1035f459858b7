//! The value of a poker hand: its category and up to three tiebreak bytes,
//! ordered by category first and then byte by byte.

use crate::card::Number;
use std::cmp::Ordering;
use vstd::prelude::*;
use vstd::std_specs::cmp::PartialOrdSpecImpl;

verus! {

/// The nine hand categories, from the weakest to the strongest.
#[derive(Clone, Copy, Debug, PartialEq, Eq, PartialOrd, Ord, Structural)]
pub enum HandKind {
    HighCard,
    Pair,
    TwoPair,
    ThreeOfAKind,
    Straight,
    Flush,
    FullHouse,
    FourOfAKind,
    StraightFlush,
}

impl HandKind {
    /// The category's strength, from 0 for a high card to 8 for a straight
    /// flush.
    pub open spec fn spec_strength(self) -> u8 {
        match self {
            HandKind::HighCard => 0,
            HandKind::Pair => 1,
            HandKind::TwoPair => 2,
            HandKind::ThreeOfAKind => 3,
            HandKind::Straight => 4,
            HandKind::Flush => 5,
            HandKind::FullHouse => 6,
            HandKind::FourOfAKind => 7,
            HandKind::StraightFlush => 8,
        }
    }

    /// The category's strength, from 0 for a high card to 8 for a straight
    /// flush.
    #[verifier::when_used_as_spec(spec_strength)]
    pub fn strength(self) -> (level: u8)
        ensures
            level == self.spec_strength(),
    {
        match self {
            HandKind::HighCard => 0,
            HandKind::Pair => 1,
            HandKind::TwoPair => 2,
            HandKind::ThreeOfAKind => 3,
            HandKind::Straight => 4,
            HandKind::Flush => 5,
            HandKind::FullHouse => 6,
            HandKind::FourOfAKind => 7,
            HandKind::StraightFlush => 8,
        }
    }
}

/// The value of a hand. Two values of one category are told apart by their
/// tiebreak bytes alone; two of different categories by the category alone.
#[derive(Clone, Copy, Debug, PartialEq, Eq, Ord, Structural)]
pub struct HandEvaluation {
    kind: HandKind,
    first: u8,
    second: u8,
    third: u8,
}

/// The high byte of a rank bitset.
pub open spec fn high_byte(cards: u16) -> u8 {
    (cards >> 8) as u8
}

/// The low byte of a rank bitset.
pub open spec fn low_byte(cards: u16) -> u8 {
    (cards & 0xFF) as u8
}

proof fn lemma_bytes_fit(cards: u16)
    ensures
        cards >> 8 <= 0xFF,
        cards & 0xFF <= 0xFF,
{
    assert(cards >> 8 <= 0xFF && cards & 0xFF <= 0xFF) by (bit_vector);
}

impl HandEvaluation {
    /// The value with the given category and tiebreak bytes.
    pub closed spec fn from_parts(kind: HandKind, first: u8, second: u8, third: u8) -> Self {
        HandEvaluation { kind, first, second, third }
    }

    /// The category.
    pub closed spec fn kind(self) -> HandKind {
        self.kind
    }

    /// The three tiebreak bytes, the most significant first.
    pub closed spec fn tiebreaks(self) -> (u8, u8, u8) {
        (self.first, self.second, self.third)
    }

    /// A value is made of its category and its tiebreak bytes, and of
    /// nothing else.
    pub proof fn lemma_parts(kind: HandKind, first: u8, second: u8, third: u8)
        ensures
            Self::from_parts(kind, first, second, third).kind() == kind,
            Self::from_parts(kind, first, second, third).tiebreaks() == (first, second, third),
    {
    }

    /// Two values with the same category and the same tiebreak bytes are
    /// equal.
    pub proof fn lemma_equal_parts(self, other: Self)
        requires
            self.kind() == other.kind(),
            self.tiebreaks() == other.tiebreaks(),
        ensures
            self == other,
    {
    }

    /// Whether this value is strictly weaker than `other`: a weaker
    /// category, or the same category and tiebreak bytes that come first in
    /// lexicographic order.
    pub open spec fn weaker_than(self, other: Self) -> bool {
        let a = self.tiebreaks();
        let b = other.tiebreaks();
        self.kind().strength() < other.kind().strength() || (self.kind() == other.kind() && (a.0
            < b.0 || (a.0 == b.0 && (a.1 < b.1 || (a.1 == b.1 && a.2 < b.2)))))
    }

    /// The value of a straight flush up to `high_card`.
    pub open spec fn spec_new_straight_flush(high_card: Number) -> Self {
        Self::from_parts(HandKind::StraightFlush, high_card.value(), 0, 0)
    }

    /// A straight flush up to `high_card`.
    #[must_use]
    #[verifier::when_used_as_spec(spec_new_straight_flush)]
    pub fn new_straight_flush(high_card: Number) -> (evaluation: Self)
        ensures
            evaluation == Self::spec_new_straight_flush(high_card),
    {
        Self { kind: HandKind::StraightFlush, first: high_card.value(), second: 0, third: 0 }
    }

    /// The value of four cards of rank `high_card` with `kicker`.
    pub open spec fn spec_new_four_of_a_kind(high_card: Number, kicker: Number) -> Self {
        Self::from_parts(HandKind::FourOfAKind, high_card.value(), kicker.value(), 0)
    }

    /// Four cards of rank `high_card`, with `kicker` as the fifth card.
    #[must_use]
    #[verifier::when_used_as_spec(spec_new_four_of_a_kind)]
    pub fn new_four_of_a_kind(high_card: Number, kicker: Number) -> (evaluation: Self)
        ensures
            evaluation == Self::spec_new_four_of_a_kind(high_card, kicker),
    {
        Self {
            kind: HandKind::FourOfAKind,
            first: high_card.value(),
            second: kicker.value(),
            third: 0,
        }
    }

    /// The value of three cards of rank `high_card` and two of rank `low_card`.
    pub open spec fn spec_new_full_house(high_card: Number, low_card: Number) -> Self {
        Self::from_parts(HandKind::FullHouse, high_card.value(), low_card.value(), 0)
    }

    /// Three cards of rank `high_card` and two of rank `low_card`.
    #[must_use]
    #[verifier::when_used_as_spec(spec_new_full_house)]
    pub fn new_full_house(high_card: Number, low_card: Number) -> (evaluation: Self)
        ensures
            evaluation == Self::spec_new_full_house(high_card, low_card),
    {
        Self {
            kind: HandKind::FullHouse,
            first: high_card.value(),
            second: low_card.value(),
            third: 0,
        }
    }

    /// The value of a flush: the rank set in two bytes, the high byte first.
    pub open spec fn spec_new_flush(cards: u16) -> Self {
        Self::from_parts(HandKind::Flush, high_byte(cards), low_byte(cards), 0)
    }

    /// A flush whose five ranks are the bits of `cards`.
    #[must_use]
    #[verifier::when_used_as_spec(spec_new_flush)]
    pub fn new_flush(cards: u16) -> (evaluation: Self)
        ensures
            evaluation == Self::spec_new_flush(cards),
    {
        proof {
            lemma_bytes_fit(cards);
        }
        Self { kind: HandKind::Flush, first: (cards >> 8) as u8, second: (cards & 0xFF) as u8, third: 0 }
    }

    /// The value of a straight up to `high_card`.
    pub open spec fn spec_new_straight(high_card: Number) -> Self {
        Self::from_parts(HandKind::Straight, high_card.value(), 0, 0)
    }

    /// A straight up to `high_card`.
    #[must_use]
    #[verifier::when_used_as_spec(spec_new_straight)]
    pub fn new_straight(high_card: Number) -> (evaluation: Self)
        ensures
            evaluation == Self::spec_new_straight(high_card),
    {
        Self { kind: HandKind::Straight, first: high_card.value(), second: 0, third: 0 }
    }

    /// The value of three cards of rank `high_card`, then the set of the
    /// kickers in two bytes.
    pub open spec fn spec_new_three_of_a_kind(high_card: Number, kickers: u16) -> Self {
        Self::from_parts(
            HandKind::ThreeOfAKind,
            high_card.value(),
            high_byte(kickers),
            low_byte(kickers),
        )
    }

    /// Three cards of rank `high_card`; the bits of `kickers` are the ranks
    /// of the other two cards.
    #[must_use]
    #[verifier::when_used_as_spec(spec_new_three_of_a_kind)]
    pub fn new_three_of_a_kind(high_card: Number, kickers: u16) -> (evaluation: Self)
        ensures
            evaluation == Self::spec_new_three_of_a_kind(high_card, kickers),
    {
        proof {
            lemma_bytes_fit(kickers);
        }
        Self {
            kind: HandKind::ThreeOfAKind,
            first: high_card.value(),
            second: (kickers >> 8) as u8,
            third: (kickers & 0xFF) as u8,
        }
    }

    /// The value of two pairs, the higher first, then the kicker.
    pub open spec fn spec_new_two_pair(high_card: Number, low_card: Number, kicker: Number) -> Self {
        Self::from_parts(HandKind::TwoPair, high_card.value(), low_card.value(), kicker.value())
    }

    /// A pair of rank `high_card`, a pair of rank `low_card`, and `kicker`
    /// as the fifth card.
    #[must_use]
    #[verifier::when_used_as_spec(spec_new_two_pair)]
    pub fn new_two_pair(high_card: Number, low_card: Number, kicker: Number) -> (evaluation: Self)
        ensures
            evaluation == Self::spec_new_two_pair(high_card, low_card, kicker),
    {
        Self {
            kind: HandKind::TwoPair,
            first: high_card.value(),
            second: low_card.value(),
            third: kicker.value(),
        }
    }

    /// The value of a pair of rank `high_card`, then the set of the kickers in
    /// two bytes.
    pub open spec fn spec_new_pair(high_card: Number, kickers: u16) -> Self {
        Self::from_parts(HandKind::Pair, high_card.value(), high_byte(kickers), low_byte(kickers))
    }

    /// A pair of rank `high_card`; the bits of `kickers` are the ranks of
    /// the other three cards.
    #[must_use]
    #[verifier::when_used_as_spec(spec_new_pair)]
    pub fn new_pair(high_card: Number, kickers: u16) -> (evaluation: Self)
        ensures
            evaluation == Self::spec_new_pair(high_card, kickers),
    {
        proof {
            lemma_bytes_fit(kickers);
        }
        Self {
            kind: HandKind::Pair,
            first: high_card.value(),
            second: (kickers >> 8) as u8,
            third: (kickers & 0xFF) as u8,
        }
    }

    /// The value of a high card hand: the rank set in two bytes, the high byte
    /// first.
    pub open spec fn spec_new_high_card(cards: u16) -> Self {
        Self::from_parts(HandKind::HighCard, high_byte(cards), low_byte(cards), 0)
    }

    /// No pair, straight or flush; the bits of `cards` are the five ranks.
    #[must_use]
    #[verifier::when_used_as_spec(spec_new_high_card)]
    pub fn new_high_card(cards: u16) -> (evaluation: Self)
        ensures
            evaluation == Self::spec_new_high_card(cards),
    {
        proof {
            lemma_bytes_fit(cards);
        }
        Self {
            kind: HandKind::HighCard,
            first: (cards >> 8) as u8,
            second: (cards & 0xFF) as u8,
            third: 0,
        }
    }

    /// Of two values exactly one holds: the first is weaker, the second is
    /// weaker, or they are equal.
    pub proof fn lemma_trichotomy(self, other: Self)
        ensures
            self.weaker_than(other) || other.weaker_than(self) || self == other,
            !(self.weaker_than(other) && other.weaker_than(self)),
            !(self.weaker_than(other) && self == other),
            !(other.weaker_than(self) && self == other),
    {
        if self.kind().strength() == other.kind().strength() {
            assert(self.kind() == other.kind());
        }
    }

    /// The order is transitive.
    pub proof fn lemma_transitive(self, middle: Self, other: Self)
        requires
            self.weaker_than(middle),
            middle.weaker_than(other),
        ensures
            self.weaker_than(other),
    {
    }
}

impl PartialOrd for HandEvaluation {
    fn partial_cmp(&self, other: &Self) -> (order: Option<Ordering>) {
        let own: u8 = self.kind.strength();
        let their: u8 = other.kind.strength();
        if own < their {
            Some(Ordering::Less)
        } else if own > their {
            Some(Ordering::Greater)
        } else if self.first < other.first {
            Some(Ordering::Less)
        } else if self.first > other.first {
            Some(Ordering::Greater)
        } else if self.second < other.second {
            Some(Ordering::Less)
        } else if self.second > other.second {
            Some(Ordering::Greater)
        } else if self.third < other.third {
            Some(Ordering::Less)
        } else if self.third > other.third {
            Some(Ordering::Greater)
        } else {
            Some(Ordering::Equal)
        }
    }
}

impl PartialOrdSpecImpl for HandEvaluation {
    open spec fn obeys_partial_cmp_spec() -> bool {
        true
    }

    open spec fn partial_cmp_spec(&self, other: &Self) -> Option<Ordering> {
        if self.weaker_than(*other) {
            Some(Ordering::Less)
        } else if other.weaker_than(*self) {
            Some(Ordering::Greater)
        } else {
            Some(Ordering::Equal)
        }
    }
}

} // verus!
