//! The deck of 52 cards and what is left of it once some cards are taken.

use crate::card::{Card, Number, Suit};
use crate::hand::card_at;
use vstd::prelude::*;

verus! {

/// The card at the given position of the full deck: the suits follow each
/// other, and within a suit the ranks rise from the two to the ace.
pub open spec fn card_number(position: int) -> Card {
    card_at(position / 13, position % 13 + 2)
}

/// The first `count` cards of the full deck, in order, without the cards of
/// `taken`.
pub open spec fn deck_without(taken: Seq<Card>, count: int) -> Seq<Card>
    decreases count,
{
    if count <= 0 {
        Seq::empty()
    } else {
        let rest = deck_without(taken, count - 1);
        if taken.contains(card_number(count - 1)) {
            rest
        } else {
            rest.push(card_number(count - 1))
        }
    }
}

/// The full deck, in order, without the cards of `taken`.
pub open spec fn remaining_deck(taken: Seq<Card>) -> Seq<Card> {
    deck_without(taken, 52)
}

/// How many of the first `count` cards of the full deck are in `taken`.
pub open spec fn taken_below(taken: Seq<Card>, count: int) -> int
    decreases count,
{
    if count <= 0 {
        0
    } else {
        taken_below(taken, count - 1) + if taken.contains(card_number(count - 1)) {
            1int
        } else {
            0int
        }
    }
}

/// The position of a well-formed card in the full deck.
pub open spec fn position_of(card: Card) -> int {
    13 * card.spec_suit().spec_index() + card.spec_number().spec_value() - 2
}

/// The 52 positions hold 52 different cards, each well formed.
pub proof fn lemma_card_number(position: int)
    requires
        0 <= position < 52,
    ensures
        card_number(position).well_formed(),
        position_of(card_number(position)) == position,
{
    Card::lemma_new(
        Suit::spec_from_u8((position / 13) as u8),
        Number::spec_from_u8((position % 13 + 2) as u8),
    );
}

/// Every well-formed card has its position in the full deck.
pub proof fn lemma_position_of(card: Card)
    requires
        card.well_formed(),
    ensures
        0 <= position_of(card) < 52,
        card_number(position_of(card)) == card,
{
    card.lemma_determined();
    card.spec_suit().lemma_from_index();
    card.spec_number().lemma_from_value();
}

/// What is left of the deck holds no taken card and no card twice, and each
/// of its cards is a card of the full deck.
pub proof fn lemma_deck_without(taken: Seq<Card>, count: int)
    requires
        count <= 52,
    ensures
        deck_without(taken, count).no_duplicates(),
        forall|k: int|
            0 <= k < deck_without(taken, count).len() ==> {
                let card = #[trigger] deck_without(taken, count)[k];
                &&& card.well_formed()
                &&& 0 <= position_of(card) < count
                &&& !taken.contains(card)
            },
        deck_without(taken, count).len() + taken_below(taken, count) == if count <= 0 {
            0
        } else {
            count
        },
    decreases count,
{
    if count > 0 {
        lemma_deck_without(taken, count - 1);
        lemma_card_number(count - 1);
    }
}

/// Taking one more card, which is not yet taken, takes one more of the
/// first `count` cards where its position is among them.
proof fn lemma_taken_below_push(taken: Seq<Card>, card: Card, count: int)
    requires
        card.well_formed(),
        !taken.contains(card),
        count <= 52,
    ensures
        taken_below(taken.push(card), count) == taken_below(taken, count) + if position_of(card)
            < count {
            1int
        } else {
            0int
        },
    decreases count,
{
    lemma_position_of(card);
    if count > 0 {
        lemma_taken_below_push(taken, card, count - 1);
        lemma_card_number(count - 1);
        let next = card_number(count - 1);
        if taken.contains(next) {
            let k = choose|k: int| 0 <= k < taken.len() && taken[k] == next;
            assert(taken.push(card)[k] == next);
        }
        if next == card {
            assert(taken.push(card)[taken.len() as int] == next);
        }
    }
}

/// Of the 52 cards, as many are taken as `taken` holds.
proof fn lemma_taken_total(taken: Seq<Card>)
    requires
        taken.no_duplicates(),
        forall|k: int| 0 <= k < taken.len() ==> (#[trigger] taken[k]).well_formed(),
    ensures
        taken_below(taken, 52) == taken.len(),
    decreases taken.len(),
{
    if taken.len() == 0 {
        lemma_nothing_taken(taken, 52);
    } else {
        let before = taken.drop_last();
        let card = taken.last();
        assert(taken == before.push(card));
        lemma_taken_total(before);
        if before.contains(card) {
            let k = choose|k: int| 0 <= k < before.len() && before[k] == card;
            assert(taken[k] == taken[taken.len() - 1]);
        }
        lemma_position_of(card);
        lemma_taken_below_push(before, card, 52);
    }
}

proof fn lemma_nothing_taken(taken: Seq<Card>, count: int)
    requires
        taken.len() == 0,
    ensures
        taken_below(taken, count) == 0,
    decreases count,
{
    if count > 0 {
        lemma_nothing_taken(taken, count - 1);
    }
}

/// Where no card is taken twice, the deck is left with 52 cards less the
/// taken ones.
pub proof fn lemma_remaining_len(taken: Seq<Card>)
    requires
        taken.no_duplicates(),
        forall|k: int| 0 <= k < taken.len() ==> (#[trigger] taken[k]).well_formed(),
    ensures
        remaining_deck(taken).len() + taken.len() == 52,
{
    lemma_deck_without(taken, 52);
    lemma_taken_total(taken);
}

/// Whether `card` is among `cards`.
fn contains_card(cards: &Vec<Card>, card: Card) -> (found: bool)
    ensures
        found == cards@.contains(card),
{
    let mut index: usize = 0;
    while index < cards.len()
        invariant
            index <= cards.len(),
            forall|k: int| 0 <= k < index ==> cards@[k] != card,
        decreases cards.len() - index,
    {
        if cards[index] == card {
            return true;
        }
        index = index + 1;
    }
    false
}

/// The cards of the full deck, in order, that are not among `taken`.
pub(crate) fn deal_remaining(taken: &Vec<Card>) -> (deck: Vec<Card>)
    ensures
        deck@ == remaining_deck(taken@),
{
    let mut deck: Vec<Card> = Vec::new();
    let mut suit: u8 = 0;
    while suit < 4
        invariant
            suit <= 4,
            deck@ == deck_without(taken@, 13 * suit),
        decreases 4 - suit,
    {
        let mut number: u8 = 2;
        while number <= 14
            invariant
                suit < 4,
                2 <= number <= 15,
                deck@ == deck_without(taken@, 13 * suit + number - 2),
            decreases 15 - number,
        {
            let card = Card::new(Suit::from_u8(suit), Number::from_u8(number));
            assert(card == card_number(13 * suit + number - 2));
            if !contains_card(taken, card) {
                deck.push(card);
            }
            number = number + 1;
        }
        suit = suit + 1;
    }
    deck
}

} // verus!
