//! What the value of a hand says about the cards: seven cards are counted
//! once each, the lowest straight is the wheel, and two sets of three make a
//! full house.

use crate::card::{Card, Number, Suit};
use crate::evaluation::HandEvaluation;
use crate::hand::{
    all_ranks, card_at, flush_suit_from, full_house_ranks, hand_value, highest_pair_beside,
    highest_with_count, is_hand, lemma_all_ranks, lemma_highest_pair_beside,
    lemma_highest_with_count, lemma_seven_cards, lemma_suit_ranks, rank_count, rank_count_sum,
    rank_counts, rank_sets, seven_cards, straight_flush_high_from, suit_ranks,
};
use crate::ranks::{
    count_ranks, has_rank, is_run, lemma_count_with, lemma_equal_sets, lemma_rank_algebra,
    number_of, only_ranks, rank_total, straight_high, straight_high_up_to,
};
use vstd::prelude::*;

verus! {

/// Whether every card is well formed.
pub open spec fn well_formed_cards(cards: Seq<Card>) -> bool {
    forall|j: int| 0 <= j < cards.len() ==> (#[trigger] cards[j]).well_formed()
}

/// How many of the cards have the rank of value `rank`.
pub open spec fn cards_of_rank(cards: Seq<Card>, rank: int) -> int {
    rank_count(rank_sets(cards), rank)
}

/// How many of the cards have the suit with code `suit`.
pub open spec fn cards_of_suit(cards: Seq<Card>, suit: int) -> nat {
    rank_total(rank_sets(cards)[suit])
}

/// A well-formed card is the card of one suit and one rank only.
proof fn lemma_card_at(card: Card, suit: int, rank: int)
    requires
        card.well_formed(),
        0 <= suit <= 3,
        2 <= rank <= 14,
    ensures
        (card_at(suit, rank) == card) == (card.spec_suit().spec_index() == suit
            && card.spec_number().spec_value() == rank),
        0 <= card.spec_suit().spec_index() <= 3,
        2 <= card.spec_number().spec_value() <= 14,
{
    Card::lemma_new(Suit::spec_from_u8(suit as u8), Number::spec_from_u8(rank as u8));
    card.lemma_determined();
    card.spec_suit().lemma_from_index();
    card.spec_number().lemma_from_value();
}

/// The first `count` cards are counted once each by the sizes of the four
/// suits.
proof fn lemma_cards_counted(cards: Seq<Card>, count: int)
    requires
        cards.no_duplicates(),
        well_formed_cards(cards),
        0 <= count <= cards.len(),
    ensures
        cards_of_suit(cards.take(count), 0) + cards_of_suit(cards.take(count), 1) + cards_of_suit(
            cards.take(count),
            2,
        ) + cards_of_suit(cards.take(count), 3) == count,
    decreases count,
{
    let now = cards.take(count).to_set();
    if count == 0 {
        assert forall|s: int| 0 <= s < 4 implies cards_of_suit(cards.take(count), s) == 0 by {
            lemma_suit_ranks(now, s);
            lemma_rank_algebra(0, 0, 0);
            lemma_equal_sets(suit_ranks(now, s), 0);
            crate::ranks::lemma_empty_total();
        }
    } else {
        lemma_cards_counted(cards, count - 1);
        let earlier = cards.take(count - 1);
        let current = cards.take(count);
        let before = earlier.to_set();
        let card = cards[count - 1];
        let suit = card.spec_suit().spec_index() as int;
        let rank = card.spec_number().spec_value() as int;
        assert forall|other: Card| now.contains(other) == (before.contains(other) || other
            == card) by {
            if now.contains(other) {
                let j = choose|j: int| 0 <= j < current.len() && current[j] == other;
                if j < count - 1 {
                    assert(earlier[j] == other);
                }
            }
            if before.contains(other) {
                let j = choose|j: int| 0 <= j < earlier.len() && earlier[j] == other;
                assert(current[j] == other);
            }
            if other == card {
                assert(current[count - 1] == other);
            }
        }
        if before.contains(card) {
            let j = choose|j: int| 0 <= j < earlier.len() && earlier[j] == card;
            assert(cards[j] == cards[count - 1]);
        }
        assert forall|s: int| 0 <= s < 4 implies cards_of_suit(cards.take(count), s)
            == cards_of_suit(cards.take(count - 1), s) + if s == suit {
            1nat
        } else {
            0nat
        } by {
            let old_set = suit_ranks(before, s);
            let new_set = suit_ranks(now, s);
            lemma_suit_ranks(before, s);
            lemma_suit_ranks(now, s);
            assert forall|r: int| 2 <= r <= 14 implies (card_at(s, r) == card) == (s == suit && r
                == rank) by {
                lemma_card_at(card, s, r);
            }
            lemma_card_at(card, 0, 2);
            if s == suit {
                lemma_rank_algebra(old_set, 1u16 << (rank as u16), rank);
                lemma_equal_sets(new_set, old_set | (1u16 << (rank as u16)));
                assert(!has_rank(old_set, rank));
                lemma_count_with(old_set, rank, 0, 16);
            } else {
                lemma_equal_sets(new_set, old_set);
            }
        }
        lemma_card_at(card, 0, 2);
    }
}

/// Seven cards of one deck make four rank sets of seven ranks in all.
pub proof fn lemma_hand_has_seven_cards(cards: Seq<Card>)
    requires
        is_hand(cards),
        well_formed_cards(cards),
    ensures
        seven_cards(rank_sets(cards)),
        rank_count_sum(rank_sets(cards), 16) == 7,
{
    lemma_cards_counted(cards, 7);
    assert(cards.take(7) == cards);
    let suits = rank_sets(cards);
    assert forall|s: int| 0 <= s < 4 implies only_ranks(#[trigger] suits[s]) by {
        lemma_suit_ranks(cards.to_set(), s);
    }
    lemma_seven_cards(suits);
}

/// The cards are counted rank by rank.
proof fn lemma_sum_of_ranks(suits: Seq<u16>)
    ensures
        rank_count_sum(suits, 16) == rank_count(suits, 0) + rank_count(suits, 1) + rank_count(
            suits,
            2,
        ) + rank_count(suits, 3) + rank_count(suits, 4) + rank_count(suits, 5) + rank_count(
            suits,
            6,
        ) + rank_count(suits, 7) + rank_count(suits, 8) + rank_count(suits, 9) + rank_count(
            suits,
            10,
        ) + rank_count(suits, 11) + rank_count(suits, 12) + rank_count(suits, 13) + rank_count(
            suits,
            14,
        ) + rank_count(suits, 15),
        forall|r: int| 0 <= #[trigger] rank_count(suits, r) <= 4,
{
    reveal_with_fuel(rank_count_sum, 17);
    lemma_all_ranks(suits);
}

/// A rank is one of the thirteen.
spec fn is_rank(rank: int) -> bool {
    rank == 2 || rank == 3 || rank == 4 || rank == 5 || rank == 6 || rank == 7 || rank == 8
        || rank == 9 || rank == 10 || rank == 11 || rank == 12 || rank == 13 || rank == 14
}

/// A set of fewer than five ranks holds no straight.
pub proof fn lemma_straight_needs_five(set: u16)
    requires
        rank_total(set) < 5,
    ensures
        straight_high(set) is None,
{
    reveal_with_fuel(count_ranks, 17);
    reveal_with_fuel(straight_high_up_to, 11);
}

/// Where no suit holds a straight, there is no straight flush.
proof fn lemma_no_straight_flush(suits: Seq<u16>)
    requires
        forall|s: int| 0 <= s < 4 ==> straight_high(#[trigger] suits[s]) is None,
    ensures
        straight_flush_high_from(suits, 0) is None,
{
    reveal_with_fuel(straight_flush_high_from, 5);
    assert(straight_high(suits[0]) is None);
    assert(straight_high(suits[1]) is None);
    assert(straight_high(suits[2]) is None);
    assert(straight_high(suits[3]) is None);
}

/// Where no suit holds five ranks, there is no flush.
proof fn lemma_no_flush(suits: Seq<u16>)
    requires
        forall|s: int| 0 <= s < 4 ==> rank_total(#[trigger] suits[s]) < 5,
    ensures
        flush_suit_from(suits, 0) is None,
{
    reveal_with_fuel(flush_suit_from, 5);
    assert(rank_total(suits[0]) < 5);
    assert(rank_total(suits[1]) < 5);
    assert(rank_total(suits[2]) < 5);
    assert(rank_total(suits[3]) < 5);
}

/// The ranks that a run up to `high` holds.
proof fn lemma_run_ranks(suits: Seq<u16>, high: int)
    requires
        5 <= high <= 14,
        is_run(all_ranks(suits), high),
        only_ranks(all_ranks(suits)),
    ensures
        rank_count(suits, if high == 5 {
            14
        } else {
            high - 4
        }) > 0,
        rank_count(suits, high - 3) > 0,
        rank_count(suits, high - 2) > 0,
        rank_count(suits, high - 1) > 0,
        rank_count(suits, high) > 0,
{
    lemma_all_ranks(suits);
    let ranks = all_ranks(suits);
    assert(has_rank(ranks, high - 3));
    assert(has_rank(ranks, high - 2));
    assert(has_rank(ranks, high - 1));
    assert(has_rank(ranks, high));
    if high == 5 {
        assert(has_rank(ranks, 14) || has_rank(ranks, 1));
    } else {
        assert(has_rank(ranks, high - 4));
    }
}

/// A run in one suit is a run among all ranks.
proof fn lemma_run_in_suit(suits: Seq<u16>, suit: int, high: int)
    requires
        0 <= suit < 4,
        is_run(suits[suit], high),
    ensures
        is_run(all_ranks(suits), high),
{
    lemma_rank_algebra(suits[0], suits[1], 0);
    lemma_rank_algebra(suits[0] | suits[1], suits[2], 0);
    lemma_rank_algebra(suits[0] | suits[1] | suits[2], suits[3], 0);
}

/// A set without a run holds no straight.
proof fn lemma_no_run_no_straight(set: u16)
    requires
        forall|high: int| 5 <= high <= 14 ==> !is_run(set, high),
    ensures
        straight_high(set) is None,
{
    reveal_with_fuel(straight_high_up_to, 11);
}

/// The lowest straight: seven cards that hold an ace, a two, a three, a four
/// and a five, no six and no five cards of one suit are worth a straight up
/// to the five.
pub proof fn lemma_wheel(cards: Seq<Card>)
    requires
        is_hand(cards),
        well_formed_cards(cards),
        cards_of_rank(cards, 14) > 0,
        cards_of_rank(cards, 2) > 0,
        cards_of_rank(cards, 3) > 0,
        cards_of_rank(cards, 4) > 0,
        cards_of_rank(cards, 5) > 0,
        cards_of_rank(cards, 6) == 0,
        forall|s: int| 0 <= s < 4 ==> cards_of_suit(cards, s) < 5,
    ensures
        hand_value(cards) == HandEvaluation::new_straight(Number::Five),
        hand_value(cards).weaker_than(HandEvaluation::new_straight(Number::Six)),
{
    let suits = rank_sets(cards);
    let counts = rank_counts(suits);
    let ranks = all_ranks(suits);
    lemma_hand_has_seven_cards(cards);
    lemma_seven_cards(suits);
    lemma_sum_of_ranks(suits);
    lemma_all_ranks(suits);
    assert forall|s: int| 0 <= s < 4 implies straight_high(#[trigger] suits[s]) is None by {
        assert(cards_of_suit(cards, s) < 5);
        lemma_straight_needs_five(suits[s]);
    }
    lemma_no_straight_flush(suits);
    assert forall|s: int| 0 <= s < 4 implies rank_total(#[trigger] suits[s]) < 5 by {
        assert(cards_of_suit(cards, s) < 5);
    }
    lemma_no_flush(suits);
    lemma_highest_with_count(counts, 4, 14);
    if highest_with_count(counts, 4, 14) is Some {
        let quad = highest_with_count(counts, 4, 14).unwrap();
        assert(is_rank(quad));
        assert(rank_count(suits, quad) == 4);
        assert(false);
    }
    lemma_highest_with_count(counts, 3, 14);
    if full_house_ranks(suits) is Some {
        let triple = highest_with_count(counts, 3, 14).unwrap();
        lemma_highest_pair_beside(counts, triple, 14);
        let pair = highest_pair_beside(counts, triple, 14).unwrap();
        assert(is_rank(triple));
        assert(is_rank(pair));
        assert(rank_count(suits, triple) == 3);
        assert(rank_count(suits, pair) >= 2);
        assert(false);
    }
    assert(is_run(ranks, 5));
    assert forall|high: int| 6 <= high <= 14 implies !is_run(ranks, high) by {
        if is_run(ranks, high) {
            lemma_run_ranks(suits, high);
            assert(is_rank(high));
            assert(false);
        }
    }
    reveal_with_fuel(straight_high_up_to, 11);
    assert(straight_high(ranks) == Some(5int));
    HandEvaluation::lemma_parts(crate::evaluation::HandKind::Straight, 5, 0, 0);
    HandEvaluation::lemma_parts(crate::evaluation::HandKind::Straight, 6, 0, 0);
}

/// Whether the rank sets hold seven cards, three of the rank `high` and
/// three of the lower rank `low`.
spec fn two_triplets(suits: Seq<u16>, high: int, low: int) -> bool {
    &&& rank_count_sum(suits, 16) == 7
    &&& only_ranks(all_ranks(suits))
    &&& 2 <= low < high <= 14
    &&& rank_count(suits, high) == 3
    &&& rank_count(suits, low) == 3
}

/// Two sets of three leave one card: no five ranks in a row.
proof fn lemma_two_triplets_no_run(suits: Seq<u16>, high: int, low: int, top: int)
    requires
        two_triplets(suits, high, low),
        5 <= top <= 14,
    ensures
        !is_run(all_ranks(suits), top),
{
    if is_run(all_ranks(suits), top) {
        lemma_run_ranks(suits, top);
        lemma_sum_of_ranks(suits);
        assert(is_rank(top));
        assert(is_rank(high));
        assert(is_rank(low));
        assert(false);
    }
}

/// Three ranks together have at most as many cards as there are.
proof fn lemma_three_ranks(suits: Seq<u16>, first: int, second: int, third: int, bound: int)
    requires
        0 <= first,
        0 <= second,
        0 <= third,
        first != second,
        first != third,
        second != third,
    ensures
        rank_count_sum(suits, bound) >= (if first < bound {
            rank_count(suits, first)
        } else {
            0
        }) + (if second < bound {
            rank_count(suits, second)
        } else {
            0
        }) + (if third < bound {
            rank_count(suits, third)
        } else {
            0
        }),
    decreases bound,
{
    lemma_all_ranks(suits);
    if bound > 0 {
        lemma_three_ranks(suits, first, second, third, bound - 1);
    }
}

/// Two sets of three leave one card: no other rank occurs twice.
proof fn lemma_two_triplets_no_third(suits: Seq<u16>, high: int, low: int, other: int)
    requires
        two_triplets(suits, high, low),
        2 <= other <= 14,
        other != high,
        other != low,
    ensures
        rank_count(suits, other) <= 1,
{
    lemma_three_ranks(suits, high, low, other, 16);
}

/// Two sets of three: seven cards with three cards of the rank `high` and
/// three of the lower rank `low` are worth a full house of `high` over
/// `low`.
pub proof fn lemma_two_triplets(cards: Seq<Card>, high: int, low: int)
    requires
        is_hand(cards),
        well_formed_cards(cards),
        2 <= low < high <= 14,
        cards_of_rank(cards, high) == 3,
        cards_of_rank(cards, low) == 3,
    ensures
        hand_value(cards) == HandEvaluation::new_full_house(number_of(high), number_of(low)),
{
    let suits = rank_sets(cards);
    let counts = rank_counts(suits);
    lemma_hand_has_seven_cards(cards);
    lemma_seven_cards(suits);
    assert(two_triplets(suits, high, low));
    assert forall|s: int| 0 <= s < 4 implies straight_high(#[trigger] suits[s]) is None by {
        assert forall|top: int| 5 <= top <= 14 implies !is_run(suits[s], top) by {
            if is_run(suits[s], top) {
                lemma_run_in_suit(suits, s, top);
                lemma_two_triplets_no_run(suits, high, low, top);
            }
        }
        lemma_no_run_no_straight(suits[s]);
    }
    lemma_no_straight_flush(suits);
    assert forall|other: int| 2 <= other <= 14 && other != high && other != low implies counts[other]
        <= 1 by {
        lemma_two_triplets_no_third(suits, high, low, other);
    }
    assert(counts[high] == 3);
    assert(counts[low] == 3);
    lemma_highest_with_count(counts, 4, 14);
    lemma_highest_with_count(counts, 3, 14);
    lemma_highest_pair_beside(counts, high, 14);
}

} // verus!
