//! What a set of cards is worth: the cards are read as four sets of ranks,
//! one for each suit, and the value of the best five-card hand is stated
//! over those sets.

use crate::card::{Card, Number, Suit};
use crate::evaluation::{HandEvaluation, HandKind};
use crate::ranks::{
    count_ranks, has_rank, highest_rank, is_run, lemma_equal_sets, lemma_rank_algebra,
    lemma_run_is_straight, number_of, only_ranks, rank_total, straight_high, top_ranks,
    without_rank,
};
use vstd::prelude::*;

verus! {

/// The card of the suit with code `suit` and the rank of value `rank`.
pub open spec fn card_at(suit: int, rank: int) -> Card {
    Card::spec_new(Suit::spec_from_u8(suit as u8), Number::spec_from_u8(rank as u8))
}

/// The ranks below `bound` that `hand` holds in the suit with code `suit`.
pub open spec fn suit_ranks_below(hand: Set<Card>, suit: int, bound: int) -> u16
    decreases bound,
{
    if bound <= 2 {
        0
    } else {
        let rest = suit_ranks_below(hand, suit, bound - 1);
        if hand.contains(card_at(suit, bound - 1)) {
            rest | (1u16 << ((bound - 1) as u16))
        } else {
            rest
        }
    }
}

/// The ranks that `hand` holds in the suit with code `suit`.
pub open spec fn suit_ranks(hand: Set<Card>, suit: int) -> u16 {
    suit_ranks_below(hand, suit, 15)
}

/// The four rank sets of the cards, by suit code.
pub open spec fn rank_sets(cards: Seq<Card>) -> Seq<u16> {
    Seq::new(4, |suit: int| suit_ranks(cards.to_set(), suit))
}

/// In how many of the four suits `rank` occurs.
pub open spec fn rank_count(suits: Seq<u16>, rank: int) -> int {
    (if has_rank(suits[0], rank) {
        1int
    } else {
        0int
    }) + (if has_rank(suits[1], rank) {
        1int
    } else {
        0int
    }) + (if has_rank(suits[2], rank) {
        1int
    } else {
        0int
    }) + (if has_rank(suits[3], rank) {
        1int
    } else {
        0int
    })
}

/// For each rank value below 15, in how many suits it occurs.
pub open spec fn rank_counts(suits: Seq<u16>) -> Seq<i32> {
    Seq::new(15, |rank: int| rank_count(suits, rank) as i32)
}

/// The ranks that occur in any suit.
pub open spec fn all_ranks(suits: Seq<u16>) -> u16 {
    suits[0] | suits[1] | suits[2] | suits[3]
}

/// The highest index from 2 up to `top` at which `counts` holds `wanted`.
pub open spec fn highest_with_count(counts: Seq<i32>, wanted: i32, top: int) -> Option<int>
    decreases top,
{
    if top < 2 {
        None
    } else if counts[top] == wanted {
        Some(top)
    } else {
        highest_with_count(counts, wanted, top - 1)
    }
}

/// The highest index from 2 up to `top`, other than `triple`, at which
/// `counts` holds two or more.
pub open spec fn highest_pair_beside(counts: Seq<i32>, triple: int, top: int) -> Option<int>
    decreases top,
{
    if top < 2 {
        None
    } else if top != triple && counts[top] >= 2 {
        Some(top)
    } else {
        highest_pair_beside(counts, triple, top - 1)
    }
}

/// The high card of the straight flush in the first suit from `suit` on that
/// holds one.
pub open spec fn straight_flush_high_from(suits: Seq<u16>, suit: int) -> Option<int>
    decreases 4 - suit,
{
    if suit >= 4 {
        None
    } else if straight_high(suits[suit]) is Some {
        straight_high(suits[suit])
    } else {
        straight_flush_high_from(suits, suit + 1)
    }
}

/// The first suit from `suit` on that holds five ranks or more.
pub open spec fn flush_suit_from(suits: Seq<u16>, suit: int) -> Option<int>
    decreases 4 - suit,
{
    if suit >= 4 {
        None
    } else if rank_total(suits[suit]) >= 5 {
        Some(suit)
    } else {
        flush_suit_from(suits, suit + 1)
    }
}

/// The value of one or two pairs, where `pair` is the highest rank that occurs
/// exactly twice.
pub open spec fn pair_value(suits: Seq<u16>, pair: int) -> HandEvaluation {
    let others = without_rank(all_ranks(suits), pair);
    match highest_with_count(rank_counts(suits), 2, pair - 1) {
        Some(low) => HandEvaluation::new_two_pair(
            number_of(pair),
            number_of(low),
            number_of(highest_rank(without_rank(others, low))),
        ),
        None => HandEvaluation::new_pair(number_of(pair), top_ranks(others, 3)),
    }
}

/// The value of a hand without straight flush, four of a kind, full house
/// or flush.
pub open spec fn value_below_flush(suits: Seq<u16>) -> HandEvaluation {
    let ranks = all_ranks(suits);
    let counts = rank_counts(suits);
    match straight_high(ranks) {
        Some(high) => HandEvaluation::new_straight(number_of(high)),
        None => match highest_with_count(counts, 3, 14) {
            Some(triple) => HandEvaluation::new_three_of_a_kind(
                number_of(triple),
                top_ranks(without_rank(ranks, triple), 2),
            ),
            None => match highest_with_count(counts, 2, 14) {
                Some(pair) => pair_value(suits, pair),
                None => HandEvaluation::new_high_card(top_ranks(ranks, 5)),
            },
        },
    }
}

/// Whether the hand holds a full house, and of which ranks: the highest rank
/// that occurs three times, and the highest other rank that occurs twice
/// or more.
pub open spec fn full_house_ranks(suits: Seq<u16>) -> Option<(int, int)> {
    let counts = rank_counts(suits);
    match highest_with_count(counts, 3, 14) {
        Some(triple) => match highest_pair_beside(counts, triple, 14) {
            Some(pair) => Some((triple, pair)),
            None => None,
        },
        None => None,
    }
}

/// The value of the best five-card hand in the four rank sets. The categories
/// are tried from the strongest down and the first that the cards hold
/// decides.
pub open spec fn value_of(suits: Seq<u16>) -> HandEvaluation {
    let ranks = all_ranks(suits);
    let counts = rank_counts(suits);
    match straight_flush_high_from(suits, 0) {
        Some(high) => HandEvaluation::new_straight_flush(number_of(high)),
        None => match highest_with_count(counts, 4, 14) {
            Some(quad) => HandEvaluation::new_four_of_a_kind(
                number_of(quad),
                number_of(highest_rank(without_rank(ranks, quad))),
            ),
            None => match full_house_ranks(suits) {
                Some((triple, pair)) => HandEvaluation::new_full_house(
                    number_of(triple),
                    number_of(pair),
                ),
                None => match flush_suit_from(suits, 0) {
                    Some(suit) => HandEvaluation::new_flush(top_ranks(suits[suit], 5)),
                    None => value_below_flush(suits),
                },
            },
        },
    }
}

/// The value of the best five-card hand among the given cards.
pub open spec fn hand_value(cards: Seq<Card>) -> HandEvaluation {
    value_of(rank_sets(cards))
}

/// Seven cards of one deck: no card occurs twice.
pub open spec fn is_hand(cards: Seq<Card>) -> bool {
    cards.len() == 7 && cards.no_duplicates()
}

/// The ranks of `suit_ranks_below`.
pub proof fn lemma_suit_ranks_below(hand: Set<Card>, suit: int, bound: int)
    requires
        bound <= 16,
    ensures
        forall|r: int| #[trigger]
            has_rank(suit_ranks_below(hand, suit, bound), r) == (2 <= r < bound && hand.contains(
                card_at(suit, r),
            )),
    decreases bound,
{
    if bound <= 2 {
        lemma_rank_algebra(0, 0, 0);
    } else {
        lemma_suit_ranks_below(hand, suit, bound - 1);
        let rest = suit_ranks_below(hand, suit, bound - 1);
        lemma_rank_algebra(rest, 1u16 << ((bound - 1) as u16), bound - 1);
    }
}

/// A rank is in a suit's set exactly if it is the rank of a card and the
/// hand holds that card.
pub proof fn lemma_suit_ranks(hand: Set<Card>, suit: int)
    ensures
        forall|r: int| #[trigger]
            has_rank(suit_ranks(hand, suit), r) == (2 <= r <= 14 && hand.contains(
                card_at(suit, r),
            )),
{
    lemma_suit_ranks_below(hand, suit, 15);
}

/// The number of cards with a rank below `bound`: the sum of the rank counts.
pub open spec fn rank_count_sum(suits: Seq<u16>, bound: int) -> int
    decreases bound,
{
    if bound <= 0 {
        0
    } else {
        rank_count_sum(suits, bound - 1) + rank_count(suits, bound - 1)
    }
}

/// Counting the cards rank by rank gives as many as counting them suit by
/// suit.
pub proof fn lemma_rank_count_sum(suits: Seq<u16>, bound: int)
    requires
        0 <= bound,
    ensures
        rank_count_sum(suits, bound) == count_ranks(suits[0], 0, bound) + count_ranks(
            suits[1],
            0,
            bound,
        ) + count_ranks(suits[2], 0, bound) + count_ranks(suits[3], 0, bound),
    decreases bound,
{
    if bound > 0 {
        lemma_rank_count_sum(suits, bound - 1);
    }
}

/// A rank occurs at all exactly if it occurs in one suit or more.
pub proof fn lemma_all_ranks(suits: Seq<u16>)
    ensures
        forall|r: int| #[trigger] has_rank(all_ranks(suits), r) == (rank_count(suits, r) > 0),
        forall|r: int| 0 <= #[trigger] rank_count(suits, r) <= 4,
{
    lemma_rank_algebra(suits[0], suits[1], 0);
    lemma_rank_algebra(suits[0] | suits[1], suits[2], 0);
    lemma_rank_algebra(suits[0] | suits[1] | suits[2], suits[3], 0);
}

/// Where no rank but `special` occurs twice, the other ranks that occur are
/// as many as the cards that do not have the rank `special`.
pub proof fn lemma_single_ranks(suits: Seq<u16>, special: int, bound: int)
    requires
        0 <= special < 16,
        0 <= bound <= 16,
        forall|r: int| 0 <= r < bound && r != special ==> rank_count(suits, r) <= 1,
    ensures
        rank_count_sum(suits, bound) == count_ranks(
            without_rank(all_ranks(suits), special),
            0,
            bound,
        ) + if special < bound {
            rank_count(suits, special)
        } else {
            0
        },
    decreases bound,
{
    if bound > 0 {
        lemma_single_ranks(suits, special, bound - 1);
        lemma_all_ranks(suits);
        lemma_rank_algebra(all_ranks(suits), 0, special);
    }
}

/// Where only the ranks `first` and `second` occur, all cards have one of
/// them.
pub proof fn lemma_two_ranks_only(suits: Seq<u16>, first: int, second: int, bound: int)
    requires
        0 <= bound,
        forall|r: int|
            0 <= r < bound && r != first && r != second ==> rank_count(suits, r) == 0,
    ensures
        rank_count_sum(suits, bound) == (if 0 <= first < bound {
            rank_count(suits, first)
        } else {
            0
        }) + (if 0 <= second < bound && second != first {
            rank_count(suits, second)
        } else {
            0
        }),
    decreases bound,
{
    if bound > 0 {
        lemma_two_ranks_only(suits, first, second, bound - 1);
    }
}

/// What `highest_with_count` finds: an index that holds `wanted`, with no
/// such index above it up to `top`; or nothing, where no index from 2 up to
/// `top` holds `wanted`.
pub proof fn lemma_highest_with_count(counts: Seq<i32>, wanted: i32, top: int)
    ensures
        match highest_with_count(counts, wanted, top) {
            Some(found) => 2 <= found <= top && counts[found] == wanted && forall|r: int|
                found < r <= top ==> counts[r] != wanted,
            None => forall|r: int| 2 <= r <= top ==> counts[r] != wanted,
        },
    decreases top,
{
    if top >= 2 && counts[top] != wanted {
        lemma_highest_with_count(counts, wanted, top - 1);
    }
}

/// What `highest_pair_beside` finds.
pub proof fn lemma_highest_pair_beside(counts: Seq<i32>, triple: int, top: int)
    ensures
        match highest_pair_beside(counts, triple, top) {
            Some(found) => 2 <= found <= top && found != triple && counts[found] >= 2,
            None => forall|r: int| 2 <= r <= top && r != triple ==> counts[r] < 2,
        },
    decreases top,
{
    if top >= 2 && !(top != triple && counts[top] >= 2) {
        lemma_highest_pair_beside(counts, triple, top - 1);
    }
}

/// Whether the four sets are those of seven cards and hold ranks only.
pub open spec fn seven_cards(suits: Seq<u16>) -> bool {
    &&& suits.len() == 4
    &&& rank_total(suits[0]) + rank_total(suits[1]) + rank_total(suits[2]) + rank_total(suits[3])
        == 7
    &&& forall|s: int| 0 <= s < 4 ==> only_ranks(#[trigger] suits[s])
}

/// The rank counts of seven cards: each count is what `rank_counts` holds,
/// only ranks from the two to the ace occur, and the counts add up to seven.
pub proof fn lemma_seven_cards(suits: Seq<u16>)
    requires
        seven_cards(suits),
    ensures
        rank_count_sum(suits, 16) == 7,
        only_ranks(all_ranks(suits)),
        forall|r: int|
            #![trigger rank_counts(suits)[r]]
            #![trigger rank_count(suits, r)]
            0 <= r < 15 ==> rank_counts(suits)[r] == rank_count(suits, r),
        forall|r: int| !(2 <= r <= 14) ==> #[trigger] rank_count(suits, r) == 0,
{
    lemma_rank_count_sum(suits, 16);
    lemma_all_ranks(suits);
    assert forall|r: int| !(2 <= r <= 14) implies #[trigger] rank_count(suits, r) == 0 by {
        assert(only_ranks(suits[0]) && only_ranks(suits[1]) && only_ranks(suits[2]) && only_ranks(
            suits[3],
        ));
    }
}

/// Seven cards of which fewer than seven have the rank `first` or the rank
/// `second` hold another rank.
pub proof fn lemma_kicker_exists(suits: Seq<u16>, first: int, second: int)
    requires
        seven_cards(suits),
        0 <= first < 16,
        0 <= second < 16,
        rank_count(suits, first) + (if second != first {
            rank_count(suits, second)
        } else {
            0
        }) < 7,
    ensures
        without_rank(without_rank(all_ranks(suits), first), second) != 0,
        only_ranks(without_rank(without_rank(all_ranks(suits), first), second)),
        without_rank(all_ranks(suits), first) != 0,
        only_ranks(without_rank(all_ranks(suits), first)),
{
    lemma_seven_cards(suits);
    lemma_all_ranks(suits);
    let ranks = all_ranks(suits);
    lemma_rank_algebra(ranks, 0, first);
    lemma_rank_algebra(without_rank(ranks, first), 0, second);
    if forall|r: int| 0 <= r < 16 && r != first && r != second ==> rank_count(suits, r) == 0 {
        lemma_two_ranks_only(suits, first, second, 16);
    } else {
        let r = choose|r: int|
            0 <= r < 16 && r != first && r != second && rank_count(suits, r) != 0;
        assert(has_rank(without_rank(without_rank(ranks, first), second), r));
        assert(has_rank(without_rank(ranks, first), r));
    }
}

/// Seven cards among which no rank but `special` occurs twice hold, beside
/// `special`, as many ranks as cards.
pub proof fn lemma_kicker_total(suits: Seq<u16>, special: int)
    requires
        seven_cards(suits),
        0 <= special < 16,
        forall|r: int| 2 <= r <= 14 && r != special ==> rank_count(suits, r) <= 1,
    ensures
        rank_total(without_rank(all_ranks(suits), special)) + rank_count(suits, special) == 7,
{
    lemma_seven_cards(suits);
    lemma_single_ranks(suits, special, 16);
}

/// Seven cards of seven ranks.
pub proof fn lemma_seven_ranks(suits: Seq<u16>)
    requires
        seven_cards(suits),
        forall|r: int| 2 <= r <= 14 ==> rank_count(suits, r) <= 1,
    ensures
        rank_total(all_ranks(suits)) == 7,
{
    lemma_seven_cards(suits);
    lemma_kicker_total(suits, 0);
    let ranks = all_ranks(suits);
    lemma_rank_algebra(ranks, 0, 0);
    lemma_all_ranks(suits);
    lemma_equal_sets(without_rank(ranks, 0), ranks);
}

/// The rank that stands at `place` in a straight: the ace where the place is
/// the one below the two.
pub open spec fn straight_rank(place: int) -> int {
    if place == 1 {
        14
    } else {
        place
    }
}

/// The order of the cards does not matter: two sequences of the same cards
/// have the same value.
pub proof fn lemma_value_ignores_order(first: Seq<Card>, second: Seq<Card>)
    requires
        first.to_multiset() == second.to_multiset(),
    ensures
        hand_value(first) == hand_value(second),
{
    first.to_multiset_ensures();
    second.to_multiset_ensures();
    assert forall|card: Card| first.to_set().contains(card) == second.to_set().contains(card) by {
        assert(first.contains(card) == (first.to_multiset().count(card) > 0));
        assert(second.contains(card) == (second.to_multiset().count(card) > 0));
    }
    assert(first.to_set() =~= second.to_set());
    assert(rank_sets(first) =~= rank_sets(second));
}

/// The values of two hands are comparable: one is weaker than the other, or
/// they are equal, and only one of the three holds.
pub proof fn lemma_values_are_comparable(first: Seq<Card>, second: Seq<Card>)
    ensures
        hand_value(first).weaker_than(hand_value(second)) || hand_value(second).weaker_than(
            hand_value(first),
        ) || hand_value(first) == hand_value(second),
        !(hand_value(first).weaker_than(hand_value(second)) && hand_value(second).weaker_than(
            hand_value(first),
        )),
        !(hand_value(first).weaker_than(hand_value(second)) && hand_value(first) == hand_value(
            second,
        )),
        !(hand_value(second).weaker_than(hand_value(first)) && hand_value(first) == hand_value(
            second,
        )),
{
    hand_value(first).lemma_trichotomy(hand_value(second));
}

/// The first suit that holds a straight decides the straight flush.
proof fn lemma_straight_flush_found(suits: Seq<u16>, suit: int, from: int)
    requires
        0 <= from <= suit < 4,
        straight_high(suits[suit]) is Some,
    ensures
        straight_flush_high_from(suits, from) is Some,
    decreases suit - from,
{
    if from < suit && straight_high(suits[from]) is None {
        lemma_straight_flush_found(suits, suit, from + 1);
    }
}

/// Cards that hold five ranks in a row in one suit are a straight flush,
/// whatever else they hold: a flush and a straight of the same five cards
/// never count apart.
pub proof fn lemma_straight_flush(cards: Seq<Card>, suit: int, high: int)
    requires
        0 <= suit <= 3,
        5 <= high <= 14,
        forall|below: int|
            0 <= below < 5 ==> cards.contains(
                #[trigger] card_at(suit, straight_rank(high - below)),
            ),
    ensures
        hand_value(cards).kind() == HandKind::StraightFlush,
{
    let suits = rank_sets(cards);
    let set = suits[suit];
    lemma_suit_ranks(cards.to_set(), suit);
    assert(cards.contains(card_at(suit, straight_rank(high - 0))));
    assert(cards.contains(card_at(suit, straight_rank(high - 1))));
    assert(cards.contains(card_at(suit, straight_rank(high - 2))));
    assert(cards.contains(card_at(suit, straight_rank(high - 3))));
    assert(cards.contains(card_at(suit, straight_rank(high - 4))));
    assert(is_run(set, high));
    lemma_run_is_straight(set, high, 14);
    lemma_straight_flush_found(suits, suit, 0);
    let found = straight_flush_high_from(suits, 0).unwrap();
    HandEvaluation::lemma_parts(HandKind::StraightFlush, number_of(found).value(), 0, 0);
}

} // verus!
