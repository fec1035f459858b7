//! The hand evaluator: from seven cards to the value of their best five.

use crate::card::{Card, Number, Suit};
use crate::evaluation::HandEvaluation;
use crate::hand::{
    all_ranks, card_at, flush_suit_from, full_house_ranks, hand_value, highest_pair_beside,
    highest_with_count, is_hand, lemma_all_ranks, lemma_highest_pair_beside,
    lemma_highest_with_count, lemma_kicker_exists, lemma_kicker_total, lemma_seven_cards,
    lemma_seven_ranks, lemma_suit_ranks, rank_count, rank_counts, rank_sets, seven_cards,
    straight_flush_high_from, suit_ranks, value_below_flush,
};
use crate::ranks::{
    count_ranks, has_rank, has_straight_rank, highest_rank, lemma_bit_test, lemma_count_bound,
    lemma_count_with, lemma_count_zero, lemma_drop_lowest_step, lemma_dropped_is_top,
    lemma_equal_sets, lemma_highest_rank_is, lemma_rank_algebra, lemma_strip_two, lemma_window,
    number_of, number_of_option, only_ranks, rank_total, straight_high, straight_high_up_to,
    without_lowest, without_rank,
};
use vstd::prelude::*;
use vstd::std_specs::bits::axiom_u16_leading_zeros;

verus! {

/// The high card of the best straight among the ranks of `card_bitset`, if
/// there is one. The ace also counts as the rank below the two, so that the
/// lowest straight runs from the ace to the five.
#[must_use]
pub fn check_for_straight(card_bitset: u16) -> (high_card: Option<Number>)
    ensures
        high_card == number_of_option(straight_high(card_bitset)),
{
    let mut bits: u16 = card_bitset;
    // Duplicate the ace at the bottom of the bitset, if it is present.
    if card_bitset & Number::Ace.as_bit() != 0 {
        bits = bits | 2;
    }
    proof {
        lemma_bit_test(card_bitset, 14);
        assert(2u16 == 1u16 << 1u16) by (bit_vector);
        lemma_rank_algebra(card_bitset, 1u16 << 1u16, 1);
    }
    // Slide a window of five bits down from the ace.
    let mask: u16 = 0b11111;
    let mut shift_index: u8 = 10;
    while shift_index >= 1
        invariant
            shift_index <= 10,
            mask == 0b11111,
            forall|r: int| 1 <= r <= 14 ==> has_rank(bits, r) == has_straight_rank(card_bitset, r),
            straight_high(card_bitset) == straight_high_up_to(card_bitset, shift_index + 4),
        decreases shift_index,
    {
        proof {
            lemma_window(bits, shift_index as u16);
        }
        if (bits & (mask << (shift_index as u16))) >> (shift_index as u16) == mask {
            return Some(Number::from_u8(shift_index + 4));
        }
        shift_index = shift_index - 1;
    }
    None
}

/// The highest index from 2 up to `top` at which `counts` holds `wanted`.
fn highest_rank_with_count(counts: &[i32; 15], wanted: i32, top: u8) -> (found: Option<Number>)
    requires
        top <= 14,
    ensures
        found == number_of_option(highest_with_count(counts@, wanted, top as int)),
        found is Some ==> 2 <= highest_with_count(counts@, wanted, top as int).unwrap() <= top,
{
    let mut number: u8 = top;
    while number >= 2
        invariant
            number <= top <= 14,
            highest_with_count(counts@, wanted, top as int) == highest_with_count(
                counts@,
                wanted,
                number as int,
            ),
        decreases number,
    {
        if counts[number as usize] == wanted {
            return Some(Number::from_u8(number));
        }
        number = number - 1;
    }
    None
}

/// The highest rank that occurs exactly three times.
#[must_use]
fn check_for_three_of_a_kind(count_by_number: &[i32; 15]) -> (found: Option<Number>)
    ensures
        found == number_of_option(highest_with_count(count_by_number@, 3, 14)),
        found is Some ==> 2 <= highest_with_count(count_by_number@, 3, 14).unwrap() <= 14,
{
    highest_rank_with_count(count_by_number, 3, 14)
}

/// The highest rank that occurs exactly twice.
#[must_use]
fn check_for_pair(count_by_number: &[i32; 15]) -> (found: Option<Number>)
    ensures
        found == number_of_option(highest_with_count(count_by_number@, 2, 14)),
        found is Some ==> 2 <= highest_with_count(count_by_number@, 2, 14).unwrap() <= 14,
{
    highest_rank_with_count(count_by_number, 2, 14)
}

/// The highest rank of a set that is not empty.
#[must_use]
fn highest_card_in_set(cards: u16) -> (highest: Number)
    requires
        cards != 0,
        only_ranks(cards),
    ensures
        highest == number_of(highest_rank(cards)),
        has_rank(cards, highest_rank(cards)),
        2 <= highest_rank(cards) <= 14,
{
    let zeros: u32 = cards.leading_zeros();
    proof {
        axiom_u16_leading_zeros(cards);
        let top: u16 = (15 - zeros) as u16;
        lemma_bit_test(cards, top);
        assert(has_rank(cards, top as int));
        assert forall|r: int| top < r < 16 implies !has_rank(cards, r) by {
            let j: u16 = r as u16;
            assert((cards >> j) & 1 == 0);
        }
        lemma_highest_rank_is(cards, top as int);
    }
    Number::from_u8((15 - zeros) as u8)
}

/// Whether `card` has the suit with code `suit` and the rank of value `rank`.
spec fn card_is(card: Card, suit: int, rank: int) -> bool {
    card.spec_suit().spec_index() == suit && card.spec_number().spec_value() == rank
}

/// Whether one of the first `count` cards has the given suit and rank.
spec fn prefix_holds(cards: Seq<Card>, count: int, suit: int, rank: int) -> bool {
    exists|j: int| 0 <= j < count && #[trigger] card_is(cards[j], suit, rank)
}

/// The tallies of one pass over the cards: how many cards each suit and each
/// rank has, the ranks that occur at all, and the ranks of each suit.
struct Tallies {
    count_by_suit: [i32; 4],
    count_by_number: [i32; 15],
    number_bitset: u16,
    number_by_suit_bitset: [u16; 4],
}

impl Tallies {
    /// The tallies are those of the given cards.
    spec fn matches(self, cards: Seq<Card>) -> bool {
        let suits = self.number_by_suit_bitset@;
        &&& suits == rank_sets(cards)
        &&& self.count_by_number@ == rank_counts(suits)
        &&& self.number_bitset == all_ranks(suits)
        &&& forall|s: int| 0 <= s < 4 ==> self.count_by_suit[s] == rank_total(#[trigger] suits[s])
        &&& forall|s: int| 0 <= s < 4 ==> only_ranks(#[trigger] suits[s])
        &&& self.count_by_suit[0] + self.count_by_suit[1] + self.count_by_suit[2]
            + self.count_by_suit[3] == cards.len()
    }
}

/// Two well-formed cards of the same suit and rank are the same card.
proof fn lemma_same_card(a: Card, b: Card, suit: int, rank: int)
    requires
        a.well_formed(),
        b.well_formed(),
        card_is(a, suit, rank),
        card_is(b, suit, rank),
    ensures
        a == b,
        a == card_at(suit, rank),
        0 <= suit <= 3,
        2 <= rank <= 14,
{
    a.lemma_determined();
    b.lemma_determined();
    a.spec_suit().lemma_from_index();
    b.spec_suit().lemma_from_index();
    a.spec_number().lemma_from_value();
    b.spec_number().lemma_from_value();
}

/// One more card adds its own suit and rank to what the cards before it hold.
proof fn lemma_prefix_step(cards: Seq<Card>, count: int, suit: int, rank: int)
    requires
        0 <= count < cards.len(),
    ensures
        prefix_holds(cards, count + 1, suit, rank) == (prefix_holds(cards, count, suit, rank)
            || card_is(cards[count], suit, rank)),
{
    if prefix_holds(cards, count + 1, suit, rank) {
        let j = choose|j: int| 0 <= j < count + 1 && #[trigger] card_is(cards[j], suit, rank);
        if j < count {
            assert(prefix_holds(cards, count, suit, rank));
        }
    }
    if prefix_holds(cards, count, suit, rank) {
        let j = choose|j: int| 0 <= j < count && #[trigger] card_is(cards[j], suit, rank);
        assert(card_is(cards[j], suit, rank));
    }
    if card_is(cards[count], suit, rank) {
        assert(prefix_holds(cards, count + 1, suit, rank));
    }
}

/// Well-formed cards hold a suit and rank exactly if the card of that suit
/// and rank is among them.
proof fn lemma_prefix_is_set(cards: Seq<Card>, suit: int, rank: int)
    requires
        forall|j: int| 0 <= j < cards.len() ==> (#[trigger] cards[j]).well_formed(),
        0 <= suit <= 3,
    ensures
        prefix_holds(cards, cards.len() as int, suit, rank) == (2 <= rank <= 14
            && cards.to_set().contains(card_at(suit, rank))),
{
    if prefix_holds(cards, cards.len() as int, suit, rank) {
        let j = choose|j: int| 0 <= j < cards.len() && #[trigger] card_is(cards[j], suit, rank);
        lemma_same_card(cards[j], cards[j], suit, rank);
        assert(cards.contains(card_at(suit, rank)));
    }
    if 2 <= rank <= 14 && cards.to_set().contains(card_at(suit, rank)) {
        assert(cards.contains(card_at(suit, rank)));
        let j = choose|j: int| 0 <= j < cards.len() && cards[j] == card_at(suit, rank);
        Card::lemma_new(Suit::spec_from_u8(suit as u8), Number::spec_from_u8(rank as u8));
        assert(card_is(cards[j], suit, rank));
    }
}

/// Counts the cards of each suit and of each rank, and collects the ranks
/// that occur at all and in each suit, in one pass over the cards.
fn tally(cards: &[Card; 7]) -> (tallies: Tallies)
    requires
        cards@.no_duplicates(),
    ensures
        tallies.matches(cards@),
{
    let mut count_by_suit: [i32; 4] = [0, 0, 0, 0];
    let mut count_by_number: [i32; 15] = [0, 0, 0, 0, 0, 0, 0, 0, 0, 0, 0, 0, 0, 0, 0];
    let mut number_bitset: u16 = 0;
    let mut number_by_suit_bitset: [u16; 4] = [0, 0, 0, 0];
    proof {
        lemma_rank_algebra(0, 0, 0);
        assert forall|s: int| 0 <= s < 4 implies count_ranks(
            #[trigger] number_by_suit_bitset@[s],
            0,
            16,
        ) == 0 by {
            lemma_count_zero(0, 0, 16);
        }
    }
    let mut index: usize = 0;
    while index < 7
        invariant
            index <= 7,
            cards@.no_duplicates(),
            forall|j: int| 0 <= j < index ==> (#[trigger] cards@[j]).well_formed(),
            forall|s: int, r: int|
                0 <= s < 4 && 0 <= r < 16 ==> #[trigger] has_rank(number_by_suit_bitset@[s], r)
                    == prefix_holds(cards@, index as int, s, r),
            forall|s: int|
                0 <= s < 4 ==> count_by_suit@[s] == count_ranks(
                    #[trigger] number_by_suit_bitset@[s],
                    0,
                    16,
                ),
            forall|r: int|
                0 <= r < 15 ==> #[trigger] count_by_number@[r] == rank_count(
                    number_by_suit_bitset@,
                    r,
                ),
            forall|r: int|
                0 <= r < 16 ==> #[trigger] has_rank(number_bitset, r) == (rank_count(
                    number_by_suit_bitset@,
                    r,
                ) > 0),
            count_by_suit@[0] + count_by_suit@[1] + count_by_suit@[2] + count_by_suit@[3] == index,
        decreases 7 - index,
    {
        let card = cards[index];
        let suit: usize = card.suit().index() as usize;
        let number = card.number();
        let rank: usize = number.value() as usize;
        let ghost before = number_by_suit_bitset@;
        let ghost ranks_before = number_bitset;
        proof {
            use_type_invariant(card);
            assert(card == cards@[index as int]);
            assert(card_is(card, suit as int, rank as int));
            if prefix_holds(cards@, index as int, suit as int, rank as int) {
                let j = choose|j: int|
                    0 <= j < index && #[trigger] card_is(cards@[j], suit as int, rank as int);
                lemma_same_card(cards@[j], card, suit as int, rank as int);
            }
            assert(!has_rank(before[suit as int], rank as int));
            lemma_count_bound(before[suit as int], 0, 16);
            lemma_rank_algebra(before[suit as int], number.as_bit(), rank as int);
            lemma_rank_algebra(ranks_before, number.as_bit(), rank as int);
            lemma_count_with(before[suit as int], rank as int, 0, 16);
        }
        count_by_suit[suit] = count_by_suit[suit] + 1;
        count_by_number[rank] = count_by_number[rank] + 1;
        number_bitset = number_bitset | number.as_bit();
        number_by_suit_bitset[suit] = number_by_suit_bitset[suit] | number.as_bit();
        proof {
            let after = number_by_suit_bitset@;
            assert(after == before.update(suit as int, before[suit as int] | number.as_bit()));
            assert forall|s: int, r: int| 0 <= s < 4 && 0 <= r < 16 implies #[trigger] has_rank(
                after[s],
                r,
            ) == prefix_holds(cards@, index + 1, s, r) by {
                lemma_prefix_step(cards@, index as int, s, r);
                assert(has_rank(before[s], r) == prefix_holds(cards@, index as int, s, r));
            }
            assert forall|r: int| 0 <= r < 16 implies rank_count(after, r) == rank_count(before, r)
                + if r == rank {
                1int
            } else {
                0int
            } by {
                assert(has_rank(after[suit as int], r) == (has_rank(before[suit as int], r) || r
                    == rank));
            }
        }
        index = index + 1;
    }
    let tallies = Tallies { count_by_suit, count_by_number, number_bitset, number_by_suit_bitset };
    proof {
        let suits = number_by_suit_bitset@;
        assert forall|s: int| 0 <= s < 4 implies suits[s] == #[trigger] rank_sets(cards@)[s] by {
            lemma_suit_ranks(cards@.to_set(), s);
            assert forall|r: int| 0 <= r < 16 implies has_rank(suits[s], r) == has_rank(
                suit_ranks(cards@.to_set(), s),
                r,
            ) by {
                lemma_prefix_is_set(cards@, s, r);
            }
            lemma_equal_sets(suits[s], suit_ranks(cards@.to_set(), s));
        }
        assert(suits =~= rank_sets(cards@));
        assert(count_by_number@ =~= rank_counts(suits));
        lemma_rank_algebra(suits[0], suits[1], 0);
        lemma_rank_algebra(suits[0] | suits[1], suits[2], 0);
        lemma_rank_algebra(suits[0] | suits[1] | suits[2], suits[3], 0);
        lemma_equal_sets(number_bitset, all_ranks(suits));
        assert forall|s: int| 0 <= s < 4 implies only_ranks(#[trigger] suits[s]) by {
            lemma_suit_ranks(cards@.to_set(), s);
        }
    }
    tallies
}

/// The value of the best five-card hand among seven cards of one deck.
///
/// The categories are tried from the strongest down, since the cards of a
/// stronger hand often hold a weaker one too.
#[must_use]
#[verifier::loop_isolation(false)]
pub fn evaluate_hand(cards: [Card; 7]) -> (evaluation: HandEvaluation)
    requires
        is_hand(cards@),
    ensures
        evaluation == hand_value(cards@),
{
    let Tallies { mut count_by_suit, count_by_number, number_bitset, number_by_suit_bitset } =
        tally(&cards);
    let ghost suits = number_by_suit_bitset@;
    let ghost counts = count_by_number@;
    proof {
        assert(seven_cards(suits));
        lemma_seven_cards(suits);
        lemma_all_ranks(suits);
    }

    // Check for straight flushes.
    let mut suit: usize = 0;
    while suit < 4
        invariant
            suit <= 4,
            suits == number_by_suit_bitset@,
            straight_flush_high_from(suits, 0) == straight_flush_high_from(suits, suit as int),
        decreases 4 - suit,
    {
        if let Some(high_card) = check_for_straight(number_by_suit_bitset[suit]) {
            return HandEvaluation::new_straight_flush(high_card);
        }
        suit = suit + 1;
    }

    // Check for four of a kind.
    if let Some(high_card) = highest_rank_with_count(&count_by_number, 4, 14) {
        proof {
            let quad = highest_with_count(counts, 4, 14).unwrap();
            lemma_highest_with_count(counts, 4, 14);
            lemma_kicker_exists(suits, quad, quad);
        }
        let kicker = highest_card_in_set(number_bitset & !high_card.as_bit());
        return HandEvaluation::new_four_of_a_kind(high_card, kicker);
    }

    // Check for full house.
    let three_of_a_kind = check_for_three_of_a_kind(&count_by_number);
    if let Some(three_of_a_kind_number) = three_of_a_kind {
        let ghost triple = highest_with_count(counts, 3, 14).unwrap();
        let mut number: u8 = 14;
        while number >= 2
            invariant
                number <= 14,
                counts == count_by_number@,
                triple == three_of_a_kind_number.value(),
                highest_pair_beside(counts, triple, 14) == highest_pair_beside(
                    counts,
                    triple,
                    number as int,
                ),
            decreases number,
        {
            if number != three_of_a_kind_number.value() && count_by_number[number as usize] >= 2 {
                return HandEvaluation::new_full_house(
                    three_of_a_kind_number,
                    Number::from_u8(number),
                );
            }
            number = number - 1;
        }
    }
    assert(full_house_ranks(suits) is None);

    // Check for flush.
    let mut suit: usize = 0;
    while suit < 4
        invariant
            suit <= 4,
            suits == number_by_suit_bitset@,
            forall|s: int| 0 <= s < 4 ==> count_by_suit@[s] == rank_total(#[trigger] suits[s]),
            flush_suit_from(suits, 0) == flush_suit_from(suits, suit as int),
        decreases 4 - suit,
    {
        if count_by_suit[suit] >= 5 {
            let ghost whole = suits[suit as int];
            let ghost mut dropped: nat = 0;
            let mut suited_cards = number_by_suit_bitset[suit];
            assert(without_lowest(whole, suited_cards, 0));
            while count_by_suit[suit] > 5
                invariant
                    suit < 4,
                    without_lowest(whole, suited_cards, dropped),
                    count_by_suit@[suit as int] == rank_total(suited_cards),
                    count_by_suit@[suit as int] + dropped == rank_total(whole),
                    count_by_suit@[suit as int] >= 5,
                decreases count_by_suit@[suit as int],
            {
                proof {
                    lemma_drop_lowest_step(whole, suited_cards, dropped);
                    dropped = dropped + 1;
                }
                suited_cards = suited_cards & (suited_cards - 1);
                count_by_suit[suit] = count_by_suit[suit] - 1;
            }
            proof {
                lemma_dropped_is_top(whole, suited_cards, dropped, 5);
            }
            return HandEvaluation::new_flush(suited_cards);
        }
        suit = suit + 1;
    }
    assert(flush_suit_from(suits, 0) is None);
    assert(hand_value(cards@) == value_below_flush(suits));

    // Check for straight.
    if let Some(high_card) = check_for_straight(number_bitset) {
        return HandEvaluation::new_straight(high_card);
    }
    proof {
        lemma_highest_with_count(counts, 4, 14);
        lemma_highest_with_count(counts, 3, 14);
        lemma_highest_with_count(counts, 2, 14);
    }

    // Check for three of a kind.
    if let Some(high_card) = three_of_a_kind {
        proof {
            let triple = highest_with_count(counts, 3, 14).unwrap();
            lemma_highest_pair_beside(counts, triple, 14);
            lemma_kicker_total(suits, triple);
            lemma_strip_two(without_rank(number_bitset, triple), 2);
        }
        let mut kickers = number_bitset;
        kickers = kickers & !high_card.as_bit();
        kickers = kickers & (kickers - 1);
        kickers = kickers & (kickers - 1);
        return HandEvaluation::new_three_of_a_kind(high_card, kickers);
    }

    // Check for two pair and pair.
    if let Some(high_card) = check_for_pair(&count_by_number) {
        let ghost pair = highest_with_count(counts, 2, 14).unwrap();
        if let Some(low_card) = highest_rank_with_count(
            &count_by_number,
            2,
            high_card.value() - 1,
        ) {
            proof {
                let low = highest_with_count(counts, 2, pair - 1).unwrap();
                lemma_highest_with_count(counts, 2, pair - 1);
                lemma_kicker_exists(suits, pair, low);
            }
            let mut bitset = number_bitset;
            bitset = bitset & !high_card.as_bit();
            bitset = bitset & !low_card.as_bit();

            let kicker = highest_card_in_set(bitset);
            return HandEvaluation::new_two_pair(high_card, low_card, kicker);
        }
        // There is only a single pair.
        // So, remove the bottom 2 cards from the hand and return.
        proof {
            lemma_highest_with_count(counts, 2, pair - 1);
            lemma_kicker_total(suits, pair);
            lemma_strip_two(without_rank(number_bitset, pair), 3);
        }
        let mut kickers = number_bitset;
        kickers = kickers & !high_card.as_bit();
        kickers = kickers & (kickers - 1);
        kickers = kickers & (kickers - 1);
        return HandEvaluation::new_pair(high_card, kickers);
    }
    // At this point, the only thing left is a high card hand.
    // So, remove the bottom 2 cards from the hand and return.

    proof {
        lemma_seven_ranks(suits);
        lemma_strip_two(number_bitset, 5);
    }
    let mut five_highest_cards = number_bitset;
    five_highest_cards = five_highest_cards & (five_highest_cards - 1);
    five_highest_cards = five_highest_cards & (five_highest_cards - 1);
    HandEvaluation::new_high_card(five_highest_cards)
}

} // verus!
