//! The equity engine: how often each starting hand wins, loses or ties over
//! every board that the rest of the deck can deal.

use crate::card::Card;
use crate::combinations::{
    binomial, combinations, five_card_combinations, lemma_combinations_len,
    lemma_combinations_members,
};
use crate::deck::{deal_remaining, lemma_deck_without, lemma_remaining_len, remaining_deck};
use crate::evaluation::HandEvaluation;
use crate::evaluator::evaluate_hand;
use crate::hand::{hand_value, is_hand};
use vstd::prelude::*;

verus! {

/// How one starting hand fared against another over all boards.
pub struct ComputeResult {
    pub win_count: u64,
    pub loss_count: u64,
    pub tie_count: u64,
    pub count: u64,
}

/// How one starting hand fared against the others over all boards.
#[derive(Clone, Copy, Debug, PartialEq, Eq, Structural)]
pub struct EquityResult {
    pub win_count: u64,
    pub loss_count: u64,
    pub tie_count: u64,
    pub count: u64,
}

/// Why the equity of a set of starting hands cannot be computed.
#[derive(Clone, Copy, Debug, PartialEq, Eq, Structural)]
pub enum InvalidInput {
    /// Fewer than two starting hands were given.
    TooFewHands,
    /// A card occurs more than once among the starting hands and the dead
    /// cards.
    DuplicateCard,
}

/// How a starting hand fares on one board.
#[derive(Clone, Copy, Debug, PartialEq, Eq, Structural)]
pub enum Outcome {
    Win,
    Loss,
    Tie,
}

/// The hole cards of all starting hands, hand by hand, followed by the dead
/// cards.
pub open spec fn all_cards(hands: Seq<[Card; 2]>, dead_cards: Seq<Card>) -> Seq<Card> {
    Seq::new(
        2 * hands.len() + dead_cards.len(),
        |k: int|
            if k < 2 * hands.len() {
                hands[k / 2]@[k % 2]
            } else {
                dead_cards[k - 2 * hands.len()]
            },
    )
}

/// The boards that can be dealt once the given cards are out of the deck, in
/// the order in which they are dealt.
pub open spec fn boards_without(taken: Seq<Card>) -> Seq<Seq<Card>> {
    combinations(remaining_deck(taken), 5)
}

/// The value of the starting hand `hand` on `board`.
pub open spec fn showdown_value(hands: Seq<[Card; 2]>, board: Seq<Card>, hand: int)
    -> HandEvaluation {
    hand_value(board + hands[hand]@)
}

/// How the starting hand `hand` fares on `board`: it loses where another
/// hand is worth more, ties where none is worth more and another is worth
/// as much, and wins where it is worth more than every other.
pub open spec fn outcome(hands: Seq<[Card; 2]>, board: Seq<Card>, hand: int) -> Outcome {
    let own = showdown_value(hands, board, hand);
    if exists|other: int|
        0 <= other < hands.len() && own.weaker_than(#[trigger] showdown_value(hands, board, other)) {
        Outcome::Loss
    } else if exists|other: int|
        0 <= other < hands.len() && other != hand && #[trigger] showdown_value(hands, board, other)
            == own {
        Outcome::Tie
    } else {
        Outcome::Win
    }
}

/// On how many of the boards the starting hand `hand` has the outcome
/// `wanted`.
pub open spec fn outcome_count(
    hands: Seq<[Card; 2]>,
    boards: Seq<Seq<Card>>,
    hand: int,
    wanted: Outcome,
) -> nat
    decreases boards.len(),
{
    if boards.len() == 0 {
        0
    } else {
        outcome_count(hands, boards.drop_last(), hand, wanted) + if outcome(
            hands,
            boards.last(),
            hand,
        ) == wanted {
            1nat
        } else {
            0nat
        }
    }
}

/// Wins, losses and ties add up to the number of boards.
pub proof fn lemma_outcomes_total(hands: Seq<[Card; 2]>, boards: Seq<Seq<Card>>, hand: int)
    ensures
        outcome_count(hands, boards, hand, Outcome::Win) + outcome_count(
            hands,
            boards,
            hand,
            Outcome::Loss,
        ) + outcome_count(hands, boards, hand, Outcome::Tie) == boards.len(),
    decreases boards.len(),
{
    if boards.len() > 0 {
        lemma_outcomes_total(hands, boards.drop_last(), hand);
    }
}

/// One more board adds its outcome to the count.
proof fn lemma_outcome_step(
    hands: Seq<[Card; 2]>,
    boards: Seq<Seq<Card>>,
    dealt: int,
    hand: int,
    wanted: Outcome,
)
    requires
        0 <= dealt < boards.len(),
    ensures
        outcome_count(hands, boards.take(dealt + 1), hand, wanted) == outcome_count(
            hands,
            boards.take(dealt),
            hand,
            wanted,
        ) + if outcome(hands, boards[dealt], hand) == wanted {
            1nat
        } else {
            0nat
        },
{
    assert(boards.take(dealt + 1).drop_last() == boards.take(dealt));
}

/// A board of the remaining deck and two hole cards that were taken from
/// the deck make seven cards of one deck.
proof fn lemma_showdown_is_hand(taken: Seq<Card>, index: int, hole: Seq<Card>)
    requires
        0 <= index < boards_without(taken).len(),
        hole.len() == 2,
        hole[0] != hole[1],
        taken.contains(hole[0]),
        taken.contains(hole[1]),
    ensures
        boards_without(taken)[index].len() == 5,
        is_hand(boards_without(taken)[index] + hole),
{
    let deck = remaining_deck(taken);
    let board = boards_without(taken)[index];
    lemma_deck_without(taken, 52);
    lemma_combinations_members(deck, 5, index);
    let seven = board + hole;
    assert forall|a: int, b: int| 0 <= a < b < seven.len() implies seven[a] != seven[b] by {
        if a < 5 {
            assert(deck.contains(board[a]));
            let k = choose|k: int| 0 <= k < deck.len() && deck[k] == board[a];
            assert(!taken.contains(deck[k]));
        }
    }
}

/// The hole cards of each hand are among all cards.
proof fn lemma_hole_cards(hands: Seq<[Card; 2]>, dead_cards: Seq<Card>, hand: int)
    requires
        0 <= hand < hands.len(),
        all_cards(hands, dead_cards).no_duplicates(),
    ensures
        hands[hand]@.len() == 2,
        hands[hand]@[0] != hands[hand]@[1],
        all_cards(hands, dead_cards).contains(hands[hand]@[0]),
        all_cards(hands, dead_cards).contains(hands[hand]@[1]),
{
    let cards = all_cards(hands, dead_cards);
    assert(cards[2 * hand] == hands[hand]@[0]);
    assert(cards[2 * hand + 1] == hands[hand]@[1]);
}

/// Of two starting hands the first wins where it is worth more, loses where
/// it is worth less, and ties where both are worth the same.
proof fn lemma_heads_up(hands: Seq<[Card; 2]>, board: Seq<Card>)
    requires
        hands.len() == 2,
    ensures
        outcome(hands, board, 0) == if showdown_value(hands, board, 0) == showdown_value(
            hands,
            board,
            1,
        ) {
            Outcome::Tie
        } else if showdown_value(hands, board, 1).weaker_than(showdown_value(hands, board, 0)) {
            Outcome::Win
        } else {
            Outcome::Loss
        },
{
    let own = showdown_value(hands, board, 0);
    let their = showdown_value(hands, board, 1);
    own.lemma_trichotomy(their);
    own.lemma_trichotomy(own);
}

/// How the first of two starting hands fares against the second over every
/// board that the other 48 cards can deal.
#[must_use]
pub fn compute_result(hand1: [Card; 2], hand2: [Card; 2]) -> (result: ComputeResult)
    requires
        all_cards(seq![hand1, hand2], Seq::empty()).no_duplicates(),
    ensures
        ({
            let hands = seq![hand1, hand2];
            let boards = boards_without(all_cards(hands, Seq::empty()));
            &&& result.win_count == outcome_count(hands, boards, 0, Outcome::Win)
            &&& result.loss_count == outcome_count(hands, boards, 0, Outcome::Loss)
            &&& result.tie_count == outcome_count(hands, boards, 0, Outcome::Tie)
            &&& result.count == boards.len()
        }),
        result.count == binomial(48, 5),
        result.win_count + result.loss_count + result.tie_count == result.count,
{
    let ghost hands = seq![hand1, hand2];
    let ghost taken = all_cards(hands, Seq::empty());
    let ghost all_boards = boards_without(taken);
    let mut hole_cards: Vec<Card> = Vec::new();
    let (first, second, third, fourth) = (hand1[0], hand1[1], hand2[0], hand2[1]);
    hole_cards.push(first);
    hole_cards.push(second);
    hole_cards.push(third);
    hole_cards.push(fourth);
    proof {
        assert(hole_cards@ =~= taken);
        use_type_invariant(first);
        use_type_invariant(second);
        use_type_invariant(third);
        use_type_invariant(fourth);
        lemma_remaining_len(taken);
        lemma_combinations_len(remaining_deck(taken), 5);
    }
    let deck = deal_remaining(&hole_cards);
    let boards = five_card_combinations(&deck);

    let mut tie_count: u64 = 0;
    let mut win_count: u64 = 0;
    let mut loss_count: u64 = 0;
    let mut count: u64 = 0;

    let mut index: usize = 0;
    while index < boards.len()
        invariant
            index <= boards.len(),
            hands == seq![hand1, hand2],
            taken == all_cards(hands, Seq::empty()),
            taken.no_duplicates(),
            all_boards == boards_without(taken),
            boards@.len() == all_boards.len(),
            forall|i: int| 0 <= i < boards@.len() ==> (#[trigger] boards@[i])@ == all_boards[i],
            win_count == outcome_count(hands, all_boards.take(index as int), 0, Outcome::Win),
            loss_count == outcome_count(hands, all_boards.take(index as int), 0, Outcome::Loss),
            tie_count == outcome_count(hands, all_boards.take(index as int), 0, Outcome::Tie),
            count == index,
        decreases boards.len() - index,
    {
        let board = boards[index];
        let hand_a = [board[0], board[1], board[2], board[3], board[4], hand1[0], hand1[1]];
        let hand_b = [board[0], board[1], board[2], board[3], board[4], hand2[0], hand2[1]];
        proof {
            let dealt = all_boards[index as int];
            assert(board@ == dealt);
            lemma_hole_cards(hands, Seq::empty(), 0);
            lemma_hole_cards(hands, Seq::empty(), 1);
            lemma_showdown_is_hand(taken, index as int, hand1@);
            lemma_showdown_is_hand(taken, index as int, hand2@);
            assert(hand_a@ =~= dealt + hand1@);
            assert(hand_b@ =~= dealt + hand2@);
            lemma_outcomes_total(hands, all_boards.take(index as int), 0);
            lemma_outcome_step(hands, all_boards, index as int, 0, Outcome::Win);
            lemma_outcome_step(hands, all_boards, index as int, 0, Outcome::Loss);
            lemma_outcome_step(hands, all_boards, index as int, 0, Outcome::Tie);
        }
        let a_result = evaluate_hand(hand_a);
        let b_result = evaluate_hand(hand_b);
        proof {
            let dealt = all_boards[index as int];
            assert(a_result == showdown_value(hands, dealt, 0));
            assert(b_result == showdown_value(hands, dealt, 1));
            a_result.lemma_trichotomy(b_result);
            lemma_heads_up(hands, dealt);
        }
        if a_result == b_result {
            tie_count = tie_count + 1;
        } else if a_result > b_result {
            win_count = win_count + 1;
        } else {
            loss_count = loss_count + 1;
        }
        count = count + 1;
        index = index + 1;
    }
    proof {
        assert(all_boards.take(index as int) == all_boards);
        lemma_outcomes_total(hands, all_boards, 0);
    }
    ComputeResult { win_count, loss_count, tie_count, count }
}

/// How often `target` occurs among `values`.
pub open spec fn occurrences(values: Seq<HandEvaluation>, target: HandEvaluation) -> nat
    decreases values.len(),
{
    if values.len() == 0 {
        0
    } else {
        occurrences(values.drop_last(), target) + if values.last() == target {
            1nat
        } else {
            0nat
        }
    }
}

/// A value occurs zero times exactly if it is not among the values.
proof fn lemma_no_occurrence(values: Seq<HandEvaluation>, target: HandEvaluation)
    ensures
        occurrences(values, target) == 0 <==> forall|j: int|
            0 <= j < values.len() ==> values[j] != target,
    decreases values.len(),
{
    if values.len() > 0 {
        lemma_no_occurrence(values.drop_last(), target);
        if occurrences(values, target) == 0 {
            assert forall|j: int| 0 <= j < values.len() implies values[j] != target by {
                if j < values.len() - 1 {
                    assert(values.drop_last()[j] == values[j]);
                }
            }
        } else if forall|j: int| 0 <= j < values.len() ==> values[j] != target {
            assert forall|j: int| 0 <= j < values.drop_last().len() implies values.drop_last()[j]
                != target by {
                assert(values.drop_last()[j] == values[j]);
            }
        }
    }
}

/// A value that stands at `index` occurs once exactly if it stands nowhere
/// else.
proof fn lemma_one_occurrence(values: Seq<HandEvaluation>, target: HandEvaluation, index: int)
    requires
        0 <= index < values.len(),
        values[index] == target,
    ensures
        occurrences(values, target) >= 1,
        occurrences(values, target) == 1 <==> forall|j: int|
            0 <= j < values.len() && j != index ==> values[j] != target,
    decreases values.len(),
{
    let front = values.drop_last();
    let last = values.len() - 1;
    if index == last {
        lemma_no_occurrence(front, target);
        if occurrences(values, target) == 1 {
            assert forall|j: int| 0 <= j < values.len() && j != index implies values[j]
                != target by {
                assert(front[j] == values[j]);
            }
        } else if forall|j: int| 0 <= j < values.len() && j != index ==> values[j] != target {
            assert forall|j: int| 0 <= j < front.len() implies front[j] != target by {
                assert(front[j] == values[j]);
            }
        }
    } else {
        assert(front[index] == values[index]);
        lemma_one_occurrence(front, target, index);
        if occurrences(values, target) == 1 {
            assert forall|j: int| 0 <= j < values.len() && j != index implies values[j]
                != target by {
                if j < last {
                    assert(front[j] == values[j]);
                }
            }
        } else if forall|j: int| 0 <= j < values.len() && j != index ==> values[j] != target {
            assert forall|j: int| 0 <= j < front.len() && j != index implies front[j]
                != target by {
                assert(front[j] == values[j]);
            }
        }
    }
}

/// How a hand fares, told from its value, the best value on the board and
/// the number of hands that hold the best value.
pub open spec fn outcome_among(value: HandEvaluation, best: HandEvaluation, winners: nat)
    -> Outcome {
    if value != best {
        Outcome::Loss
    } else if winners == 1 {
        Outcome::Win
    } else {
        Outcome::Tie
    }
}

/// The hands that hold the best value win or tie, the others lose.
proof fn lemma_outcome_among(
    hands: Seq<[Card; 2]>,
    board: Seq<Card>,
    values: Seq<HandEvaluation>,
    best: HandEvaluation,
    hand: int,
)
    requires
        values.len() == hands.len(),
        forall|i: int| 0 <= i < hands.len() ==> values[i] == showdown_value(hands, board, i),
        values.contains(best),
        forall|i: int| 0 <= i < values.len() ==> !best.weaker_than(values[i]),
        0 <= hand < hands.len(),
    ensures
        outcome(hands, board, hand) == outcome_among(
            values[hand],
            best,
            occurrences(values, best),
        ),
{
    let own = showdown_value(hands, board, hand);
    let top = choose|k: int| 0 <= k < values.len() && values[k] == best;
    assert(showdown_value(hands, board, top) == best);
    own.lemma_trichotomy(best);
    if own == best {
        lemma_one_occurrence(values, best, hand);
        assert forall|other: int| 0 <= other < hands.len() implies !own.weaker_than(
            #[trigger] showdown_value(hands, board, other),
        ) by {
            assert(values[other] == showdown_value(hands, board, other));
        }
        if occurrences(values, best) == 1 {
            assert forall|other: int| 0 <= other < hands.len() && other != hand implies
                #[trigger] showdown_value(hands, board, other) != own by {
                assert(values[other] == showdown_value(hands, board, other));
            }
        } else {
            let other = choose|j: int| 0 <= j < values.len() && j != hand && values[j] == best;
            assert(showdown_value(hands, board, other) == own);
        }
    }
}

/// The hole cards of all starting hands, hand by hand, followed by the dead
/// cards.
fn gather_cards(hands: &[[Card; 2]], dead_cards: &[Card]) -> (taken: Vec<Card>)
    ensures
        taken@ == all_cards(hands@, dead_cards@),
        forall|k: int| 0 <= k < taken@.len() ==> (#[trigger] taken@[k]).well_formed(),
{
    let ghost cards = all_cards(hands@, dead_cards@);
    let mut taken: Vec<Card> = Vec::new();
    let mut hand: usize = 0;
    while hand < hands.len()
        invariant
            hand <= hands.len(),
            cards == all_cards(hands@, dead_cards@),
            taken@.len() == 2 * hand,
            forall|k: int| 0 <= k < taken@.len() ==> taken@[k] == cards[k],
            forall|k: int| 0 <= k < taken@.len() ==> (#[trigger] taken@[k]).well_formed(),
        decreases hands.len() - hand,
    {
        let first = hands[hand][0];
        let second = hands[hand][1];
        proof {
            use_type_invariant(first);
            use_type_invariant(second);
            assert(cards[2 * hand] == first);
            assert(cards[2 * hand + 1] == second);
        }
        taken.push(first);
        taken.push(second);
        hand = hand + 1;
    }
    let mut index: usize = 0;
    while index < dead_cards.len()
        invariant
            index <= dead_cards.len(),
            cards == all_cards(hands@, dead_cards@),
            taken@.len() == 2 * hands@.len() + index,
            forall|k: int| 0 <= k < taken@.len() ==> taken@[k] == cards[k],
            forall|k: int| 0 <= k < taken@.len() ==> (#[trigger] taken@[k]).well_formed(),
        decreases dead_cards.len() - index,
    {
        let card = dead_cards[index];
        proof {
            use_type_invariant(card);
            assert(cards[2 * hands@.len() + index] == card);
        }
        taken.push(card);
        index = index + 1;
    }
    assert(taken@ =~= cards);
    taken
}

/// Whether a card occurs twice among `cards`.
fn has_duplicate(cards: &Vec<Card>) -> (found: bool)
    ensures
        found == !cards@.no_duplicates(),
{
    let mut later: usize = 0;
    while later < cards.len()
        invariant
            later <= cards.len(),
            forall|a: int, b: int| 0 <= a < b < later ==> cards@[a] != cards@[b],
        decreases cards.len() - later,
    {
        let mut earlier: usize = 0;
        while earlier < later
            invariant
                earlier <= later < cards.len(),
                forall|a: int| 0 <= a < earlier ==> cards@[a] != cards@[later as int],
            decreases later - earlier,
        {
            if cards[earlier] == cards[later] {
                return true;
            }
            earlier = earlier + 1;
        }
        later = later + 1;
    }
    false
}

/// The value of each starting hand on the board.
fn showdown(hands: &[[Card; 2]], board: &[Card; 5]) -> (values: Vec<HandEvaluation>)
    requires
        forall|i: int| 0 <= i < hands@.len() ==> is_hand(board@ + (#[trigger] hands@[i])@),
    ensures
        values@.len() == hands@.len(),
        forall|i: int|
            0 <= i < hands@.len() ==> #[trigger] values@[i] == showdown_value(hands@, board@, i),
{
    let mut values: Vec<HandEvaluation> = Vec::new();
    let mut hand: usize = 0;
    while hand < hands.len()
        invariant
            hand <= hands.len(),
            values@.len() == hand,
            forall|i: int| 0 <= i < hands@.len() ==> is_hand(board@ + (#[trigger] hands@[i])@),
            forall|i: int|
                0 <= i < hand ==> #[trigger] values@[i] == showdown_value(hands@, board@, i),
        decreases hands.len() - hand,
    {
        let hole = hands[hand];
        let seven = [board[0], board[1], board[2], board[3], board[4], hole[0], hole[1]];
        assert(seven@ =~= board@ + hands@[hand as int]@);
        values.push(evaluate_hand(seven));
        hand = hand + 1;
    }
    values
}

/// The best of the values.
fn best_value(values: &Vec<HandEvaluation>) -> (best: HandEvaluation)
    requires
        values@.len() > 0,
    ensures
        values@.contains(best),
        forall|i: int| 0 <= i < values@.len() ==> !best.weaker_than(values@[i]),
{
    let mut best = values[0];
    let mut index: usize = 1;
    while index < values.len()
        invariant
            1 <= index <= values.len(),
            values@.contains(best),
            forall|i: int| 0 <= i < index ==> !best.weaker_than(values@[i]),
        decreases values.len() - index,
    {
        let value = values[index];
        if value > best {
            proof {
                assert forall|i: int| 0 <= i < index implies !value.weaker_than(values@[i]) by {
                    if value.weaker_than(values@[i]) {
                        best.lemma_transitive(value, values@[i]);
                    }
                }
                value.lemma_trichotomy(value);
            }
            best = value;
        } else {
            proof {
                best.lemma_trichotomy(value);
            }
        }
        index = index + 1;
    }
    best
}

/// How many of the values equal `target`.
fn count_winners(values: &Vec<HandEvaluation>, target: HandEvaluation) -> (winners: usize)
    ensures
        winners == occurrences(values@, target),
{
    let mut winners: usize = 0;
    let mut index: usize = 0;
    while index < values.len()
        invariant
            index <= values.len(),
            winners == occurrences(values@.take(index as int), target),
            winners <= index,
        decreases values.len() - index,
    {
        assert(values@.take(index + 1).drop_last() == values@.take(index as int));
        if values[index] == target {
            winners = winners + 1;
        }
        index = index + 1;
    }
    assert(values@.take(index as int) == values@);
    winners
}

/// Whether `result` tells how the starting hand `hand` fares over `boards`.
pub open spec fn is_equity(
    result: EquityResult,
    hands: Seq<[Card; 2]>,
    boards: Seq<Seq<Card>>,
    hand: int,
) -> bool {
    &&& result.win_count == outcome_count(hands, boards, hand, Outcome::Win)
    &&& result.loss_count == outcome_count(hands, boards, hand, Outcome::Loss)
    &&& result.tie_count == outcome_count(hands, boards, hand, Outcome::Tie)
    &&& result.count == boards.len()
}

/// Adds the outcomes of one board to the results of the boards before it.
fn record_board(
    results: &mut Vec<EquityResult>,
    values: &Vec<HandEvaluation>,
    Ghost(hands): Ghost<Seq<[Card; 2]>>,
    Ghost(boards): Ghost<Seq<Seq<Card>>>,
    Ghost(dealt): Ghost<int>,
)
    requires
        0 <= dealt < boards.len(),
        boards.len() <= usize::MAX,
        hands.len() >= 1,
        old(results)@.len() == hands.len(),
        values@.len() == hands.len(),
        forall|i: int|
            0 <= i < hands.len() ==> values@[i] == showdown_value(hands, boards[dealt], i),
        forall|i: int|
            0 <= i < hands.len() ==> is_equity(
                #[trigger] old(results)@[i],
                hands,
                boards.take(dealt),
                i,
            ),
    ensures
        final(results)@.len() == hands.len(),
        forall|i: int|
            0 <= i < hands.len() ==> is_equity(
                #[trigger] final(results)@[i],
                hands,
                boards.take(dealt + 1),
                i,
            ),
{
    let best = best_value(values);
    let winners = count_winners(values, best);
    let mut hand: usize = 0;
    while hand < values.len()
        invariant
            hand <= values.len(),
            0 <= dealt < boards.len(),
            boards.len() <= usize::MAX,
            results@.len() == hands.len(),
            values@.len() == hands.len(),
            values@.contains(best),
            forall|i: int| 0 <= i < values@.len() ==> !best.weaker_than(values@[i]),
            winners == occurrences(values@, best),
            forall|i: int|
                0 <= i < hands.len() ==> values@[i] == showdown_value(hands, boards[dealt], i),
            forall|i: int|
                0 <= i < hand ==> is_equity(
                    #[trigger] results@[i],
                    hands,
                    boards.take(dealt + 1),
                    i,
                ),
            forall|i: int|
                hand <= i < hands.len() ==> is_equity(
                    #[trigger] results@[i],
                    hands,
                    boards.take(dealt),
                    i,
                ),
        decreases values.len() - hand,
    {
        let mut result = results[hand];
        proof {
            let h = hand as int;
            lemma_outcome_among(hands, boards[dealt], values@, best, h);
            lemma_outcomes_total(hands, boards.take(dealt), h);
            lemma_outcome_step(hands, boards, dealt, h, Outcome::Win);
            lemma_outcome_step(hands, boards, dealt, h, Outcome::Loss);
            lemma_outcome_step(hands, boards, dealt, h, Outcome::Tie);
        }
        if values[hand] == best {
            if winners == 1 {
                result.win_count = result.win_count + 1;
            } else {
                result.tie_count = result.tie_count + 1;
            }
        } else {
            result.loss_count = result.loss_count + 1;
        }
        result.count = result.count + 1;
        results.set(hand, result);
        hand = hand + 1;
    }
}

/// How each starting hand fares against the others over every board that
/// can be dealt from the deck without the hole cards and the dead cards.
///
/// On each board the hands that hold the best value tie, or the one that
/// holds it alone wins, and the others lose.
pub fn compute_equity(hands: &[[Card; 2]], dead_cards: &[Card]) -> (result: Result<
    Vec<EquityResult>,
    InvalidInput,
>)
    ensures
        match result {
            Ok(results) => {
                let taken = all_cards(hands@, dead_cards@);
                &&& hands@.len() >= 2
                &&& taken.no_duplicates()
                &&& results@.len() == hands@.len()
                &&& forall|hand: int|
                    0 <= hand < hands@.len() ==> {
                        let equity = #[trigger] results@[hand];
                        &&& is_equity(equity, hands@, boards_without(taken), hand)
                        &&& equity.count == binomial((52 - taken.len()) as nat, 5)
                        &&& equity.win_count + equity.loss_count + equity.tie_count
                            == equity.count
                    }
            },
            Err(InvalidInput::TooFewHands) => hands@.len() < 2,
            Err(InvalidInput::DuplicateCard) => hands@.len() >= 2 && !all_cards(
                hands@,
                dead_cards@,
            ).no_duplicates(),
        },
{
    if hands.len() < 2 {
        return Err(InvalidInput::TooFewHands);
    }
    let taken = gather_cards(hands, dead_cards);
    if has_duplicate(&taken) {
        return Err(InvalidInput::DuplicateCard);
    }
    let deck = deal_remaining(&taken);
    let boards = five_card_combinations(&deck);
    let ghost all_boards = boards_without(taken@);
    proof {
        lemma_remaining_len(taken@);
        lemma_combinations_len(remaining_deck(taken@), 5);
    }

    let mut results: Vec<EquityResult> = Vec::new();
    let mut hand: usize = 0;
    while hand < hands.len()
        invariant
            hand <= hands.len(),
            results@.len() == hand,
            forall|i: int|
                0 <= i < hand ==> is_equity(#[trigger] results@[i], hands@, all_boards.take(0), i),
        decreases hands.len() - hand,
    {
        results.push(EquityResult { win_count: 0, loss_count: 0, tie_count: 0, count: 0 });
        hand = hand + 1;
    }

    let mut index: usize = 0;
    while index < boards.len()
        invariant
            index <= boards.len(),
            hands@.len() >= 2,
            taken@ == all_cards(hands@, dead_cards@),
            taken@.no_duplicates(),
            all_boards == boards_without(taken@),
            boards@.len() == all_boards.len(),
            forall|i: int| 0 <= i < boards@.len() ==> (#[trigger] boards@[i])@ == all_boards[i],
            results@.len() == hands@.len(),
            forall|i: int|
                0 <= i < hands@.len() ==> is_equity(
                    #[trigger] results@[i],
                    hands@,
                    all_boards.take(index as int),
                    i,
                ),
        decreases boards.len() - index,
    {
        let board = boards[index];
        proof {
            assert(board@ == all_boards[index as int]);
            assert forall|i: int| 0 <= i < hands@.len() implies is_hand(
                board@ + (#[trigger] hands@[i])@,
            ) by {
                lemma_hole_cards(hands@, dead_cards@, i);
                lemma_showdown_is_hand(taken@, index as int, hands@[i]@);
            }
        }
        let values = showdown(hands, &board);
        record_board(&mut results, &values, Ghost(hands@), Ghost(all_boards), Ghost(index as int));
        index = index + 1;
    }
    proof {
        assert(all_boards.take(index as int) == all_boards);
        assert forall|i: int| 0 <= i < hands@.len() implies {
            let equity = #[trigger] results@[i];
            equity.win_count + equity.loss_count + equity.tie_count == equity.count
        } by {
            lemma_outcomes_total(hands@, all_boards, i);
        }
    }
    Ok(results)
}

/// The counts of a starting hand are determined by the hands and the boards:
/// two results for the same hand over the same boards are equal.
pub proof fn lemma_equity_is_determined(
    first: EquityResult,
    second: EquityResult,
    hands: Seq<[Card; 2]>,
    boards: Seq<Seq<Card>>,
    hand: int,
)
    requires
        is_equity(first, hands, boards, hand),
        is_equity(second, hands, boards, hand),
    ensures
        first == second,
{
}

} // verus!
