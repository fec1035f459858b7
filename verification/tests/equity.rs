use poker_calculator::{
    compute_equity, compute_result, Card, EquityResult, InvalidInput, Number, Suit,
};

fn card(suit: Suit, number: Number) -> Card {
    Card::new(suit, number)
}

/// All cards of the deck but the given ones.
fn all_but(kept: &[Card]) -> Vec<Card> {
    let mut others = Vec::new();
    for suit in 0..4 {
        for number in 2..=14 {
            let card = Card::new(Suit::from_u8(suit), Number::from_u8(number));
            if !kept.contains(&card) {
                others.push(card);
            }
        }
    }
    others
}

#[test]
fn test_heads_up_counts_every_board() {
    let result = compute_result(
        [card(Suit::Hearts, Number::Queen), card(Suit::Hearts, Number::King)],
        [card(Suit::Spades, Number::Two), card(Suit::Hearts, Number::Two)],
    );
    assert_eq!(result.count, 1_712_304);
    assert_eq!(result.win_count + result.loss_count + result.tie_count, result.count);
    assert!(result.win_count > 0);
    assert!(result.loss_count > 0);
    assert!(result.tie_count > 0);
}

#[test]
fn test_heads_up_is_reproducible() {
    let hand1 = [card(Suit::Hearts, Number::Queen), card(Suit::Hearts, Number::King)];
    let hand2 = [card(Suit::Spades, Number::Two), card(Suit::Hearts, Number::Two)];
    let first = compute_result(hand1, hand2);
    let second = compute_result(hand1, hand2);
    assert_eq!(first.win_count, second.win_count);
    assert_eq!(first.loss_count, second.loss_count);
    assert_eq!(first.tie_count, second.tie_count);
    assert_eq!(first.count, second.count);
}

#[test]
fn test_equity_of_two_hands_agrees_with_heads_up() {
    let hand1 = [card(Suit::Hearts, Number::Queen), card(Suit::Hearts, Number::King)];
    let hand2 = [card(Suit::Spades, Number::Two), card(Suit::Hearts, Number::Two)];
    let heads_up = compute_result(hand1, hand2);
    let equity = compute_equity(&[hand1, hand2], &[]).unwrap();
    assert_eq!(equity.len(), 2);
    assert_eq!(equity[0].count, 1_712_304);
    assert_eq!(equity[1].count, 1_712_304);
    assert_eq!(equity[0].win_count, heads_up.win_count);
    assert_eq!(equity[0].loss_count, heads_up.loss_count);
    assert_eq!(equity[0].tie_count, heads_up.tie_count);
    assert_eq!(equity[1].win_count, heads_up.loss_count);
    assert_eq!(equity[1].loss_count, heads_up.win_count);
    assert_eq!(equity[1].tie_count, heads_up.tie_count);
}

#[test]
fn test_equity_over_six_boards() {
    let aces = [card(Suit::Spades, Number::Ace), card(Suit::Hearts, Number::Ace)];
    let kings = [card(Suit::Spades, Number::King), card(Suit::Hearts, Number::King)];
    let deck = [
        card(Suit::Clubs, Number::Two),
        card(Suit::Diamonds, Number::Seven),
        card(Suit::Clubs, Number::Nine),
        card(Suit::Diamonds, Number::Jack),
        card(Suit::Diamonds, Number::King),
        card(Suit::Spades, Number::Three),
    ];
    let mut kept = deck.to_vec();
    kept.extend_from_slice(&aces);
    kept.extend_from_slice(&kings);
    let dead = all_but(&kept);
    assert_eq!(dead.len(), 42);
    let equity = compute_equity(&[aces, kings], &dead).unwrap();
    assert_eq!(
        equity,
        vec![
            EquityResult { win_count: 1, loss_count: 5, tie_count: 0, count: 6 },
            EquityResult { win_count: 5, loss_count: 1, tie_count: 0, count: 6 },
        ]
    );
}

#[test]
fn test_equity_with_a_tie_for_the_best_hand() {
    let first = [card(Suit::Spades, Number::Ace), card(Suit::Hearts, Number::King)];
    let second = [card(Suit::Hearts, Number::Ace), card(Suit::Spades, Number::King)];
    let third = [card(Suit::Clubs, Number::Four), card(Suit::Spades, Number::Five)];
    let board = [
        card(Suit::Clubs, Number::Two),
        card(Suit::Diamonds, Number::Seven),
        card(Suit::Clubs, Number::Nine),
        card(Suit::Diamonds, Number::Jack),
        card(Suit::Diamonds, Number::Three),
    ];
    let mut kept = board.to_vec();
    kept.extend_from_slice(&first);
    kept.extend_from_slice(&second);
    kept.extend_from_slice(&third);
    let dead = all_but(&kept);
    let equity = compute_equity(&[first, second, third], &dead).unwrap();
    assert_eq!(
        equity,
        vec![
            EquityResult { win_count: 0, loss_count: 0, tie_count: 1, count: 1 },
            EquityResult { win_count: 0, loss_count: 0, tie_count: 1, count: 1 },
            EquityResult { win_count: 0, loss_count: 1, tie_count: 0, count: 1 },
        ]
    );
}

#[test]
fn test_equity_where_all_hands_tie() {
    let first = [card(Suit::Spades, Number::Two), card(Suit::Hearts, Number::Three)];
    let second = [card(Suit::Hearts, Number::Two), card(Suit::Spades, Number::Three)];
    let board = [
        card(Suit::Clubs, Number::Ten),
        card(Suit::Diamonds, Number::Jack),
        card(Suit::Clubs, Number::Queen),
        card(Suit::Diamonds, Number::King),
        card(Suit::Diamonds, Number::Ace),
    ];
    let mut kept = board.to_vec();
    kept.extend_from_slice(&first);
    kept.extend_from_slice(&second);
    let dead = all_but(&kept);
    let equity = compute_equity(&[first, second], &dead).unwrap();
    assert_eq!(
        equity,
        vec![
            EquityResult { win_count: 0, loss_count: 0, tie_count: 1, count: 1 },
            EquityResult { win_count: 0, loss_count: 0, tie_count: 1, count: 1 },
        ]
    );
}

#[test]
fn test_equity_with_too_few_cards_for_a_board() {
    let first = [card(Suit::Spades, Number::Two), card(Suit::Hearts, Number::Three)];
    let second = [card(Suit::Hearts, Number::Two), card(Suit::Spades, Number::Three)];
    let mut kept = vec![
        card(Suit::Clubs, Number::Ten),
        card(Suit::Diamonds, Number::Jack),
        card(Suit::Clubs, Number::Queen),
        card(Suit::Diamonds, Number::King),
    ];
    kept.extend_from_slice(&first);
    kept.extend_from_slice(&second);
    let dead = all_but(&kept);
    let equity = compute_equity(&[first, second], &dead).unwrap();
    assert_eq!(
        equity,
        vec![
            EquityResult { win_count: 0, loss_count: 0, tie_count: 0, count: 0 },
            EquityResult { win_count: 0, loss_count: 0, tie_count: 0, count: 0 },
        ]
    );
}

#[test]
fn test_equity_counts_the_boards_of_the_remaining_deck() {
    let hands = [
        [card(Suit::Spades, Number::Ace), card(Suit::Clubs, Number::King)],
        [card(Suit::Hearts, Number::Queen), card(Suit::Spades, Number::Queen)],
        [card(Suit::Diamonds, Number::Seven), card(Suit::Diamonds, Number::Eight)],
    ];
    let kept: Vec<Card> = (2..=14).map(|n| card(Suit::Hearts, Number::from_u8(n))).collect();
    let mut kept_all = kept.clone();
    for hand in hands {
        kept_all.extend_from_slice(&hand);
    }
    let dead = all_but(&kept_all);
    // The queen of hearts is a hole card, so twelve hearts are left: C(12, 5) boards.
    let equity = compute_equity(&hands, &dead).unwrap();
    assert_eq!(equity.len(), 3);
    for result in &equity {
        assert_eq!(result.count, 792);
        assert_eq!(result.win_count + result.loss_count + result.tie_count, result.count);
    }
    let again = compute_equity(&hands, &dead).unwrap();
    assert_eq!(equity, again);
}

#[test]
fn test_equity_refuses_a_single_hand() {
    let hand = [card(Suit::Spades, Number::Ace), card(Suit::Clubs, Number::King)];
    assert_eq!(compute_equity(&[hand], &[]), Err(InvalidInput::TooFewHands));
    assert_eq!(compute_equity(&[], &[]), Err(InvalidInput::TooFewHands));
    let dead = [card(Suit::Spades, Number::Ace), card(Suit::Spades, Number::Ace)];
    assert_eq!(compute_equity(&[hand], &dead), Err(InvalidInput::TooFewHands));
}

#[test]
fn test_equity_refuses_a_card_within_a_hand_twice() {
    let twice = [card(Suit::Spades, Number::Ace), card(Suit::Spades, Number::Ace)];
    let other = [card(Suit::Hearts, Number::Queen), card(Suit::Spades, Number::Queen)];
    assert_eq!(compute_equity(&[twice, other], &[]), Err(InvalidInput::DuplicateCard));
}

#[test]
fn test_equity_refuses_a_card_in_two_hands() {
    let first = [card(Suit::Spades, Number::Ace), card(Suit::Clubs, Number::King)];
    let second = [card(Suit::Hearts, Number::Queen), card(Suit::Spades, Number::Ace)];
    assert_eq!(compute_equity(&[first, second], &[]), Err(InvalidInput::DuplicateCard));
}

#[test]
fn test_equity_refuses_a_dead_card_that_is_in_play() {
    let first = [card(Suit::Spades, Number::Ace), card(Suit::Clubs, Number::King)];
    let second = [card(Suit::Hearts, Number::Queen), card(Suit::Spades, Number::Queen)];
    let in_hand = [card(Suit::Clubs, Number::King)];
    assert_eq!(compute_equity(&[first, second], &in_hand), Err(InvalidInput::DuplicateCard));
    let twice = [card(Suit::Clubs, Number::Two), card(Suit::Clubs, Number::Two)];
    assert_eq!(compute_equity(&[first, second], &twice), Err(InvalidInput::DuplicateCard));
}
