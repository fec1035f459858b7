use poker_calculator::{
    check_for_straight, evaluate_hand, Card, HandEvaluation, HandKind, Number, Suit,
};

#[test]
fn test_card_evaluations() {
    let royal_flush = HandEvaluation::new_straight_flush(Number::Ace);
    let straight_flush = HandEvaluation::new_straight_flush(Number::King);
    let ace_ten_full_house = HandEvaluation::new_full_house(Number::Ace, Number::Ten);
    let ace_nine_full_house = HandEvaluation::new_full_house(Number::Ace, Number::Nine);
    let ace_pair_ten_kicker = HandEvaluation::new_pair(
        Number::Ace,
        Number::Ten.as_bit() | Number::Eight.as_bit() | Number::Seven.as_bit(),
    );
    let ace_pair_nine_kicker = HandEvaluation::new_pair(
        Number::Ace,
        Number::Nine.as_bit() | Number::Eight.as_bit() | Number::Seven.as_bit(),
    );
    let ace_high = HandEvaluation::new_high_card(
        Number::Ace.as_bit()
            | Number::Ten.as_bit()
            | Number::Eight.as_bit()
            | Number::Seven.as_bit()
            | Number::Six.as_bit(),
    );
    let queen_high = HandEvaluation::new_high_card(
        Number::Queen.as_bit()
            | Number::Ten.as_bit()
            | Number::Eight.as_bit()
            | Number::Seven.as_bit()
            | Number::Six.as_bit(),
    );

    assert!(royal_flush > straight_flush);
    assert!(royal_flush > ace_ten_full_house);
    assert!(ace_ten_full_house == ace_ten_full_house);
    assert!(ace_ten_full_house > ace_nine_full_house);
    assert!(ace_ten_full_house > ace_high);
    assert!(ace_pair_ten_kicker > ace_pair_nine_kicker);
    assert!(ace_high > queen_high);
}

#[test]
fn test_straight_check() {
    let ace_high_mask = Number::Ace.as_bit()
        | Number::King.as_bit()
        | Number::Queen.as_bit()
        | Number::Jack.as_bit()
        | Number::Ten.as_bit();
    let five_high_mask = Number::Ace.as_bit()
        | Number::Two.as_bit()
        | Number::Three.as_bit()
        | Number::Four.as_bit()
        | Number::Five.as_bit();

    assert_eq!(check_for_straight(ace_high_mask), Some(Number::Ace));
    assert_eq!(check_for_straight(five_high_mask), Some(Number::Five));
}

#[test]
fn test_hand_evaluator() {
    let royal_flush = [
        Card::new(Suit::Clubs, Number::Ace),
        Card::new(Suit::Clubs, Number::King),
        Card::new(Suit::Clubs, Number::Queen),
        Card::new(Suit::Clubs, Number::Jack),
        Card::new(Suit::Clubs, Number::Ten),
        Card::new(Suit::Hearts, Number::Eight),
        Card::new(Suit::Hearts, Number::Five),
    ];

    let four_of_a_kind = [
        Card::new(Suit::Clubs, Number::Ace),
        Card::new(Suit::Clubs, Number::Ten),
        Card::new(Suit::Spades, Number::Ten),
        Card::new(Suit::Hearts, Number::Ten),
        Card::new(Suit::Diamonds, Number::Ten),
        Card::new(Suit::Hearts, Number::Eight),
        Card::new(Suit::Hearts, Number::Five),
    ];

    let full_house = [
        Card::new(Suit::Clubs, Number::King),
        Card::new(Suit::Hearts, Number::King),
        Card::new(Suit::Clubs, Number::Nine),
        Card::new(Suit::Clubs, Number::Eight),
        Card::new(Suit::Spades, Number::Eight),
        Card::new(Suit::Hearts, Number::Eight),
        Card::new(Suit::Hearts, Number::Five),
    ];

    let ace_high_flush = [
        Card::new(Suit::Clubs, Number::Ace),
        Card::new(Suit::Clubs, Number::King),
        Card::new(Suit::Clubs, Number::Queen),
        Card::new(Suit::Clubs, Number::Jack),
        Card::new(Suit::Clubs, Number::Nine),
        Card::new(Suit::Clubs, Number::Eight),
        Card::new(Suit::Clubs, Number::Five),
    ];

    let king_high_flush = [
        Card::new(Suit::Clubs, Number::King),
        Card::new(Suit::Clubs, Number::Queen),
        Card::new(Suit::Clubs, Number::Jack),
        Card::new(Suit::Clubs, Number::Nine),
        Card::new(Suit::Clubs, Number::Eight),
        Card::new(Suit::Diamonds, Number::Eight),
        Card::new(Suit::Clubs, Number::Five),
    ];

    let straight = [
        Card::new(Suit::Clubs, Number::Ace),
        Card::new(Suit::Clubs, Number::King),
        Card::new(Suit::Clubs, Number::Queen),
        Card::new(Suit::Clubs, Number::Jack),
        Card::new(Suit::Hearts, Number::Ten),
        Card::new(Suit::Hearts, Number::Eight),
        Card::new(Suit::Hearts, Number::Five),
    ];

    let three_of_a_kind = [
        Card::new(Suit::Clubs, Number::Ace),
        Card::new(Suit::Hearts, Number::King),
        Card::new(Suit::Clubs, Number::Nine),
        Card::new(Suit::Clubs, Number::Eight),
        Card::new(Suit::Spades, Number::Eight),
        Card::new(Suit::Hearts, Number::Eight),
        Card::new(Suit::Hearts, Number::Five),
    ];

    let two_pair_ace_high = [
        Card::new(Suit::Diamonds, Number::Ace),
        Card::new(Suit::Clubs, Number::King),
        Card::new(Suit::Diamonds, Number::King),
        Card::new(Suit::Diamonds, Number::Ten),
        Card::new(Suit::Clubs, Number::Nine),
        Card::new(Suit::Clubs, Number::Six),
        Card::new(Suit::Hearts, Number::Six),
    ];
    let two_pair_queen_high = [
        Card::new(Suit::Clubs, Number::King),
        Card::new(Suit::Diamonds, Number::King),
        Card::new(Suit::Diamonds, Number::Queen),
        Card::new(Suit::Diamonds, Number::Ten),
        Card::new(Suit::Clubs, Number::Nine),
        Card::new(Suit::Clubs, Number::Six),
        Card::new(Suit::Hearts, Number::Six),
    ];
    let ace_pair = [
        Card::new(Suit::Clubs, Number::Ace),
        Card::new(Suit::Diamonds, Number::Ace),
        Card::new(Suit::Clubs, Number::King),
        Card::new(Suit::Diamonds, Number::Ten),
        Card::new(Suit::Clubs, Number::Nine),
        Card::new(Suit::Clubs, Number::Eight),
        Card::new(Suit::Hearts, Number::Six),
    ];
    let ace_pair_lower_kicker = [
        Card::new(Suit::Clubs, Number::Ace),
        Card::new(Suit::Diamonds, Number::Ace),
        Card::new(Suit::Diamonds, Number::Queen),
        Card::new(Suit::Diamonds, Number::Ten),
        Card::new(Suit::Clubs, Number::Nine),
        Card::new(Suit::Clubs, Number::Eight),
        Card::new(Suit::Hearts, Number::Six),
    ];
    let queen_pair = [
        Card::new(Suit::Clubs, Number::Ace),
        Card::new(Suit::Clubs, Number::Queen),
        Card::new(Suit::Diamonds, Number::Queen),
        Card::new(Suit::Diamonds, Number::Ten),
        Card::new(Suit::Clubs, Number::Nine),
        Card::new(Suit::Clubs, Number::Eight),
        Card::new(Suit::Hearts, Number::Six),
    ];

    let ace_high = [
        Card::new(Suit::Clubs, Number::Ace),
        Card::new(Suit::Clubs, Number::King),
        Card::new(Suit::Diamonds, Number::Queen),
        Card::new(Suit::Diamonds, Number::Ten),
        Card::new(Suit::Clubs, Number::Nine),
        Card::new(Suit::Clubs, Number::Eight),
        Card::new(Suit::Hearts, Number::Six),
    ];

    let ace_high_slightly_lower = [
        Card::new(Suit::Clubs, Number::Ace),
        Card::new(Suit::Clubs, Number::King),
        Card::new(Suit::Diamonds, Number::Queen),
        Card::new(Suit::Diamonds, Number::Ten),
        Card::new(Suit::Clubs, Number::Nine),
        Card::new(Suit::Clubs, Number::Eight),
        Card::new(Suit::Hearts, Number::Five),
    ];

    let king_high = [
        Card::new(Suit::Clubs, Number::King),
        Card::new(Suit::Diamonds, Number::Queen),
        Card::new(Suit::Diamonds, Number::Ten),
        Card::new(Suit::Clubs, Number::Nine),
        Card::new(Suit::Clubs, Number::Eight),
        Card::new(Suit::Hearts, Number::Six),
        Card::new(Suit::Clubs, Number::Four),
    ];

    assert!(evaluate_hand(royal_flush) == HandEvaluation::new_straight_flush(Number::Ace));
    assert!(
        evaluate_hand(four_of_a_kind)
            == HandEvaluation::new_four_of_a_kind(Number::Ten, Number::Ace)
    );
    assert!(
        evaluate_hand(full_house)
            == HandEvaluation::new_full_house(Number::Eight, Number::King)
    );
    assert!(
        evaluate_hand(ace_high_flush)
            == HandEvaluation::new_flush(
                Number::Ace.as_bit()
                    | Number::King.as_bit()
                    | Number::Queen.as_bit()
                    | Number::Jack.as_bit()
                    | Number::Nine.as_bit()
            )
    );
    assert!(
        evaluate_hand(king_high_flush)
            == HandEvaluation::new_flush(
                Number::King.as_bit()
                    | Number::Queen.as_bit()
                    | Number::Jack.as_bit()
                    | Number::Nine.as_bit()
                    | Number::Eight.as_bit()
            )
    );
    assert!(evaluate_hand(straight) == HandEvaluation::new_straight(Number::Ace));
    assert!(
        evaluate_hand(three_of_a_kind)
            == HandEvaluation::new_three_of_a_kind(
                Number::Eight,
                Number::Ace.as_bit() | Number::King.as_bit()
            )
    );
    assert!(
        evaluate_hand(ace_pair)
            == HandEvaluation::new_pair(
                Number::Ace,
                Number::King.as_bit() | Number::Ten.as_bit() | Number::Nine.as_bit()
            )
    );
    assert!(
        evaluate_hand(ace_pair_lower_kicker)
            == HandEvaluation::new_pair(
                Number::Ace,
                Number::Queen.as_bit() | Number::Ten.as_bit() | Number::Nine.as_bit()
            )
    );
    assert!(
        evaluate_hand(queen_pair)
            == HandEvaluation::new_pair(
                Number::Queen,
                Number::Ace.as_bit() | Number::Ten.as_bit() | Number::Nine.as_bit()
            )
    );
    assert!(
        evaluate_hand(two_pair_ace_high)
            == HandEvaluation::new_two_pair(Number::King, Number::Six, Number::Ace)
    );
    assert!(
        evaluate_hand(two_pair_queen_high)
            == HandEvaluation::new_two_pair(Number::King, Number::Six, Number::Queen)
    );
    assert!(
        evaluate_hand(ace_high)
            == HandEvaluation::new_high_card(
                Number::Ace.as_bit()
                    | Number::King.as_bit()
                    | Number::Queen.as_bit()
                    | Number::Ten.as_bit()
                    | Number::Nine.as_bit()
            )
    );
    assert!(
        evaluate_hand(ace_high_slightly_lower)
            == HandEvaluation::new_high_card(
                Number::Ace.as_bit()
                    | Number::King.as_bit()
                    | Number::Queen.as_bit()
                    | Number::Ten.as_bit()
                    | Number::Nine.as_bit()
            )
    );
    assert!(
        evaluate_hand(king_high)
            == HandEvaluation::new_high_card(
                Number::King.as_bit()
                    | Number::Queen.as_bit()
                    | Number::Ten.as_bit()
                    | Number::Nine.as_bit()
                    | Number::Eight.as_bit()
            )
    );

    let all_hands = [
        evaluate_hand(royal_flush),
        evaluate_hand(four_of_a_kind),
        evaluate_hand(full_house),
        evaluate_hand(ace_high_flush),
        evaluate_hand(king_high_flush),
        evaluate_hand(straight),
        evaluate_hand(three_of_a_kind),
        evaluate_hand(two_pair_ace_high),
        evaluate_hand(two_pair_queen_high),
        evaluate_hand(ace_pair),
        evaluate_hand(ace_pair_lower_kicker),
        evaluate_hand(queen_pair),
        evaluate_hand(ace_high),
        evaluate_hand(ace_high_slightly_lower),
        evaluate_hand(king_high),
    ];
    assert!((0..all_hands.len() - 1).all(|i| all_hands[i] >= all_hands[i + 1]));
}

fn card(suit: Suit, number: Number) -> Card {
    Card::new(suit, number)
}

#[test]
fn test_straight_check_finds_nothing_in_four_cards() {
    let four = Number::Ace.as_bit()
        | Number::King.as_bit()
        | Number::Queen.as_bit()
        | Number::Jack.as_bit()
        | Number::Nine.as_bit();
    assert_eq!(check_for_straight(four), None);
    assert_eq!(check_for_straight(0), None);
}

#[test]
fn test_straight_check_prefers_the_highest_straight() {
    let seven_cards = Number::Ace.as_bit()
        | Number::Two.as_bit()
        | Number::Three.as_bit()
        | Number::Four.as_bit()
        | Number::Five.as_bit()
        | Number::Six.as_bit()
        | Number::Seven.as_bit();
    assert_eq!(check_for_straight(seven_cards), Some(Number::Seven));
    let middle = Number::Six.as_bit()
        | Number::Seven.as_bit()
        | Number::Eight.as_bit()
        | Number::Nine.as_bit()
        | Number::Ten.as_bit();
    assert_eq!(check_for_straight(middle), Some(Number::Ten));
}

#[test]
fn test_wheel_is_a_five_high_straight() {
    let wheel = [
        card(Suit::Clubs, Number::Ace),
        card(Suit::Hearts, Number::Two),
        card(Suit::Spades, Number::Three),
        card(Suit::Diamonds, Number::Four),
        card(Suit::Clubs, Number::Five),
        card(Suit::Hearts, Number::Nine),
        card(Suit::Spades, Number::Jack),
    ];
    let six_high = [
        card(Suit::Clubs, Number::Six),
        card(Suit::Hearts, Number::Two),
        card(Suit::Spades, Number::Three),
        card(Suit::Diamonds, Number::Four),
        card(Suit::Clubs, Number::Five),
        card(Suit::Hearts, Number::Nine),
        card(Suit::Spades, Number::Jack),
    ];
    assert!(evaluate_hand(wheel) == HandEvaluation::new_straight(Number::Five));
    assert!(evaluate_hand(six_high) == HandEvaluation::new_straight(Number::Six));
    assert!(evaluate_hand(wheel) < evaluate_hand(six_high));
}

#[test]
fn test_two_triplets_make_a_full_house() {
    let hand = [
        card(Suit::Clubs, Number::King),
        card(Suit::Hearts, Number::King),
        card(Suit::Spades, Number::King),
        card(Suit::Clubs, Number::Eight),
        card(Suit::Hearts, Number::Eight),
        card(Suit::Spades, Number::Eight),
        card(Suit::Diamonds, Number::Five),
    ];
    assert!(evaluate_hand(hand) == HandEvaluation::new_full_house(Number::King, Number::Eight));
    assert!(
        HandEvaluation::new_full_house(Number::King, Number::Eight)
            > HandEvaluation::new_full_house(Number::Eight, Number::King)
    );
}

#[test]
fn test_full_house_takes_the_highest_pair() {
    let hand = [
        card(Suit::Clubs, Number::Four),
        card(Suit::Hearts, Number::Four),
        card(Suit::Spades, Number::Four),
        card(Suit::Clubs, Number::Queen),
        card(Suit::Hearts, Number::Queen),
        card(Suit::Spades, Number::Nine),
        card(Suit::Diamonds, Number::Nine),
    ];
    assert!(evaluate_hand(hand) == HandEvaluation::new_full_house(Number::Four, Number::Queen));
}

#[test]
fn test_flush_and_straight_of_the_same_cards_is_a_straight_flush() {
    let hand = [
        card(Suit::Diamonds, Number::Five),
        card(Suit::Diamonds, Number::Six),
        card(Suit::Diamonds, Number::Seven),
        card(Suit::Diamonds, Number::Eight),
        card(Suit::Diamonds, Number::Nine),
        card(Suit::Clubs, Number::Ace),
        card(Suit::Hearts, Number::Ace),
    ];
    assert!(evaluate_hand(hand) == HandEvaluation::new_straight_flush(Number::Nine));
}

#[test]
fn test_flush_and_straight_of_different_cards_is_a_flush() {
    let hand = [
        card(Suit::Diamonds, Number::Five),
        card(Suit::Diamonds, Number::Six),
        card(Suit::Diamonds, Number::Seven),
        card(Suit::Diamonds, Number::Eight),
        card(Suit::Clubs, Number::Nine),
        card(Suit::Diamonds, Number::King),
        card(Suit::Hearts, Number::Ace),
    ];
    assert!(
        evaluate_hand(hand)
            == HandEvaluation::new_flush(
                Number::King.as_bit()
                    | Number::Eight.as_bit()
                    | Number::Seven.as_bit()
                    | Number::Six.as_bit()
                    | Number::Five.as_bit()
            )
    );
}

#[test]
fn test_steel_wheel_is_a_five_high_straight_flush() {
    let hand = [
        card(Suit::Spades, Number::Ace),
        card(Suit::Spades, Number::Two),
        card(Suit::Spades, Number::Three),
        card(Suit::Spades, Number::Four),
        card(Suit::Spades, Number::Five),
        card(Suit::Hearts, Number::King),
        card(Suit::Clubs, Number::King),
    ];
    assert!(evaluate_hand(hand) == HandEvaluation::new_straight_flush(Number::Five));
    assert!(
        evaluate_hand(hand) < HandEvaluation::new_straight_flush(Number::Six)
    );
}

#[test]
fn test_royal_flush_beats_every_four_of_a_kind() {
    let royal_flush = evaluate_hand([
        card(Suit::Clubs, Number::Ace),
        card(Suit::Clubs, Number::King),
        card(Suit::Clubs, Number::Queen),
        card(Suit::Clubs, Number::Jack),
        card(Suit::Clubs, Number::Ten),
        card(Suit::Hearts, Number::Eight),
        card(Suit::Hearts, Number::Five),
    ]);
    assert!(royal_flush == HandEvaluation::new_straight_flush(Number::Ace));
    for quad in 2..=14 {
        for kicker in 2..=14 {
            if quad != kicker {
                let four = HandEvaluation::new_four_of_a_kind(
                    Number::from_u8(quad),
                    Number::from_u8(kicker),
                );
                assert!(royal_flush > four);
            }
        }
    }
    for high in 5..14 {
        assert!(royal_flush > HandEvaluation::new_straight_flush(Number::from_u8(high)));
    }
}

#[test]
fn test_four_of_a_kind_takes_the_highest_kicker() {
    let hand = [
        card(Suit::Clubs, Number::Three),
        card(Suit::Hearts, Number::Three),
        card(Suit::Spades, Number::Three),
        card(Suit::Diamonds, Number::Three),
        card(Suit::Hearts, Number::Queen),
        card(Suit::Spades, Number::Queen),
        card(Suit::Diamonds, Number::Queen),
    ];
    assert!(evaluate_hand(hand) == HandEvaluation::new_four_of_a_kind(Number::Three, Number::Queen));
}

#[test]
fn test_three_pairs_keep_the_best_two_and_the_best_kicker() {
    let hand = [
        card(Suit::Clubs, Number::Jack),
        card(Suit::Hearts, Number::Jack),
        card(Suit::Spades, Number::Seven),
        card(Suit::Diamonds, Number::Seven),
        card(Suit::Hearts, Number::Four),
        card(Suit::Spades, Number::Four),
        card(Suit::Diamonds, Number::Three),
    ];
    assert!(
        evaluate_hand(hand)
            == HandEvaluation::new_two_pair(Number::Jack, Number::Seven, Number::Four)
    );
}

#[test]
fn test_flush_of_seven_cards_keeps_the_top_five() {
    let hand = [
        card(Suit::Hearts, Number::Two),
        card(Suit::Hearts, Number::Four),
        card(Suit::Hearts, Number::Six),
        card(Suit::Hearts, Number::Eight),
        card(Suit::Hearts, Number::Ten),
        card(Suit::Hearts, Number::Queen),
        card(Suit::Hearts, Number::Ace),
    ];
    assert!(
        evaluate_hand(hand)
            == HandEvaluation::new_flush(
                Number::Ace.as_bit()
                    | Number::Queen.as_bit()
                    | Number::Ten.as_bit()
                    | Number::Eight.as_bit()
                    | Number::Six.as_bit()
            )
    );
}

#[test]
fn test_order_of_the_cards_does_not_matter() {
    let hand = [
        card(Suit::Clubs, Number::Ace),
        card(Suit::Diamonds, Number::Ace),
        card(Suit::Clubs, Number::King),
        card(Suit::Diamonds, Number::Ten),
        card(Suit::Clubs, Number::Nine),
        card(Suit::Clubs, Number::Eight),
        card(Suit::Hearts, Number::Six),
    ];
    let expected = evaluate_hand(hand);
    for shift in 1..7 {
        let mut turned = hand;
        turned.rotate_left(shift);
        assert!(evaluate_hand(turned) == expected);
    }
    let mut reversed = hand;
    reversed.reverse();
    assert!(evaluate_hand(reversed) == expected);
}

#[test]
fn test_values_are_totally_ordered() {
    let values = [
        HandEvaluation::new_high_card(Number::Ace.as_bit() | Number::Nine.as_bit()),
        HandEvaluation::new_pair(Number::Two, Number::Ace.as_bit()),
        HandEvaluation::new_two_pair(Number::Three, Number::Two, Number::Ace),
        HandEvaluation::new_three_of_a_kind(Number::Two, Number::Ace.as_bit()),
        HandEvaluation::new_straight(Number::Five),
        HandEvaluation::new_flush(Number::Seven.as_bit() | Number::Two.as_bit()),
        HandEvaluation::new_full_house(Number::Two, Number::Three),
        HandEvaluation::new_four_of_a_kind(Number::Two, Number::Three),
        HandEvaluation::new_straight_flush(Number::Five),
    ];
    for i in 0..values.len() {
        for j in 0..values.len() {
            let less = values[i] < values[j];
            let more = values[i] > values[j];
            let same = values[i] == values[j];
            assert_eq!(less as u8 + more as u8 + same as u8, 1);
            assert_eq!(less, i < j);
            assert_eq!(values[i].cmp(&values[j]), i.cmp(&j));
        }
    }
}

#[test]
fn test_tiebreak_bytes_are_compared_in_order() {
    let high = Number::King.as_bit() | Number::Two.as_bit();
    let low = Number::Queen.as_bit() | Number::Jack.as_bit() | Number::Ten.as_bit();
    assert!(HandEvaluation::new_high_card(high) > HandEvaluation::new_high_card(low));
    let seven = Number::Seven.as_bit();
    let eight = Number::Eight.as_bit();
    assert!(HandEvaluation::new_flush(eight) > HandEvaluation::new_flush(seven));
    assert!(
        HandEvaluation::new_three_of_a_kind(Number::Three, seven)
            > HandEvaluation::new_three_of_a_kind(Number::Two, eight)
    );
    assert!(
        HandEvaluation::new_two_pair(Number::Nine, Number::Four, Number::Three)
            > HandEvaluation::new_two_pair(Number::Nine, Number::Three, Number::Ace)
    );
}

#[test]
fn test_hand_kinds_are_ordered_by_strength() {
    let kinds = [
        HandKind::HighCard,
        HandKind::Pair,
        HandKind::TwoPair,
        HandKind::ThreeOfAKind,
        HandKind::Straight,
        HandKind::Flush,
        HandKind::FullHouse,
        HandKind::FourOfAKind,
        HandKind::StraightFlush,
    ];
    for (strength, kind) in kinds.iter().enumerate() {
        assert_eq!(kind.strength() as usize, strength);
    }
    for pair in kinds.windows(2) {
        assert!(pair[0] < pair[1]);
    }
}
