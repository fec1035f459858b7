use poker_calculator::{Card, Number, Suit};

#[test]
fn test_card_format_string() {
    assert_eq!(
        format!("{:?}", Card::new(Suit::Hearts, Number::Ace)),
        "Card { suit: Hearts, number: Ace }"
    )
}

#[test]
fn test_card_format_names_every_suit() {
    assert_eq!(
        format!("{:?}", Card::new(Suit::Spades, Number::Two)),
        "Card { suit: Spades, number: Two }"
    );
    assert_eq!(
        format!("{:?}", Card::new(Suit::Diamonds, Number::Ten)),
        "Card { suit: Diamonds, number: Ten }"
    );
    assert_eq!(
        format!("{:?}", Card::new(Suit::Clubs, Number::Jack)),
        "Card { suit: Clubs, number: Jack }"
    );
}

#[test]
fn test_suit_codes() {
    assert_eq!(Suit::from_u8(0), Suit::Hearts);
    assert_eq!(Suit::from_u8(1), Suit::Diamonds);
    assert_eq!(Suit::from_u8(2), Suit::Clubs);
    assert_eq!(Suit::from_u8(3), Suit::Spades);
    for code in 0..4 {
        assert_eq!(Suit::from_u8(code).index(), code);
    }
}

#[test]
fn test_number_values() {
    assert_eq!(Number::from_u8(2), Number::Two);
    assert_eq!(Number::from_u8(10), Number::Ten);
    assert_eq!(Number::from_u8(11), Number::Jack);
    assert_eq!(Number::from_u8(14), Number::Ace);
    for value in 2..=14 {
        assert_eq!(Number::from_u8(value).value(), value);
    }
}

#[test]
fn test_numbers_are_ordered() {
    for value in 2..14 {
        assert!(Number::from_u8(value) < Number::from_u8(value + 1));
    }
    assert!(Number::Two < Number::Ace);
    assert!(Number::King > Number::Queen);
}

#[test]
fn test_as_bit_sets_the_bit_of_the_value() {
    assert_eq!(Number::Two.as_bit(), 0b100);
    assert_eq!(Number::Three.as_bit(), 0b1000);
    assert_eq!(Number::Ten.as_bit(), 1 << 10);
    assert_eq!(Number::Ace.as_bit(), 0x4000);
    for value in 2..=14 {
        assert_eq!(Number::from_u8(value).as_bit(), 1u16 << value);
    }
}

#[test]
fn test_card_keeps_suit_and_number() {
    for suit in 0..4 {
        for number in 2..=14 {
            let card = Card::new(Suit::from_u8(suit), Number::from_u8(number));
            assert_eq!(card.suit(), Suit::from_u8(suit));
            assert_eq!(card.number(), Number::from_u8(number));
        }
    }
}

#[test]
fn test_cards_are_equal_by_suit_and_number() {
    let card = Card::new(Suit::Clubs, Number::Nine);
    assert!(card == Card::new(Suit::Clubs, Number::Nine));
    assert!(card != Card::new(Suit::Clubs, Number::Eight));
    assert!(card != Card::new(Suit::Spades, Number::Nine));
    let mut distinct = 0;
    for suit in 0..4 {
        for number in 2..=14 {
            if Card::new(Suit::from_u8(suit), Number::from_u8(number)) == card {
                distinct += 1;
            }
        }
    }
    assert_eq!(distinct, 1);
}
