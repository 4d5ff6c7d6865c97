use mental_poker::cards::{format_cards, Card, Rank, Suit};

#[test]
fn casting_cards() {
    assert_eq!(
        Card::try_from_index(0).unwrap(),
        Card { rank: Rank::Two, suit: Suit::Spades }
    );
    assert_eq!(
        Card::try_from_index(34).unwrap(),
        Card { rank: Rank::Ten, suit: Suit::Diamonds }
    );
}

#[test]
#[should_panic]
fn casting_fail() {
    Card::try_from_index(52).unwrap();
}

#[test]
#[should_panic]
fn casting_fail2() {
    Card::try_from_index(113).unwrap();
}

#[test]
fn card_display() {
    assert_eq!(
        Card { rank: Rank::Ace, suit: Suit::Diamonds }.label(),
        "A\u{2666}"
    );
}

#[test]
fn card_index_roundtrip() {
    for i in 0..52usize {
        let card = Card::try_from_index(i).unwrap();
        assert_eq!(card.index(), i);
    }
}

#[test]
fn format_cards_joins_labels() {
    let hand = vec![
        Card { rank: Rank::Ace, suit: Suit::Diamonds },
        Card { rank: Rank::Ten, suit: Suit::Spades },
    ];
    assert_eq!(format_cards(&hand), "A\u{2666}, 10\u{2660}");
}
