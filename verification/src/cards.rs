//! Playing cards: rank, suit, and the bijection with deck indices.
//!
//! A card's index is `suit * 13 + (rank - 2)`, giving the range `0..52`.

use vstd::prelude::*;
use vstd::string::StringExecFns;

verus! {

#[derive(Clone, Copy, Debug, PartialEq, Eq, PartialOrd, Ord, Structural)]
pub enum Suit {
    Spades,
    Hearts,
    Diamonds,
    Clubs,
}

#[derive(Clone, Copy, Debug, PartialEq, Eq, PartialOrd, Ord, Structural)]
pub enum Rank {
    Two,
    Three,
    Four,
    Five,
    Six,
    Seven,
    Eight,
    Nine,
    Ten,
    Jack,
    Queen,
    King,
    Ace,
}

/// A playing card, ordered rank-major; suit is a tiebreak used for equality.
#[derive(Clone, Copy, Debug, PartialEq, Eq, PartialOrd, Ord, Structural)]
pub struct Card {
    pub rank: Rank,
    pub suit: Suit,
}

/// A card as shown at the table: face down, or face up with its identity.
#[derive(Clone, Copy, Debug)]
pub enum PlayingCard {
    Hidden,
    Up(Card),
}

/// The position of a suit within the index space: spades first.
pub open spec fn suit_index(s: Suit) -> int {
    match s {
        Suit::Spades => 0,
        Suit::Hearts => 1,
        Suit::Diamonds => 2,
        Suit::Clubs => 3,
    }
}

/// The numeric value of a rank, from two up to the ace at fourteen.
pub open spec fn rank_value(r: Rank) -> int {
    match r {
        Rank::Two => 2,
        Rank::Three => 3,
        Rank::Four => 4,
        Rank::Five => 5,
        Rank::Six => 6,
        Rank::Seven => 7,
        Rank::Eight => 8,
        Rank::Nine => 9,
        Rank::Ten => 10,
        Rank::Jack => 11,
        Rank::Queen => 12,
        Rank::King => 13,
        Rank::Ace => 14,
    }
}

/// The index a card occupies in a full deck: `suit * 13 + (rank - 2)`.
pub open spec fn card_index(c: Card) -> int {
    suit_index(c.suit) * 13 + rank_value(c.rank) - 2
}

/// Error returned when an index does not denote a card.
#[derive(Clone, Copy, Debug, PartialEq, Eq, Structural)]
pub struct ParseCardError {
    pub index: usize,
}

fn suit_from_index(u: usize) -> (r: Suit)
    requires
        u < 4,
    ensures
        suit_index(r) == u,
{
    if u == 0 {
        Suit::Spades
    } else if u == 1 {
        Suit::Hearts
    } else if u == 2 {
        Suit::Diamonds
    } else {
        Suit::Clubs
    }
}

fn rank_from_value(v: usize) -> (r: Rank)
    requires
        2 <= v < 15,
    ensures
        rank_value(r) == v,
{
    if v == 2 {
        Rank::Two
    } else if v == 3 {
        Rank::Three
    } else if v == 4 {
        Rank::Four
    } else if v == 5 {
        Rank::Five
    } else if v == 6 {
        Rank::Six
    } else if v == 7 {
        Rank::Seven
    } else if v == 8 {
        Rank::Eight
    } else if v == 9 {
        Rank::Nine
    } else if v == 10 {
        Rank::Ten
    } else if v == 11 {
        Rank::Jack
    } else if v == 12 {
        Rank::Queen
    } else if v == 13 {
        Rank::King
    } else {
        Rank::Ace
    }
}

impl Card {
    /// Decode an index into a card; rejects anything at or above 52.
    pub fn try_from_index(value: usize) -> (r: Result<Card, ParseCardError>)
        ensures
            match r {
                Ok(c) => value < 52 && card_index(c) == value,
                Err(e) => value >= 52 && e.index == value,
            },
    {
        if value >= 52 {
            return Err(ParseCardError { index: value });
        }
        let suit = suit_from_index(value / 13);
        let rank = rank_from_value(value % 13 + 2);
        Ok(Card { rank, suit })
    }

    /// The inverse of `try_from_index`: the index this card occupies.
    pub fn index(&self) -> (r: usize)
        ensures
            r == card_index(*self),
            r < 52,
    {
        let s: usize = match self.suit {
            Suit::Spades => 0,
            Suit::Hearts => 1,
            Suit::Diamonds => 2,
            Suit::Clubs => 3,
        };
        let v: usize = match self.rank {
            Rank::Two => 2,
            Rank::Three => 3,
            Rank::Four => 4,
            Rank::Five => 5,
            Rank::Six => 6,
            Rank::Seven => 7,
            Rank::Eight => 8,
            Rank::Nine => 9,
            Rank::Ten => 10,
            Rank::Jack => 11,
            Rank::Queen => 12,
            Rank::King => 13,
            Rank::Ace => 14,
        };
        s * 13 + v - 2
    }

    /// A short printable label, rank then suit symbol.
    pub fn label(&self) -> String {
        let mut out = String::new();
        let rank: &str = match self.rank {
            Rank::Two => "2",
            Rank::Three => "3",
            Rank::Four => "4",
            Rank::Five => "5",
            Rank::Six => "6",
            Rank::Seven => "7",
            Rank::Eight => "8",
            Rank::Nine => "9",
            Rank::Ten => "10",
            Rank::Jack => "J",
            Rank::Queen => "Q",
            Rank::King => "K",
            Rank::Ace => "A",
        };
        let suit: &str = match self.suit {
            Suit::Spades => "\u{2660}",
            Suit::Hearts => "\u{2665}",
            Suit::Diamonds => "\u{2666}",
            Suit::Clubs => "\u{2663}",
        };
        out.append(rank);
        out.append(suit);
        out
    }
}

/// Round trip: decoding the index of any card gives the card back.
pub proof fn lemma_card_index_roundtrip(c: Card)
    ensures
        0 <= card_index(c) < 52,
        forall|d: Card| card_index(d) == card_index(c) ==> d == c,
{
}

/// Render a hand as comma-separated labels.
pub fn format_cards(cards: &Vec<Card>) -> String {
    let mut out = String::new();
    let n = cards.len();
    for i in 0..n
        invariant
            n == cards@.len(),
    {
        if i > 0 {
            out.append(", ");
        }
        let label = cards[i].label();
        out.append(label.as_str());
    }
    out
}

} // verus!
