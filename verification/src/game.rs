//! The plain game-facing data the crypto core hands out, and the capability
//! traits a front end implements: rendering the table and choosing a card.
//! The core depends on neither; it only returns card data and ownership
//! facts.

use vstd::prelude::*;

use crate::cards::Card;

verus! {

/// What a renderer is shown: the hand, the open table cards, and how many
/// cards are still undrawn.
pub struct GameState {
    pub hand: Vec<Card>,
    pub table_cards: Vec<Card>,
    pub deck_cards: usize,
}

/// A plain player: just the cards it holds.
#[derive(Clone, Debug)]
pub struct PlayerBasic {
    pub cards: Vec<Card>,
}

/// A card held in hand together with the deck position it was drawn from.
#[derive(Clone, Copy, Debug, PartialEq, Eq, Structural)]
pub struct CardFromDeck {
    pub card: Card,
    pub ind: usize,
}

/// Implemented by a player aggregate: the cards held and the undrawn count.
pub trait ShowHandDeck {
    fn show_hand(&self) -> Vec<CardFromDeck>;

    fn deck_size(&self) -> usize;
}

/// Implemented by a front end that can render the table.
pub trait GamePrinter {
    fn print_game(&mut self, game_state: &GameState);
}

/// Implemented by a front end that can pick a card from a hand.
pub trait CardSelector {
    fn select_card(&mut self, hand: &Vec<CardFromDeck>) -> CardFromDeck;
}

} // verus!
