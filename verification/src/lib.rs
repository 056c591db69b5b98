//! A blackjack simulator for comparing playing and betting strategies.
//!
//! - [`card`]: the thirteen ranks, their points and their count signals.
//! - [`hand`]: hands and their value, with aces worth one or eleven.
//! - [`deck`]: a shuffled deck that deals from the end, is replaced by a
//!   fresh shuffle when it runs out, and keeps a running count.
//! - [`shuffle`]: the random shuffle, taken from the `rand` crate.
//! - [`strategy`]: playing strategies and betting strategies.
//! - [`turn`]: the turn of a player and of the dealer.
//! - [`money`]: the ledger and the settlement of a seat.
//! - [`round`]: one round for all seats.
//! - [`game`]: many rounds on one deck.
//! - [`replay`]: a round on a deck that does not run out has one outcome.

pub mod card;
pub mod deck;
pub mod game;
pub mod hand;
pub mod money;
pub mod replay;
pub mod round;
pub mod shuffle;
pub mod strategy;
pub mod turn;

pub use card::{Card, CARDS_LIST};
pub use deck::Deck;
pub use game::{play_game, play_rounds, GAME_COUNT, PLAYER_COUNT};
pub use hand::Hand;
pub use money::Money;
pub use round::play_round;
pub use strategy::{
    basic_strategy, blind_strategy, card_counting_betting_strategy,
    card_counting_betting_strategy_agressive, card_counting_betting_strategy_passive, Move,
};
pub use turn::{play_dealer_turn, play_turn_with_strategy, Outcome};
