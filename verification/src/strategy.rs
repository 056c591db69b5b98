//! Playing strategies, which choose a move from the hand's value, and
//! betting strategies, which choose a stake from the running count.

use vstd::prelude::*;
use crate::card::Card;

verus! {

/// What a player does with a hand worth less than 21.
#[derive(Copy, Clone, PartialEq, Eq, Structural, Debug)]
pub enum Move {
    /// Take no more cards.
    Stand,
    /// Take one more card.
    Hit,
    /// Double the stake and take one more card.
    DoubleDown,
}

/// The move of the blind strategy, which does not look at the dealer's
/// card: double down on 9, 10 and 11, stand above `highest_card`, hit
/// otherwise.
pub open spec fn blind_move(highest_card: int, hand_value: int) -> Move {
    if 9 <= hand_value <= 11 {
        Move::DoubleDown
    } else if hand_value > highest_card {
        Move::Stand
    } else {
        Move::Hit
    }
}

/// The move of basic strategy for a hand worth `hand_value` against the
/// dealer's visible card.
///
/// The dealer's card enters by its points, an ace being the one card worth a
/// single point. Double down on 9 against 3 to 6, on 10 against 2 to 9, and
/// on 11 always. Stand on 12 against 4 to 6, on 13 to 16 against 2 to 6, and
/// on 17 or more. Hit in every other case.
pub open spec fn basic_move(hand_value: int, dealer_visible_card: Card) -> Move {
    let dealer = dealer_visible_card.points();
    if hand_value == 9 && 3 <= dealer <= 6 {
        Move::DoubleDown
    } else if hand_value == 10 && 2 <= dealer <= 9 {
        Move::DoubleDown
    } else if hand_value == 11 {
        Move::DoubleDown
    } else if hand_value == 12 && 4 <= dealer <= 6 {
        Move::Stand
    } else if 13 <= hand_value <= 16 && 2 <= dealer <= 6 {
        Move::Stand
    } else if hand_value <= 16 {
        Move::Hit
    } else {
        Move::Stand
    }
}

/// The stake for `units` wanted: the units themselves where they fit the
/// stake's type, and nothing where they are negative or too many.
pub open spec fn stake_of(units: int) -> int {
    if 0 <= units <= u8::MAX {
        units
    } else {
        0
    }
}

/// Plays without looking at the dealer's card: doubles down on 9, 10 and
/// 11, stands above `highest_card`, hits otherwise.
pub fn blind_strategy(highest_card: u8, hand_value: u8) -> (player_move: Move)
    ensures
        player_move == blind_move(highest_card as int, hand_value as int),
{
    if 9 <= hand_value && hand_value <= 11 {
        Move::DoubleDown
    } else if hand_value > highest_card {
        Move::Stand
    } else {
        Move::Hit
    }
}

/// Plays by the basic strategy table.
pub fn basic_strategy(hand_value: u8, dealer_visible_card: Card) -> (player_move: Move)
    ensures
        player_move == basic_move(hand_value as int, dealer_visible_card),
        hand_value == 11 ==> player_move == Move::DoubleDown,
        hand_value >= 17 ==> player_move == Move::Stand,
{
    match (hand_value, dealer_visible_card) {
        (9, Card::Three | Card::Four | Card::Five | Card::Six) => Move::DoubleDown,
        (
            10,
            Card::Two
            | Card::Three
            | Card::Four
            | Card::Five
            | Card::Six
            | Card::Seven
            | Card::Eight
            | Card::Nine,
        ) => Move::DoubleDown,
        (11, _) => Move::DoubleDown,
        (12, Card::Four | Card::Five | Card::Six) => Move::Stand,
        (13..=16, Card::Two | Card::Three | Card::Four | Card::Five | Card::Six) => Move::Stand,
        (0..=16, _) => Move::Hit,
        _ => Move::Stand,
    }
}

/// Stakes one unit less than the running count.
pub fn card_counting_betting_strategy(running_count: i32) -> (stake: u8)
    ensures
        stake == stake_of(running_count - 1),
        running_count - 1 <= u8::MAX ==> stake == vstd::math::max(0, running_count - 1),
{
    if 1 < running_count && running_count <= 256 {
        (running_count - 1) as u8
    } else {
        0
    }
}

/// Stakes the running count.
pub fn card_counting_betting_strategy_agressive(running_count: i32) -> (stake: u8)
    ensures
        stake == stake_of(running_count as int),
        running_count <= u8::MAX ==> stake == vstd::math::max(0, running_count as int),
{
    if 0 < running_count && running_count <= 255 {
        running_count as u8
    } else {
        0
    }
}

/// Stakes two units less than the running count.
pub fn card_counting_betting_strategy_passive(running_count: i32) -> (stake: u8)
    ensures
        stake == stake_of(running_count - 2),
        running_count - 2 <= u8::MAX ==> stake == vstd::math::max(0, running_count - 2),
{
    if 2 < running_count && running_count <= 257 {
        (running_count - 2) as u8
    } else {
        0
    }
}

} // verus!
