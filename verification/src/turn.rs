//! Turn resolution: a party draws cards until it stands, reaches 21 or goes
//! bust. The dealer follows the house rule, a player a strategy.

use vstd::prelude::*;
use crate::card::Card;
use crate::deck::{deals, lemma_deals_count_within, lemma_deals_push, Deck};
use crate::hand::{hand_value, hard_total, lemma_push_card, lemma_total_bounds, Hand};
use crate::strategy::Move;

verus! {

/// How a turn ended.
#[derive(Copy, Clone, PartialEq, Eq, Structural, Debug)]
pub enum Outcome {
    /// The hand is worth exactly 21.
    Blackjack,
    /// The hand stopped at a value under 21.
    Standing(u8),
    /// The hand is worth more than 21.
    Bust,
}

/// The highest value on which the dealer still draws.
pub const DEALER_DRAWS_UP_TO: u8 = 16;

/// No turn draws more cards than this: a hand only draws while it is worth
/// less than 21, and every card adds at least one point.
pub const MAX_TURN_DRAWS: usize = 21;

/// The outcome of a hand of the given value that takes no more cards.
pub open spec fn outcome_of(value: nat) -> Outcome {
    if value == 21 {
        Outcome::Blackjack
    } else if value > 21 {
        Outcome::Bust
    } else {
        Outcome::Standing(value as u8)
    }
}

/// The dealer's turn took the hand from `start` to `end`: cards were only
/// added, the dealer drew on every value up to 16 and stopped on the first
/// value above.
pub open spec fn dealer_turn(start: Seq<Card>, end: Seq<Card>) -> bool {
    &&& start.is_prefix_of(end)
    &&& forall|k: int|
        start.len() <= k < end.len() ==> hand_value(#[trigger] end.take(k)) <= DEALER_DRAWS_UP_TO
    &&& hand_value(end) > DEALER_DRAWS_UP_TO
}

/// The strategy may ask for another card on a hand of this value: the hand
/// is worth less than 21 and the strategy can answer `Hit` or `DoubleDown`.
pub open spec fn may_draw<F: Fn(u8, Card) -> Move>(
    strategy: F,
    value: nat,
    dealer_visible_card: Card,
) -> bool {
    &&& value < 21
    &&& (strategy.ensures((value as u8, dealer_visible_card), Move::Hit) || strategy.ensures(
        (value as u8, dealer_visible_card),
        Move::DoubleDown,
    ))
}

/// The turn may end on a hand of this value: the hand is worth 21 or more,
/// or the strategy can answer `Stand`.
pub open spec fn may_stop<F: Fn(u8, Card) -> Move>(
    strategy: F,
    value: nat,
    dealer_visible_card: Card,
) -> bool {
    value >= 21 || strategy.ensures((value as u8, dealer_visible_card), Move::Stand)
}

/// The doubled-down flag after the draw on a hand of value `value`.
///
/// Only the first action of a turn can double down: the flag is set if the
/// strategy answered `DoubleDown` then, and kept as it was if it answered
/// `Hit` or if the action was not the first.
pub open spec fn doubled_after_draw<F: Fn(u8, Card) -> Move>(
    strategy: F,
    value: nat,
    dealer_visible_card: Card,
    first_turn: bool,
    doubled_before: bool,
    doubled_after: bool,
) -> bool {
    if first_turn {
        ||| doubled_after == doubled_before && strategy.ensures(
            (value as u8, dealer_visible_card),
            Move::Hit,
        )
        ||| doubled_after && strategy.ensures(
            (value as u8, dealer_visible_card),
            Move::DoubleDown,
        )
    } else {
        doubled_after == doubled_before
    }
}

/// A player's turn by `strategy` took the hand from `start` to `end` and the
/// doubled-down flag from `doubled_before` to `doubled_after`.
///
/// Cards were only added. Before every card drawn the hand was worth less
/// than 21 and the strategy asked for a card; on the final hand the turn
/// could stop. The flag changed only with the first card drawn.
pub open spec fn player_turn<F: Fn(u8, Card) -> Move>(
    strategy: F,
    dealer_visible_card: Card,
    start: Seq<Card>,
    end: Seq<Card>,
    first_turn: bool,
    doubled_before: bool,
    doubled_after: bool,
) -> bool {
    &&& start.is_prefix_of(end)
    &&& forall|k: int|
        start.len() <= k < end.len() ==> may_draw(
            strategy,
            hand_value(#[trigger] end.take(k)),
            dealer_visible_card,
        )
    &&& may_stop(strategy, hand_value(end), dealer_visible_card)
    &&& if end.len() > start.len() {
        doubled_after_draw(
            strategy,
            hand_value(start),
            dealer_visible_card,
            first_turn,
            doubled_before,
            doubled_after,
        )
    } else {
        doubled_after == doubled_before
    }
}

/// What is left to draw: a hand draws only while its hard total is under
/// 21, and every card raises the hard total.
pub open spec fn draws_left(cards: Seq<Card>) -> nat {
    if hard_total(cards) >= 21 {
        0
    } else {
        (21 - hard_total(cards)) as nat
    }
}

/// Plays a player's turn: draws while the strategy asks for a card and the
/// hand is under 21.
///
/// Returns how the turn ended and the doubled-down flag. The flag is set
/// when the strategy doubles down on the first action of the turn, which
/// `first_turn` says this call starts with; otherwise it stays as given.
pub fn play_turn_with_strategy(
    dealer_visible_card: Card,
    deck: &mut Deck,
    player_hand: &mut Hand,
    first_turn: bool,
    doubled_down: bool,
    strategy: impl Fn(u8, Card) -> Move,
) -> (result: (Outcome, bool))
    requires
        forall|value: u8| value < 21 ==> strategy.requires((value, dealer_visible_card)),
        old(deck)@.count_within(MAX_TURN_DRAWS as int),
    ensures
        player_turn(
            strategy,
            dealer_visible_card,
            old(player_hand)@,
            final(player_hand)@,
            first_turn,
            doubled_down,
            result.1,
        ),
        result.0 == outcome_of(hand_value(final(player_hand)@)),
        deals(old(deck)@, final(player_hand)@.skip(old(player_hand)@.len() as int), final(deck)@),
        old(deck)@.wf() ==> final(deck)@.wf(),
{
    let mut first = first_turn;
    let mut doubled = doubled_down;
    proof {
        assert(player_hand@.skip(player_hand@.len() as int) =~= Seq::<Card>::empty());
        lemma_total_bounds(player_hand@);
    }
    loop
        invariant
            forall|value: u8| value < 21 ==> strategy.requires((value, dealer_visible_card)),
            old(player_hand)@.is_prefix_of(player_hand@),
            forall|k: int|
                old(player_hand)@.len() <= k < player_hand@.len() ==> may_draw(
                    strategy,
                    hand_value(#[trigger] player_hand@.take(k)),
                    dealer_visible_card,
                ),
            if player_hand@.len() > old(player_hand)@.len() {
                !first && doubled_after_draw(
                    strategy,
                    hand_value(old(player_hand)@),
                    dealer_visible_card,
                    first_turn,
                    doubled_down,
                    doubled,
                )
            } else {
                first == first_turn && doubled == doubled_down
            },
            deals(old(deck)@, player_hand@.skip(old(player_hand)@.len() as int), deck@),
            old(deck)@.wf() ==> deck@.wf(),
            old(deck)@.count_within(MAX_TURN_DRAWS as int),
            player_hand@.len() - old(player_hand)@.len() <= hard_total(player_hand@),
        decreases draws_left(player_hand@),
    {
        let value = player_hand.value();
        if value == 21 {
            return (Outcome::Blackjack, doubled);
        }
        if value > 21 {
            return (Outcome::Bust, doubled);
        }
        let player_move = strategy(value, dealer_visible_card);
        match player_move {
            Move::Stand => {
                return (Outcome::Standing(value), doubled);
            },
            Move::Hit | Move::DoubleDown => {
                if matches!(player_move, Move::DoubleDown) && first {
                    doubled = true;
                }
                let ghost start = old(player_hand)@;
                let ghost before = player_hand@;
                let ghost drawn = before.skip(start.len() as int);
                let ghost deck_before = deck@;
                proof {
                    lemma_total_bounds(before);
                    lemma_deals_count_within(old(deck)@, drawn, deck_before, MAX_TURN_DRAWS as int);
                }
                let card = deck.deal_card(player_hand);
                first = false;
                proof {
                    lemma_push_card(before, card);
                    lemma_deals_push(old(deck)@, drawn, deck_before, card, deck@);
                    assert(player_hand@.skip(start.len() as int) =~= drawn.push(card));
                    assert(player_hand@.take(before.len() as int) =~= before);
                    assert forall|k: int| start.len() <= k < player_hand@.len() implies may_draw(
                        strategy,
                        hand_value(#[trigger] player_hand@.take(k)),
                        dealer_visible_card,
                    ) by {
                        if k < before.len() {
                            assert(player_hand@.take(k) =~= before.take(k));
                        }
                    }
                    if before.len() == start.len() {
                        assert(before =~= start);
                    }
                }
            },
        }
    }
}

/// Plays the dealer's turn by the house rule: the dealer draws on 16 or
/// less and stands on 17 or more.
pub fn play_dealer_turn(deck: &mut Deck, dealer_hand: &mut Hand) -> (outcome: Outcome)
    requires
        old(deck)@.count_within(MAX_TURN_DRAWS as int),
    ensures
        dealer_turn(old(dealer_hand)@, final(dealer_hand)@),
        outcome == outcome_of(hand_value(final(dealer_hand)@)),
        deals(old(deck)@, final(dealer_hand)@.skip(old(dealer_hand)@.len() as int), final(deck)@),
        old(deck)@.wf() ==> final(deck)@.wf(),
{
    proof {
        assert(dealer_hand@.skip(dealer_hand@.len() as int) =~= Seq::<Card>::empty());
        lemma_total_bounds(dealer_hand@);
    }
    loop
        invariant
            old(dealer_hand)@.is_prefix_of(dealer_hand@),
            forall|k: int|
                old(dealer_hand)@.len() <= k < dealer_hand@.len() ==> hand_value(
                    #[trigger] dealer_hand@.take(k),
                ) <= DEALER_DRAWS_UP_TO,
            deals(old(deck)@, dealer_hand@.skip(old(dealer_hand)@.len() as int), deck@),
            old(deck)@.wf() ==> deck@.wf(),
            old(deck)@.count_within(MAX_TURN_DRAWS as int),
            dealer_hand@.len() - old(dealer_hand)@.len() <= hard_total(dealer_hand@),
        decreases draws_left(dealer_hand@),
    {
        let value = dealer_hand.value();
        if value == 21 {
            return Outcome::Blackjack;
        }
        if value > 21 {
            return Outcome::Bust;
        }
        if value > DEALER_DRAWS_UP_TO {
            return Outcome::Standing(value);
        }
        let ghost start = old(dealer_hand)@;
        let ghost before = dealer_hand@;
        let ghost drawn = before.skip(start.len() as int);
        let ghost deck_before = deck@;
        proof {
            lemma_total_bounds(before);
            lemma_deals_count_within(old(deck)@, drawn, deck_before, MAX_TURN_DRAWS as int);
        }
        let card = deck.deal_card(dealer_hand);
        proof {
            lemma_push_card(before, card);
            lemma_deals_push(old(deck)@, drawn, deck_before, card, deck@);
            assert(dealer_hand@.skip(start.len() as int) =~= drawn.push(card));
            assert(dealer_hand@.take(before.len() as int) =~= before);
            assert forall|k: int| start.len() <= k < dealer_hand@.len() implies hand_value(
                #[trigger] dealer_hand@.take(k),
            ) <= DEALER_DRAWS_UP_TO by {
                if k < before.len() {
                    assert(dealer_hand@.take(k) =~= before.take(k));
                }
            }
        }
    }
}

/// The dealer's turn draws at most `MAX_TURN_DRAWS` cards.
pub proof fn lemma_dealer_draws_bounded(start: Seq<Card>, end: Seq<Card>)
    requires
        dealer_turn(start, end),
    ensures
        end.len() - start.len() <= MAX_TURN_DRAWS,
{
    if end.len() > start.len() {
        lemma_total_bounds(end.take(end.len() - 1));
    }
}

/// A player's turn draws at most `MAX_TURN_DRAWS` cards.
pub proof fn lemma_player_draws_bounded<F: Fn(u8, Card) -> Move>(
    strategy: F,
    dealer_visible_card: Card,
    start: Seq<Card>,
    end: Seq<Card>,
    first_turn: bool,
    doubled_before: bool,
    doubled_after: bool,
)
    requires
        player_turn(
            strategy,
            dealer_visible_card,
            start,
            end,
            first_turn,
            doubled_before,
            doubled_after,
        ),
    ensures
        end.len() - start.len() <= MAX_TURN_DRAWS,
{
    if end.len() > start.len() {
        lemma_total_bounds(end.take(end.len() - 1));
    }
}

} // verus!
