//! A game: many rounds on one deck, each at the bet that the betting
//! strategy sets from the running count.

use vstd::prelude::*;
use vstd::math::max;
use crate::card::Card;
use crate::deck::{lemma_wf_count_bounds, Deck, DeckView, COUNT_LIMIT};
use crate::money::{Ledger, Money};
use crate::round::{
    lemma_totals_bounds, play_round, round_draw_limit, round_played, RoundPlay,
};
use crate::strategy::Move;

verus! {

/// Number of seats at the table in a game.
pub const PLAYER_COUNT: usize = 5;

/// Number of rounds in a game.
pub const GAME_COUNT: usize = 1_000_000;

/// The highest bet that every seat of every round of a game can double and
/// win without the ledger running over.
pub const MAX_GAME_BET: u8 = 53;

/// The running count is one that a well-formed deck can show.
pub open spec fn count_in_play(count: i32) -> bool {
    -COUNT_LIMIT <= count <= COUNT_LIMIT
}

/// `round_count` rounds, one after the other, took the deck and the ledger
/// from their state before to their state after. The bet of every round is
/// what the betting strategy answers to the running count the deck shows
/// when the round begins.
pub open spec fn rounds_played<F: Fn(u8, Card) -> Move, B: Fn(i32) -> u8>(
    strategy: F,
    betting_strategy: B,
    player_count: int,
    round_count: nat,
    deck_before: DeckView,
    money_before: Ledger,
    deck_after: DeckView,
    money_after: Ledger,
) -> bool
    decreases round_count,
{
    if round_count == 0 {
        deck_after == deck_before && money_after == money_before
    } else {
        exists|deck_mid: DeckView, money_mid: Ledger, bet: u8, round: RoundPlay|
            {
                &&& rounds_played(
                    strategy,
                    betting_strategy,
                    player_count,
                    (round_count - 1) as nat,
                    deck_before,
                    money_before,
                    deck_mid,
                    money_mid,
                )
                &&& betting_strategy.ensures((deck_mid.running_count as i32,), bet)
                &&& #[trigger] round_played(
                    strategy,
                    bet as int,
                    player_count,
                    deck_mid,
                    money_mid,
                    round,
                    deck_after,
                    money_after,
                )
            }
    }
}

/// A game took the ledger from empty to `money`: `GAME_COUNT` rounds with
/// `PLAYER_COUNT` seats, starting on a fresh deck.
pub open spec fn game_played<F: Fn(u8, Card) -> Move, B: Fn(i32) -> u8>(
    strategy: F,
    betting_strategy: B,
    money: Ledger,
) -> bool {
    exists|deck_before: DeckView, deck_after: DeckView|
        deck_before.is_fresh() && #[trigger] rounds_played(
            strategy,
            betting_strategy,
            PLAYER_COUNT as int,
            GAME_COUNT as nat,
            deck_before,
            Ledger::empty(),
            deck_after,
            money,
        )
}

/// The ledger has room for every round that is left: with `done` rounds
/// played at bets up to `top`, a round at `bet` fits, and the ledger stays
/// within what `rounds` rounds at the higher of `top` and `bet` can fill.
proof fn lemma_room_for_next_round(top: int, bet: int, seats_each: int, done: int, rounds: int)
    requires
        0 <= top,
        0 <= bet,
        0 <= seats_each,
        0 <= done < rounds,
    ensures
        4 * top * seats_each * done + 4 * bet * seats_each <= 4 * max(top, bet) * seats_each * (done
            + 1),
        8 * top * seats_each * done + 8 * bet * seats_each <= 8 * max(top, bet) * seats_each * (done
            + 1),
        4 * max(top, bet) * seats_each * (done + 1) <= 4 * max(top, bet) * (seats_each * rounds),
        8 * max(top, bet) * seats_each * (done + 1) <= 8 * max(top, bet) * (seats_each * rounds),
{
    let higher = max(top, bet);
    let so_far = seats_each * done;
    let all = seats_each * rounds;
    assert(so_far + seats_each == seats_each * (done + 1)) by (nonlinear_arith)
        requires
            so_far == seats_each * done,
    ;
    assert(so_far + seats_each <= all) by (nonlinear_arith)
        requires
            so_far == seats_each * done,
            all == seats_each * rounds,
            0 <= seats_each,
            done < rounds,
    ;
    assert(4 * top * seats_each * done == 4 * (top * so_far)) by (nonlinear_arith)
        requires
            so_far == seats_each * done,
    ;
    assert(8 * top * seats_each * done == 8 * (top * so_far)) by (nonlinear_arith)
        requires
            so_far == seats_each * done,
    ;
    assert(4 * higher * seats_each * (done + 1) == 4 * (higher * so_far) + 4 * (higher
        * seats_each)) by (nonlinear_arith)
        requires
            so_far == seats_each * done,
    ;
    assert(8 * higher * seats_each * (done + 1) == 8 * (higher * so_far) + 8 * (higher
        * seats_each)) by (nonlinear_arith)
        requires
            so_far == seats_each * done,
    ;
    assert(4 * bet * seats_each == 4 * (bet * seats_each)) by (nonlinear_arith);
    assert(8 * bet * seats_each == 8 * (bet * seats_each)) by (nonlinear_arith);
    assert(top * so_far <= higher * so_far) by (nonlinear_arith)
        requires
            top <= higher,
            0 <= so_far,
    ;
    assert(0 <= so_far) by (nonlinear_arith)
        requires
            so_far == seats_each * done,
            0 <= seats_each,
            0 <= done,
    ;
    assert(bet * seats_each <= higher * seats_each) by (nonlinear_arith)
        requires
            bet <= higher,
            0 <= seats_each,
    ;
    assert(4 * higher * seats_each * (done + 1) == 4 * (higher * (so_far + seats_each)))
        by (nonlinear_arith)
        requires
            so_far == seats_each * done,
    ;
    assert(8 * higher * seats_each * (done + 1) == 8 * (higher * (so_far + seats_each)))
        by (nonlinear_arith)
        requires
            so_far == seats_each * done,
    ;
    assert(higher * (so_far + seats_each) <= higher * all) by (nonlinear_arith)
        requires
            0 <= higher,
            so_far + seats_each <= all,
    ;
    assert(4 * higher * (seats_each * rounds) == 4 * (higher * all)) by (nonlinear_arith)
        requires
            all == seats_each * rounds,
    ;
    assert(8 * higher * (seats_each * rounds) == 8 * (higher * all)) by (nonlinear_arith)
        requires
            all == seats_each * rounds,
    ;
}

/// Plays `round_count` rounds with `player_count` seats on the given deck
/// and books them in the ledger. Before every round the betting strategy
/// sets the bet from the deck's running count.
pub fn play_rounds<F: Fn(u8, Card) -> Move, B: Fn(i32) -> u8>(
    strategy: &F,
    betting_strategy: B,
    player_count: usize,
    round_count: usize,
    deck: &mut Deck,
    money: &mut Money,
)
    requires
        forall|value: u8, card: Card| value < 21 ==> #[trigger] strategy.requires((value, card)),
        forall|count: i32| count_in_play(count) ==> #[trigger] betting_strategy.requires((count,)),
        forall|count: i32, bet: u8|
            count_in_play(count) && #[trigger] betting_strategy.ensures((count,), bet)
                ==> old(money)@.has_room(bet as int, player_count * round_count),
        old(deck)@.wf(),
        round_draw_limit(player_count as int) + COUNT_LIMIT <= i32::MAX,
    ensures
        rounds_played(
            strategy,
            betting_strategy,
            player_count as int,
            round_count as nat,
            old(deck)@,
            old(money)@,
            final(deck)@,
            final(money)@,
        ),
        final(deck)@.wf(),
{
    let ghost seats_each = player_count as int;
    let ghost rounds = round_count as int;
    let ghost mut top: int = 0;
    let mut played: usize = 0;
    proof {
        assert(4 * 0 * (seats_each * rounds) == 0) by (nonlinear_arith);
        assert(8 * 0 * (seats_each * rounds) == 0) by (nonlinear_arith);
        assert(4 * 0 * seats_each * 0 == 0) by (nonlinear_arith);
        assert(8 * 0 * seats_each * 0 == 0) by (nonlinear_arith);
    }
    while played < round_count
        invariant
            played <= round_count,
            seats_each == player_count,
            rounds == round_count,
            forall|value: u8, card: Card|
                value < 21 ==> #[trigger] strategy.requires((value, card)),
            forall|count: i32|
                count_in_play(count) ==> #[trigger] betting_strategy.requires((count,)),
            forall|count: i32, bet: u8|
                count_in_play(count) && #[trigger] betting_strategy.ensures((count,), bet)
                    ==> old(money)@.has_room(bet as int, seats_each * rounds),
            round_draw_limit(seats_each) + COUNT_LIMIT <= i32::MAX,
            deck@.wf(),
            rounds_played(
                strategy,
                betting_strategy,
                seats_each,
                played as nat,
                old(deck)@,
                old(money)@,
                deck@,
                money@,
            ),
            0 <= top,
            old(money)@.has_room(top, seats_each * rounds),
            money@.betted <= old(money)@.betted + 4 * top * seats_each * played,
            money@.won <= old(money)@.won + 8 * top * seats_each * played,
        decreases round_count - played,
    {
        let ghost deck_before = deck@;
        let ghost money_before = money@;
        proof {
            lemma_wf_count_bounds(deck_before);
        }
        let bet = betting_strategy(deck.running_count_value);
        proof {
            lemma_room_for_next_round(top, bet as int, seats_each, played as int, rounds);
            top = max(top, bet as int);
        }
        play_round(strategy, bet, player_count, deck, money);
        proof {
            let round = choose|round: RoundPlay| #[trigger]
                round_played(
                    strategy,
                    bet as int,
                    seats_each,
                    deck_before,
                    money_before,
                    round,
                    deck@,
                    money@,
                );
            lemma_totals_bounds(round.seats, bet as int, round.dealer_outcome());
        }
        played += 1;
    }
}

/// Plays a game of `GAME_COUNT` rounds with `PLAYER_COUNT` seats on a fresh
/// deck and returns the ledger.
pub fn play_game(
    strategy: &impl Fn(u8, Card) -> Move,
    betting_strategy: impl Fn(i32) -> u8,
) -> (money: Money)
    requires
        forall|value: u8, card: Card| value < 21 ==> #[trigger] strategy.requires((value, card)),
        forall|count: i32| count_in_play(count) ==> #[trigger] betting_strategy.requires((count,)),
        forall|count: i32, bet: u8|
            count_in_play(count) && #[trigger] betting_strategy.ensures((count,), bet) ==> bet
                <= MAX_GAME_BET,
    ensures
        game_played(strategy, betting_strategy, money@),
{
    let mut money = Money { betted: 0, won: 0 };
    let mut deck = Deck::new();
    proof {
        assert(money@ == Ledger::empty());
    }
    play_rounds(strategy, betting_strategy, PLAYER_COUNT, GAME_COUNT, &mut deck, &mut money);
    money
}

} // verus!
