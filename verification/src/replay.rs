//! Replaying a turn or a round: with a strategy that has one answer to every
//! hand, and a deck that does not run out, the cards decide everything.

use vstd::prelude::*;
use crate::card::Card;
use crate::deck::{
    deals, lemma_deals_from_stock, lemma_deals_same_cards, lemma_deals_split, DeckView,
};
use crate::money::Ledger;
use crate::round::{round_played, seat_draws, seats_played, RoundPlay, SeatPlay};
use crate::strategy::Move;
use crate::turn::{dealer_turn, player_turn};

verus! {

/// The strategy has at most one answer to every hand and dealer's card.
pub open spec fn is_deterministic<F: Fn(u8, Card) -> Move>(strategy: F) -> bool {
    forall|value: u8, card: Card, one: Move, other: Move|
        #[trigger] strategy.ensures((value, card), one) && #[trigger] strategy.ensures(
            (value, card),
            other,
        ) ==> one == other
}

/// Two hands that grew from `start` by cards dealt from the same deck agree
/// on every card that came from the stock the deck had.
proof fn lemma_same_stock_same_cards(
    pre: DeckView,
    start: Seq<Card>,
    end: Seq<Card>,
    post: DeckView,
    other_end: Seq<Card>,
    other_post: DeckView,
)
    requires
        start.is_prefix_of(end),
        start.is_prefix_of(other_end),
        deals(pre, end.skip(start.len() as int), post),
        deals(pre, other_end.skip(start.len() as int), other_post),
    ensures
        forall|k: int|
            0 <= k <= end.len() && k <= other_end.len() && k - start.len() <= pre.cards.len()
                ==> #[trigger] end.take(k) == other_end.take(k),
{
    let drawn = end.skip(start.len() as int);
    let other_drawn = other_end.skip(start.len() as int);
    lemma_deals_from_stock(pre, drawn, post);
    lemma_deals_from_stock(pre, other_drawn, other_post);
    assert forall|k: int|
        0 <= k <= end.len() && k <= other_end.len() && k - start.len() <= pre.cards.len()
        implies #[trigger] end.take(k) == other_end.take(k) by {
        assert forall|i: int| 0 <= i < k implies end.take(k)[i] == other_end.take(k)[i] by {
            if i < start.len() {
                assert(end[i] == start[i]);
                assert(other_end[i] == start[i]);
            } else {
                assert(end[i] == drawn[i - start.len()]);
                assert(other_end[i] == other_drawn[i - start.len()]);
            }
        }
        assert(end.take(k) =~= other_end.take(k));
    }
}

/// The dealer's turn is decided by the cards: two turns of the dealer from
/// the same hand and deck, one of which did not run out of cards, end with
/// the same hand and deck.
pub proof fn lemma_dealer_turn_is_determined(
    pre: DeckView,
    start: Seq<Card>,
    end: Seq<Card>,
    post: DeckView,
    other_end: Seq<Card>,
    other_post: DeckView,
)
    requires
        dealer_turn(start, end),
        deals(pre, end.skip(start.len() as int), post),
        dealer_turn(start, other_end),
        deals(pre, other_end.skip(start.len() as int), other_post),
        end.len() - start.len() <= pre.cards.len(),
    ensures
        other_end == end,
        other_post == post,
{
    lemma_same_stock_same_cards(pre, start, end, post, other_end, other_post);
    if other_end.len() < end.len() {
        assert(end.take(other_end.len() as int) == other_end.take(other_end.len() as int));
        assert(other_end.take(other_end.len() as int) =~= other_end);
    } else {
        assert(end.take(end.len() as int) == other_end.take(end.len() as int));
        assert(end.take(end.len() as int) =~= end);
        if other_end.len() == end.len() {
            assert(other_end.take(end.len() as int) =~= other_end);
        }
    }
    lemma_deals_same_cards(pre, end.skip(start.len() as int), post, other_post);
}

/// A player's turn by a deterministic strategy is decided by the cards: two
/// turns from the same hand, deck and flags, one of which did not run out
/// of cards, end with the same hand, flag and deck.
pub proof fn lemma_player_turn_is_determined<F: Fn(u8, Card) -> Move>(
    strategy: F,
    dealer_visible_card: Card,
    pre: DeckView,
    start: Seq<Card>,
    first_turn: bool,
    doubled_before: bool,
    end: Seq<Card>,
    doubled_after: bool,
    post: DeckView,
    other_end: Seq<Card>,
    other_doubled_after: bool,
    other_post: DeckView,
)
    requires
        is_deterministic(strategy),
        player_turn(
            strategy,
            dealer_visible_card,
            start,
            end,
            first_turn,
            doubled_before,
            doubled_after,
        ),
        deals(pre, end.skip(start.len() as int), post),
        player_turn(
            strategy,
            dealer_visible_card,
            start,
            other_end,
            first_turn,
            doubled_before,
            other_doubled_after,
        ),
        deals(pre, other_end.skip(start.len() as int), other_post),
        end.len() - start.len() <= pre.cards.len(),
    ensures
        other_end == end,
        other_doubled_after == doubled_after,
        other_post == post,
{
    lemma_same_stock_same_cards(pre, start, end, post, other_end, other_post);
    if other_end.len() < end.len() {
        assert(end.take(other_end.len() as int) == other_end.take(other_end.len() as int));
        assert(other_end.take(other_end.len() as int) =~= other_end);
    } else {
        assert(end.take(end.len() as int) == other_end.take(end.len() as int));
        assert(end.take(end.len() as int) =~= end);
        if other_end.len() == end.len() {
            assert(other_end.take(end.len() as int) =~= other_end);
        }
    }
    lemma_deals_same_cards(pre, end.skip(start.len() as int), post, other_post);
}

/// The turns of the seats, one after the other, are decided by the cards.
proof fn lemma_seats_are_determined<F: Fn(u8, Card) -> Move>(
    strategy: F,
    dealer_visible_card: Card,
    pre: DeckView,
    seats: Seq<SeatPlay>,
    post: DeckView,
    other_seats: Seq<SeatPlay>,
    other_post: DeckView,
)
    requires
        is_deterministic(strategy),
        seats.len() == other_seats.len(),
        seats_played(strategy, dealer_visible_card, seats),
        seats_played(strategy, dealer_visible_card, other_seats),
        forall|i: int|
            0 <= i < seats.len() ==> (#[trigger] other_seats[i]).hand.take(2) == seats[i].hand.take(
                2,
            ),
        deals(pre, seat_draws(seats), post),
        deals(pre, seat_draws(other_seats), other_post),
        seat_draws(seats).len() <= pre.cards.len(),
    ensures
        other_seats == seats,
        other_post == post,
    decreases seats.len(),
{
    if seats.len() == 0 {
        assert(other_seats =~= seats);
    } else {
        let front = seats.drop_last();
        let other_front = other_seats.drop_last();
        let seat = seats.last();
        let other_seat = other_seats.last();
        let mid = lemma_deals_split(pre, seat_draws(front), seat.hand.skip(2), post);
        let other_mid = lemma_deals_split(
            pre,
            seat_draws(other_front),
            other_seat.hand.skip(2),
            other_post,
        );
        assert(seats_played(strategy, dealer_visible_card, front)) by {
            assert forall|i: int| 0 <= i < front.len() implies (#[trigger] front[i])
                == seats[i] by {}
        }
        assert(seats_played(strategy, dealer_visible_card, other_front)) by {
            assert forall|i: int| 0 <= i < other_front.len() implies (#[trigger] other_front[i])
                == other_seats[i] by {}
        }
        assert forall|i: int| 0 <= i < front.len() implies (#[trigger] other_front[i]).hand.take(2)
            == front[i].hand.take(2) by {
            assert(other_front[i] == other_seats[i]);
            assert(front[i] == seats[i]);
        }
        lemma_seats_are_determined(
            strategy,
            dealer_visible_card,
            pre,
            front,
            mid,
            other_front,
            other_mid,
        );
        lemma_deals_from_stock(pre, seat_draws(front), mid);
        assert(other_seat.hand.take(2) == seat.hand.take(2));
        lemma_player_turn_is_determined(
            strategy,
            dealer_visible_card,
            mid,
            seat.hand.take(2),
            true,
            false,
            seat.hand,
            seat.doubled_down,
            post,
            other_seat.hand,
            other_seat.doubled_down,
            other_post,
        );
        assert(other_seats =~= other_front.push(other_seat));
        assert(seats =~= front.push(seat));
    }
}

/// A round by a deterministic strategy is decided by the deck: if the deck
/// did not run out during the round, then every play of a round from that
/// deck and ledger, at the same bet and with as many seats, gives the same
/// hands to every seat and to the dealer, doubles down at the same seats,
/// and leaves the same deck and ledger.
pub proof fn lemma_round_is_determined<F: Fn(u8, Card) -> Move>(
    strategy: F,
    bet: int,
    player_count: int,
    deck_before: DeckView,
    money_before: Ledger,
    round: RoundPlay,
    deck_after: DeckView,
    money_after: Ledger,
    other_round: RoundPlay,
    other_deck_after: DeckView,
    other_money_after: Ledger,
)
    requires
        is_deterministic(strategy),
        round_played(
            strategy,
            bet,
            player_count,
            deck_before,
            money_before,
            round,
            deck_after,
            money_after,
        ),
        round_played(
            strategy,
            bet,
            player_count,
            deck_before,
            money_before,
            other_round,
            other_deck_after,
            other_money_after,
        ),
        round.cards_dealt().len() <= deck_before.cards.len(),
    ensures
        other_round == round,
        other_deck_after == deck_after,
        other_money_after == money_after,
{
    let passes = round.pass_cards(0) + round.pass_cards(1);
    let dealer_draws = round.dealer_hand.skip(2);
    let other_passes = other_round.pass_cards(0) + other_round.pass_cards(1);
    let other_dealer_draws = other_round.dealer_hand.skip(2);
    let dealer_done = lemma_deals_split(
        deck_before,
        passes + dealer_draws,
        seat_draws(round.seats),
        deck_after,
    );
    let dealt = lemma_deals_split(deck_before, passes, dealer_draws, dealer_done);
    let other_dealer_done = lemma_deals_split(
        deck_before,
        other_passes + other_dealer_draws,
        seat_draws(other_round.seats),
        other_deck_after,
    );
    let other_dealt = lemma_deals_split(
        deck_before,
        other_passes,
        other_dealer_draws,
        other_dealer_done,
    );
    lemma_deals_from_stock(deck_before, passes, dealt);
    lemma_deals_from_stock(deck_before, other_passes, other_dealt);
    assert(other_passes =~= passes);
    lemma_deals_same_cards(deck_before, passes, dealt, other_dealt);

    let seat_count = round.seats.len() as int;
    assert forall|i: int| 0 <= i < seat_count implies (#[trigger] other_round.seats[i]).hand.take(2)
        == round.seats[i].hand.take(2) by {
        let hand = round.seats[i].hand;
        let other_hand = other_round.seats[i].hand;
        assert(passes[i] == hand[0]);
        assert(other_passes[i] == other_hand[0]);
        assert(passes[seat_count + 1 + i] == hand[1]);
        assert(other_passes[seat_count + 1 + i] == other_hand[1]);
        assert(other_hand.take(2) =~= hand.take(2));
    }
    assert(other_round.dealer_hand.take(2) =~= round.dealer_hand.take(2)) by {
        assert(passes[seat_count] == round.dealer_hand[0]);
        assert(other_passes[seat_count] == other_round.dealer_hand[0]);
        assert(passes[2 * seat_count + 1] == round.dealer_hand[1]);
        assert(other_passes[2 * seat_count + 1] == other_round.dealer_hand[1]);
    }
    lemma_dealer_turn_is_determined(
        dealt,
        round.dealer_hand.take(2),
        round.dealer_hand,
        dealer_done,
        other_round.dealer_hand,
        other_dealer_done,
    );
    lemma_deals_from_stock(dealt, dealer_draws, dealer_done);
    lemma_seats_are_determined(
        strategy,
        round.dealer_visible_card(),
        dealer_done,
        round.seats,
        deck_after,
        other_round.seats,
        other_deck_after,
    );
}

} // verus!
