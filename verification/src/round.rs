//! A round: two cards to every seat and to the dealer, the dealer's turn,
//! every seat's turn, and the settlement of every seat.

use vstd::prelude::*;
use crate::card::Card;
use crate::deck::{
    deals, lemma_deals_concat, lemma_deals_count_within, lemma_deals_push, lemma_deals_wf, Deck,
    DeckView,
};
use crate::hand::{hand_value, Hand};
use crate::money::{payout, stake_at_risk, Ledger, Money};
use crate::strategy::Move;
use crate::turn::{
    dealer_turn, lemma_dealer_draws_bounded, lemma_player_draws_bounded, outcome_of,
    play_dealer_turn, play_turn_with_strategy, player_turn, Outcome, MAX_TURN_DRAWS,
};

verus! {

/// The play of one seat in a round: its final hand and whether it doubled
/// down.
pub struct SeatPlay {
    pub hand: Seq<Card>,
    pub doubled_down: bool,
}

impl SeatPlay {
    /// How the seat's turn ended.
    pub open spec fn outcome(self) -> Outcome {
        outcome_of(hand_value(self.hand))
    }

    /// The stake the seat put at risk.
    pub open spec fn stake(self, bet: int) -> int {
        stake_at_risk(bet, self.doubled_down)
    }

    /// What came back to the seat.
    pub open spec fn returned(self, bet: int, dealer_outcome: Outcome) -> int {
        payout(self.outcome(), dealer_outcome, self.stake(bet))
    }
}

/// The play of a round: the final hands of the dealer and of every seat.
pub struct RoundPlay {
    pub dealer_hand: Seq<Card>,
    pub seats: Seq<SeatPlay>,
}

/// The stakes of the seats, added up.
pub open spec fn total_staked(seats: Seq<SeatPlay>, bet: int) -> int
    decreases seats.len(),
{
    if seats.len() == 0 {
        0
    } else {
        total_staked(seats.drop_last(), bet) + seats.last().stake(bet)
    }
}

/// What came back to the seats, added up.
pub open spec fn total_returned(seats: Seq<SeatPlay>, bet: int, dealer_outcome: Outcome) -> int
    decreases seats.len(),
{
    if seats.len() == 0 {
        0
    } else {
        total_returned(seats.drop_last(), bet, dealer_outcome) + seats.last().returned(
            bet,
            dealer_outcome,
        )
    }
}

/// The cards the seats drew after their first two, seat by seat.
pub open spec fn seat_draws(seats: Seq<SeatPlay>) -> Seq<Card>
    decreases seats.len(),
{
    if seats.len() == 0 {
        Seq::empty()
    } else {
        seat_draws(seats.drop_last()) + seats.last().hand.skip(2)
    }
}

/// Every seat got two cards and then played its turn by the strategy
/// against the dealer's card, doubling down only on its first action.
pub open spec fn seats_played<F: Fn(u8, Card) -> Move>(
    strategy: F,
    dealer_visible_card: Card,
    seats: Seq<SeatPlay>,
) -> bool {
    forall|i: int|
        0 <= i < seats.len() ==> {
            &&& (#[trigger] seats[i]).hand.len() >= 2
            &&& player_turn(
                strategy,
                dealer_visible_card,
                seats[i].hand.take(2),
                seats[i].hand,
                true,
                false,
                seats[i].doubled_down,
            )
        }
}

impl RoundPlay {
    /// How the dealer's turn ended.
    pub open spec fn dealer_outcome(self) -> Outcome {
        outcome_of(hand_value(self.dealer_hand))
    }

    /// The dealer's first card, which the players see.
    pub open spec fn dealer_visible_card(self) -> Card {
        self.dealer_hand[0]
    }

    /// The cards of one pass of the initial deal: card number `pass` of
    /// every seat in seat order, then that of the dealer.
    pub open spec fn pass_cards(self, pass: int) -> Seq<Card> {
        Seq::new(self.seats.len(), |i: int| self.seats[i].hand[pass]).push(self.dealer_hand[pass])
    }

    /// All cards of the round in the order they were dealt: two passes over
    /// the seats and the dealer, then the dealer's draws, then the draws of
    /// every seat in turn.
    pub open spec fn cards_dealt(self) -> Seq<Card> {
        self.pass_cards(0) + self.pass_cards(1) + self.dealer_hand.skip(2) + seat_draws(self.seats)
    }

    /// The round was played by the rules: every party got two cards, the
    /// dealer then played by the house rule, and every seat played by the
    /// strategy against the dealer's first card, doubling down only on its
    /// first action.
    pub open spec fn follows_rules<F: Fn(u8, Card) -> Move>(
        self,
        strategy: F,
        player_count: int,
    ) -> bool {
        &&& self.seats.len() == player_count
        &&& self.dealer_hand.len() >= 2
        &&& dealer_turn(self.dealer_hand.take(2), self.dealer_hand)
        &&& seats_played(strategy, self.dealer_visible_card(), self.seats)
    }
}

/// One round took the deck and the ledger from their state before to their
/// state after, and `round` is how it was played.
pub open spec fn round_played<F: Fn(u8, Card) -> Move>(
    strategy: F,
    bet: int,
    player_count: int,
    deck_before: DeckView,
    money_before: Ledger,
    round: RoundPlay,
    deck_after: DeckView,
    money_after: Ledger,
) -> bool {
    &&& round.follows_rules(strategy, player_count)
    &&& deals(deck_before, round.cards_dealt(), deck_after)
    &&& money_after == money_before.plus(
        total_staked(round.seats, bet),
        total_returned(round.seats, bet, round.dealer_outcome()),
    )
}

/// The most cards a round can deal: two to every party, and a turn's worth
/// of draws for each.
pub open spec fn round_draw_limit(player_count: int) -> int {
    (2 + MAX_TURN_DRAWS) * (player_count + 1)
}

/// The last card of every hand, in the order of the hands.
pub open spec fn last_cards(hands: Seq<Hand>) -> Seq<Card> {
    Seq::new(hands.len(), |i: int| hands[i]@.last())
}

/// Deals one card to every hand, in the order of the hands.
fn deal_pass(deck: &mut Deck, hands: &mut Vec<Hand>)
    requires
        old(deck)@.count_within(old(hands).len() as int),
        old(hands).len() < i32::MAX,
    ensures
        final(hands).len() == old(hands).len(),
        forall|i: int|
            0 <= i < old(hands).len() ==> (#[trigger] final(hands)[i])@.len() > 0
                && final(hands)[i]@.drop_last() == old(hands)[i]@,
        deals(old(deck)@, last_cards(final(hands)@), final(deck)@),
{
    let mut i: usize = 0;
    proof {
        assert(last_cards(hands@).take(0) =~= Seq::<Card>::empty());
    }
    while i < hands.len()
        invariant
            i <= hands.len(),
            hands.len() == old(hands).len(),
            old(hands).len() < i32::MAX,
            old(deck)@.count_within(old(hands).len() as int),
            forall|j: int|
                0 <= j < i ==> {
                    &&& (#[trigger] hands[j])@.len() > 0
                    &&& hands[j]@.drop_last() == old(hands)[j]@
                },
            forall|j: int| i <= j < hands.len() ==> #[trigger] hands[j] == old(hands)[j],
            deals(old(deck)@, last_cards(hands@).take(i as int), deck@),
        decreases hands.len() - i,
    {
        let ghost hands_before = hands@;
        let ghost dealt = last_cards(hands_before).take(i as int);
        let ghost deck_before = deck@;
        proof {
            lemma_deals_count_within(old(deck)@, dealt, deck_before, old(hands).len() as int);
        }
        let card = deck.deal_card(&mut hands[i]);
        proof {
            lemma_deals_push(old(deck)@, dealt, deck_before, card, deck@);
            assert(hands[i as int]@.drop_last() =~= hands_before[i as int]@);
            assert(last_cards(hands@).take(i + 1) =~= dealt.push(card));
        }
        i += 1;
    }
    proof {
        assert(last_cards(hands@).take(i as int) =~= last_cards(hands@));
    }
}

/// Plays one round at the given bet: deals two cards to every seat and the
/// dealer, plays the dealer's turn, then every seat's turn by `strategy`
/// against the dealer's first card, and books every seat in the ledger.
pub fn play_round<F: Fn(u8, Card) -> Move>(
    strategy: &F,
    bet: u8,
    player_count: usize,
    deck: &mut Deck,
    money: &mut Money,
)
    requires
        forall|value: u8, card: Card| value < 21 ==> #[trigger] strategy.requires((value, card)),
        old(deck)@.count_within(round_draw_limit(player_count as int)),
        old(money)@.has_room(bet as int, player_count as int),
    ensures
        exists|round: RoundPlay| #[trigger]
            round_played(
                strategy,
                bet as int,
                player_count as int,
                old(deck)@,
                old(money)@,
                round,
                final(deck)@,
                final(money)@,
            ),
        old(deck)@.wf() ==> final(deck)@.wf(),
{
    let ghost limit = round_draw_limit(player_count as int);
    let ghost seat_count = player_count as int;
    let mut dealer_hand = Hand::new();
    let mut player_hands: Vec<Hand> = Vec::new();
    let mut i: usize = 0;
    while i < player_count
        invariant
            i <= player_count,
            player_hands.len() == i,
            forall|j: int| 0 <= j < i ==> (#[trigger] player_hands[j])@.len() == 0,
        decreases player_count - i,
    {
        player_hands.push(Hand::new());
        i += 1;
    }

    let ghost stock = deck@;
    deal_pass(deck, &mut player_hands);
    let ghost first_cards = last_cards(player_hands@);
    let ghost after_first_pass = deck@;
    proof {
        lemma_deals_count_within(stock, first_cards, after_first_pass, limit);
    }
    let dealer_visible_card = deck.deal_card(&mut dealer_hand);
    let ghost first_pass = first_cards.push(dealer_visible_card);
    let ghost after_first = deck@;
    proof {
        lemma_deals_push(stock, first_cards, after_first_pass, dealer_visible_card, after_first);
        lemma_deals_count_within(stock, first_pass, after_first, limit);
    }

    let ghost hands_after_first = player_hands@;
    deal_pass(deck, &mut player_hands);
    let ghost second_cards = last_cards(player_hands@);
    let ghost after_second_pass = deck@;
    proof {
        lemma_deals_count_within(
            after_first,
            second_cards,
            after_second_pass,
            limit - seat_count - 1,
        );
    }
    let dealer_hidden_card = deck.deal_card(&mut dealer_hand);
    let ghost second_pass = second_cards.push(dealer_hidden_card);
    let ghost after_second = deck@;
    let ghost dealt_hands = player_hands@;
    let ghost dealer_start = dealer_hand@;
    proof {
        lemma_deals_push(
            after_first,
            second_cards,
            after_second_pass,
            dealer_hidden_card,
            after_second,
        );
        lemma_deals_count_within(after_first, second_pass, after_second, limit - seat_count - 1);
        lemma_deals_concat(stock, first_pass, after_first, second_pass, after_second);
        assert(dealer_start =~= seq![dealer_visible_card, dealer_hidden_card]);
        assert forall|j: int| 0 <= j < seat_count implies {
            &&& (#[trigger] dealt_hands[j])@.len() == 2
            &&& dealt_hands[j]@[0] == first_cards[j]
            &&& dealt_hands[j]@[1] == second_cards[j]
        } by {
            let one_card = hands_after_first[j]@;
            let two_cards = dealt_hands[j]@;
            assert(one_card.drop_last().len() == 0);
            assert(two_cards.drop_last() == one_card);
            assert(two_cards.drop_last()[0] == two_cards[0]);
        }
    }

    let dealer_outcome = play_dealer_turn(deck, &mut dealer_hand);
    let ghost after_dealer = deck@;
    let ghost dealer_draws = dealer_hand@.skip(2);
    proof {
        assert(dealer_hand@.take(2) =~= dealer_start);
        lemma_dealer_draws_bounded(dealer_start, dealer_hand@);
        lemma_deals_count_within(
            after_second,
            dealer_draws,
            after_dealer,
            MAX_TURN_DRAWS * (seat_count + 1),
        );
        lemma_deals_concat(
            stock,
            first_pass + second_pass,
            after_second,
            dealer_draws,
            after_dealer,
        );
    }

    let ghost mut seats: Seq<SeatPlay> = Seq::empty();
    i = 0;
    while i < player_count
        invariant
            i <= player_count,
            seat_count == player_count,
            player_hands.len() == player_count,
            dealt_hands.len() == player_count,
            seats.len() == i,
            first_cards.len() == seat_count,
            second_cards.len() == seat_count,
            forall|value: u8, card: Card|
                value < 21 ==> #[trigger] strategy.requires((value, card)),
            forall|j: int|
                0 <= j < seat_count ==> {
                    &&& (#[trigger] dealt_hands[j])@.len() == 2
                    &&& dealt_hands[j]@[0] == first_cards[j]
                    &&& dealt_hands[j]@[1] == second_cards[j]
                },
            forall|j: int|
                0 <= j < i ==> {
                    &&& (#[trigger] seats[j]).hand.len() >= 2
                    &&& seats[j].hand.take(2) == dealt_hands[j]@
                    &&& player_turn(
                        strategy,
                        dealer_visible_card,
                        dealt_hands[j]@,
                        seats[j].hand,
                        true,
                        false,
                        seats[j].doubled_down,
                    )
                },
            forall|j: int| i <= j < player_count ==> #[trigger] player_hands[j] == dealt_hands[j],
            deals(after_dealer, seat_draws(seats), deck@),
            deck@.count_within(MAX_TURN_DRAWS * (seat_count - i)),
            money@ == old(money)@.plus(
                total_staked(seats, bet as int),
                total_returned(seats, bet as int, dealer_outcome),
            ),
            old(money)@.has_room(bet as int, seat_count),
        decreases player_count - i,
    {
        let ghost deck_before = deck@;
        let ghost seats_before = seats;
        let (outcome, double_down) = play_turn_with_strategy(
            dealer_visible_card,
            deck,
            &mut player_hands[i],
            true,
            false,
            strategy,
        );
        let ghost seat = SeatPlay { hand: player_hands[i as int]@, doubled_down: double_down };
        proof {
            let start = dealt_hands[i as int]@;
            let draws = seat.hand.skip(2);
            lemma_player_draws_bounded(
                strategy,
                dealer_visible_card,
                start,
                seat.hand,
                true,
                false,
                double_down,
            );
            lemma_deals_count_within(deck_before, draws, deck@, MAX_TURN_DRAWS * (seat_count - i));
            lemma_deals_concat(after_dealer, seat_draws(seats_before), deck_before, draws, deck@);
            seats = seats_before.push(seat);
            assert(seats.drop_last() =~= seats_before);
            assert(seat.hand.take(2) =~= start);
            lemma_totals_bounds(seats, bet as int, dealer_outcome);
            assert(4 * bet * (i + 1) <= 4 * bet * seat_count) by (nonlinear_arith)
                requires
                    0 <= bet,
                    i + 1 <= seat_count,
            ;
            assert(8 * bet * (i + 1) <= 8 * bet * seat_count) by (nonlinear_arith)
                requires
                    0 <= bet,
                    i + 1 <= seat_count,
            ;
        }
        money.settle(bet, outcome, double_down, dealer_outcome);
        i += 1;
    }
    proof {
        let round = RoundPlay { dealer_hand: dealer_hand@, seats };
        assert(round.pass_cards(0) =~= first_pass);
        assert(round.pass_cards(1) =~= second_pass);
        lemma_deals_concat(
            stock,
            first_pass + second_pass + dealer_draws,
            after_dealer,
            seat_draws(seats),
            deck@,
        );
        assert(round_played(
            strategy,
            bet as int,
            player_count as int,
            stock,
            old(money)@,
            round,
            deck@,
            money@,
        ));
        if stock.wf() {
            lemma_deals_wf(stock, round.cards_dealt(), deck@);
        }
    }
}

/// The seats together stake at least twice and at most four times the bet
/// each, and get back at most twice what they staked.
pub proof fn lemma_totals_bounds(seats: Seq<SeatPlay>, bet: int, dealer_outcome: Outcome)
    requires
        0 <= bet,
    ensures
        2 * bet * seats.len() <= total_staked(seats, bet) <= 4 * bet * seats.len(),
        0 <= total_returned(seats, bet, dealer_outcome) <= 2 * total_staked(seats, bet),
        total_returned(seats, bet, dealer_outcome) <= 8 * bet * seats.len(),
    decreases seats.len(),
{
    if seats.len() > 0 {
        lemma_totals_bounds(seats.drop_last(), bet, dealer_outcome);
        let n = seats.len() as int;
        assert(2 * bet * n == 2 * bet * (n - 1) + 2 * bet) by (nonlinear_arith);
        assert(4 * bet * n == 4 * bet * (n - 1) + 4 * bet) by (nonlinear_arith);
        assert(8 * bet * n == 8 * bet * (n - 1) + 8 * bet) by (nonlinear_arith);
    }
}

} // verus!
