use blackjack_sim::game::MAX_GAME_BET;
use blackjack_sim::{
    basic_strategy, blind_strategy, card_counting_betting_strategy_agressive, play_dealer_turn,
    play_game, play_round, play_rounds, play_turn_with_strategy, Card, Deck, Hand, Money, Move,
    Outcome, GAME_COUNT, PLAYER_COUNT,
};

/// A deck that deals the given cards in the given order.
fn stacked(deal_order: &[Card], running_count_value: i32) -> Deck {
    let mut cards = deal_order.to_vec();
    cards.reverse();
    Deck { cards, running_count_value }
}

fn settled(bet: u8, outcome: Outcome, doubled_down: bool, dealer_outcome: Outcome) -> (i32, i32) {
    let mut money = Money { betted: 0, won: 0 };
    money.settle(bet, outcome, doubled_down, dealer_outcome);
    (money.betted, money.won)
}

#[test]
fn profit_is_what_came_back_less_what_was_staked() {
    assert_eq!(Money { betted: 10, won: 4 }.profit(), -6);
    assert_eq!(Money { betted: 10, won: 25 }.profit(), 15);
    assert_eq!(Money { betted: 0, won: 0 }.profit(), 0);
    assert_eq!(Money { betted: i32::MAX, won: 0 }.profit(), -i32::MAX);
}

#[test]
fn blackjack_pays_one_and_a_half_times_the_stake() {
    assert_eq!(settled(1, Outcome::Blackjack, false, Outcome::Standing(17)), (2, 3));
    assert_eq!(settled(1, Outcome::Blackjack, false, Outcome::Bust), (2, 3));
    assert_eq!(settled(1, Outcome::Blackjack, false, Outcome::Blackjack), (2, 3));
    assert_eq!(settled(3, Outcome::Blackjack, false, Outcome::Standing(20)), (6, 9));
    assert_eq!(settled(3, Outcome::Blackjack, true, Outcome::Standing(20)), (12, 18));
}

#[test]
fn standing_hand_wins_twice_the_stake_against_a_bust_dealer() {
    assert_eq!(settled(2, Outcome::Standing(12), false, Outcome::Bust), (4, 8));
    assert_eq!(settled(2, Outcome::Standing(12), true, Outcome::Bust), (8, 16));
}

#[test]
fn standing_hand_is_compared_with_the_dealers() {
    assert_eq!(settled(2, Outcome::Standing(19), false, Outcome::Standing(17)), (4, 8));
    assert_eq!(settled(2, Outcome::Standing(18), false, Outcome::Standing(18)), (4, 4));
    assert_eq!(settled(2, Outcome::Standing(17), false, Outcome::Standing(19)), (4, 0));
    assert_eq!(settled(2, Outcome::Standing(18), true, Outcome::Standing(18)), (8, 8));
    assert_eq!(settled(2, Outcome::Standing(20), false, Outcome::Blackjack), (4, 0));
}

#[test]
fn bust_hand_loses_its_stake() {
    assert_eq!(settled(2, Outcome::Bust, false, Outcome::Bust), (4, 0));
    assert_eq!(settled(2, Outcome::Bust, true, Outcome::Standing(17)), (8, 0));
    assert_eq!(settled(2, Outcome::Bust, false, Outcome::Blackjack), (4, 0));
}

#[test]
fn settlements_add_up_in_the_ledger() {
    let mut money = Money { betted: 100, won: 50 };
    money.settle(5, Outcome::Standing(20), true, Outcome::Standing(19));
    assert_eq!((money.betted, money.won), (120, 90));
    money.settle(0, Outcome::Blackjack, true, Outcome::Bust);
    assert_eq!((money.betted, money.won), (120, 90));
    money.settle(255, Outcome::Standing(20), true, Outcome::Bust);
    assert_eq!((money.betted, money.won), (1140, 2130));
}

#[test]
fn fixed_deck_gives_a_fixed_round_piece_by_piece() {
    let mut deck = stacked(&[Card::Ten, Card::Ten, Card::Nine, Card::Seven, Card::Two], 0);
    let mut player_hand = Hand::new();
    let mut dealer_hand = Hand::new();
    deck.deal_card(&mut player_hand);
    let dealer_visible_card = deck.deal_card(&mut dealer_hand);
    deck.deal_card(&mut player_hand);
    deck.deal_card(&mut dealer_hand);
    assert_eq!(dealer_visible_card, Card::Ten);
    assert_eq!(dealer_hand.0, vec![Card::Ten, Card::Seven]);
    assert_eq!(player_hand.0, vec![Card::Ten, Card::Nine]);

    let dealer_outcome = play_dealer_turn(&mut deck, &mut dealer_hand);
    assert_eq!(dealer_outcome, Outcome::Standing(17));
    let (outcome, doubled_down) = play_turn_with_strategy(
        dealer_visible_card,
        &mut deck,
        &mut player_hand,
        true,
        false,
        |value, _| blind_strategy(19, value),
    );
    assert_eq!(outcome, Outcome::Blackjack);
    assert!(!doubled_down);
    assert_eq!(player_hand.0, vec![Card::Ten, Card::Nine, Card::Two]);

    let mut money = Money { betted: 0, won: 0 };
    money.settle(2, outcome, doubled_down, dealer_outcome);
    assert_eq!((money.betted, money.won), (4, 6));
}

#[test]
fn fixed_deck_gives_a_fixed_round() {
    for _ in 0..3 {
        let mut deck = stacked(&[Card::Ten, Card::Ten, Card::Nine, Card::Seven, Card::Two], 0);
        let mut money = Money { betted: 0, won: 0 };
        play_round(&|value, _| blind_strategy(19, value), 2, 1, &mut deck, &mut money);
        assert_eq!((money.betted, money.won), (4, 6));
        assert!(deck.cards.is_empty());
        assert_eq!(deck.running_count_value, -1);
    }
}

#[test]
fn round_deals_in_two_passes_and_plays_the_dealer_first() {
    let mut deck = stacked(
        &[
            Card::Five,
            Card::Ten,
            Card::Six,
            Card::Six,
            Card::Seven,
            Card::Ten,
            Card::Five,
            Card::Ten,
            Card::Ace,
        ],
        0,
    );
    let mut money = Money { betted: 10, won: 20 };
    play_round(&basic_strategy, 1, 2, &mut deck, &mut money);
    // Seat one holds 5 and 6 against a 6: it doubles down and draws the ten
    // left after the dealer drew to 21. Seat two stands on 17 and loses.
    assert_eq!((money.betted, money.won), (10 + 4 + 2, 20 + 6));
    assert_eq!(deck.cards, vec![Card::Ace]);
    assert_eq!(deck.running_count_value, 1);
}

#[test]
fn round_settles_every_seat_against_the_dealer() {
    // Dealer: 10, 8 stands on 18. Seats: 19 wins, 18 pushes, 17 loses.
    let mut deck = stacked(
        &[
            Card::Ten,
            Card::Ten,
            Card::Ten,
            Card::Ten,
            Card::Nine,
            Card::Eight,
            Card::Seven,
            Card::Eight,
        ],
        0,
    );
    let mut money = Money { betted: 0, won: 0 };
    play_round(&basic_strategy, 5, 3, &mut deck, &mut money);
    assert_eq!((money.betted, money.won), (30, 20 + 10));
    assert!(deck.cards.is_empty());
    assert_eq!(deck.running_count_value, -4);
}

#[test]
fn round_without_seats_plays_the_dealer_alone() {
    let mut deck = stacked(&[Card::Ten, Card::Five, Card::Two, Card::King], 0);
    let mut money = Money { betted: 7, won: 9 };
    play_round(&basic_strategy, 3, 0, &mut deck, &mut money);
    assert_eq!((money.betted, money.won), (7, 9));
    assert_eq!(deck.cards, vec![Card::King]);
}

#[test]
fn bet_of_every_round_comes_from_the_count_before_it() {
    let mut deck = stacked(
        &[
            Card::Ten,
            Card::Ten,
            Card::Nine,
            Card::Eight,
            Card::Ten,
            Card::Ten,
            Card::Seven,
            Card::Nine,
        ],
        4,
    );
    let mut money = Money { betted: 0, won: 0 };
    play_rounds(
        &basic_strategy,
        card_counting_betting_strategy_agressive,
        1,
        2,
        &mut deck,
        &mut money,
    );
    // Round one at bet 4: 19 beats 18. Round two at bet 2: 17 loses to 19.
    assert_eq!((money.betted, money.won), (8 + 4, 16));
    assert!(deck.cards.is_empty());
    assert_eq!(deck.running_count_value, 0);
}

#[test]
fn rounds_go_on_through_a_replenished_deck() {
    // Two cards are left, with the count they would cancel.
    let mut deck = stacked(&[Card::Five, Card::Ten], 0);
    let mut money = Money { betted: 0, won: 0 };
    play_rounds(
        &basic_strategy,
        card_counting_betting_strategy_agressive,
        2,
        30,
        &mut deck,
        &mut money,
    );
    assert!(money.betted >= 0);
    assert_eq!(money.betted % 2, 0);
    assert!(money.won >= 0);
    assert!(money.won <= 2 * money.betted);
    assert!(deck.cards.len() <= 52);
    assert!(deck.running_count_value.abs() <= 20);
    let left: i32 = deck.cards.iter().map(|card| card.running_count_value()).sum();
    assert_eq!(deck.running_count_value + left, 0);
}

#[test]
fn no_rounds_change_nothing() {
    let mut deck = stacked(&[Card::Ten, Card::Five], 0);
    let mut money = Money { betted: 7, won: 9 };
    play_rounds(&basic_strategy, |_| 2, 5, 0, &mut deck, &mut money);
    assert_eq!((money.betted, money.won), (7, 9));
    assert_eq!(deck.cards, vec![Card::Five, Card::Ten]);
    assert_eq!(deck.running_count_value, 0);
}

#[test]
fn rounds_on_a_shuffled_deck_keep_the_ledger_in_bounds() {
    let mut deck = Deck::new();
    let mut money = Money { betted: 0, won: 0 };
    play_rounds(&basic_strategy, |_| 2, 5, 200, &mut deck, &mut money);
    assert!(money.betted >= 200 * 5 * 4);
    assert!(money.betted <= 200 * 5 * 8);
    assert_eq!(money.betted % 4, 0);
    assert!(money.won >= 0);
    assert!(money.won <= 2 * money.betted);
    assert!(deck.cards.len() <= 52);
    assert!(deck.running_count_value.abs() <= 20);
}

#[test]
fn game_constants() {
    assert_eq!(PLAYER_COUNT, 5);
    assert_eq!(GAME_COUNT, 1_000_000);
    assert_eq!(MAX_GAME_BET, 53);
}

#[test]
fn game_books_every_seat_of_every_round() {
    let money = play_game(&|_, _| Move::Stand, |_| 2);
    assert_eq!(money.betted, 1_000_000 * 5 * 4);
    assert!(money.won > 0);
    assert!(money.won <= 2 * money.betted);
    assert_eq!(money.won % 2, 0);
    assert_eq!(money.profit(), money.won - money.betted);
}
