use blackjack_sim::{Card, Hand, CARDS_LIST};

fn value_of(cards: &[Card]) -> u8 {
    Hand(cards.to_vec()).value()
}

#[test]
fn card_values_follow_the_table() {
    let expected: [u8; 13] = [2, 3, 4, 5, 6, 7, 8, 9, 10, 10, 10, 10, 1];
    for (card, points) in CARDS_LIST.iter().zip(expected.iter()) {
        assert_eq!(card.value(), *points);
    }
}

#[test]
fn count_signals_follow_the_table() {
    let expected: [i32; 13] = [1, 1, 1, 1, 1, 0, 0, 0, -1, -1, -1, -1, -1];
    for (card, signal) in CARDS_LIST.iter().zip(expected.iter()) {
        assert_eq!(card.running_count_value(), *signal);
    }
}

#[test]
fn cards_list_holds_every_rank_once_in_order() {
    assert_eq!(
        CARDS_LIST.to_vec(),
        vec![
            Card::Two,
            Card::Three,
            Card::Four,
            Card::Five,
            Card::Six,
            Card::Seven,
            Card::Eight,
            Card::Nine,
            Card::Ten,
            Card::Jack,
            Card::Queen,
            Card::King,
            Card::Ace,
        ]
    );
}

#[test]
fn new_hand_is_empty_and_worth_nothing() {
    let hand = Hand::new();
    assert!(hand.0.is_empty());
    assert_eq!(hand.value(), 0);
}

#[test]
fn hand_without_aces_is_worth_the_sum_of_its_points() {
    assert_eq!(value_of(&[Card::Two, Card::Three, Card::Four]), 9);
    assert_eq!(value_of(&[Card::King, Card::Queen]), 20);
    assert_eq!(value_of(&[Card::Jack, Card::Ten]), 20);
    assert_eq!(value_of(&[Card::Seven, Card::Eight, Card::Six]), 21);
    assert_eq!(value_of(&[Card::Ten, Card::Nine, Card::Five]), 24);
    assert_eq!(value_of(&[Card::Five]), 5);
}

#[test]
fn single_ace_is_worth_eleven() {
    assert_eq!(value_of(&[Card::Ace]), 11);
}

#[test]
fn two_aces_are_worth_twelve() {
    assert_eq!(value_of(&[Card::Ace, Card::Ace]), 12);
}

#[test]
fn two_aces_and_a_nine_are_worth_twenty_one() {
    assert_eq!(value_of(&[Card::Ace, Card::Ace, Card::Nine]), 21);
}

#[test]
fn ace_and_king_are_worth_twenty_one() {
    assert_eq!(value_of(&[Card::Ace, Card::King]), 21);
    assert_eq!(value_of(&[Card::King, Card::Ace]), 21);
}

#[test]
fn ace_and_two_kings_are_worth_twenty_one() {
    assert_eq!(value_of(&[Card::Ace, Card::King, Card::King]), 21);
}

#[test]
fn several_aces_count_at_most_one_of_them_as_eleven() {
    assert_eq!(value_of(&[Card::Ace, Card::Ace, Card::Ace]), 13);
    assert_eq!(value_of(&[Card::Ace, Card::Ace, Card::Ace, Card::Ace]), 14);
    assert_eq!(value_of(&[Card::Ace, Card::Ace, Card::Ace, Card::Eight]), 21);
    assert_eq!(value_of(&[Card::Ace, Card::Ace, Card::Ten]), 12);
    assert_eq!(value_of(&[Card::Ace, Card::Ace, Card::Nine, Card::Ten]), 21);
    assert_eq!(value_of(&[Card::Ace, Card::Ace, Card::Ten, Card::Ten]), 22);
}

#[test]
fn ace_counts_eleven_only_while_the_hand_stays_under_twenty_two() {
    assert_eq!(value_of(&[Card::Ace, Card::Nine]), 20);
    assert_eq!(value_of(&[Card::Ace, Card::Five, Card::Five]), 21);
    assert_eq!(value_of(&[Card::Ace, Card::Five, Card::Six]), 12);
    assert_eq!(value_of(&[Card::Ace, Card::Six]), 17);
    assert_eq!(value_of(&[Card::Six, Card::Ace, Card::Ten]), 17);
}

#[test]
fn bust_hand_is_worth_its_hard_total() {
    assert_eq!(value_of(&[Card::Ace, Card::King, Card::Queen, Card::Jack]), 31);
    assert_eq!(value_of(&[Card::King, Card::Queen, Card::Two]), 22);
    assert_eq!(value_of(&[Card::King, Card::Queen, Card::Five, Card::Ace]), 26);
}

#[test]
fn order_of_the_cards_does_not_change_the_value() {
    assert_eq!(value_of(&[Card::Nine, Card::Ace, Card::Ace]), 21);
    assert_eq!(value_of(&[Card::Ace, Card::Nine, Card::Ace]), 21);
    assert_eq!(value_of(&[Card::Ten, Card::Two, Card::Ace]), 13);
    assert_eq!(value_of(&[Card::Ace, Card::Two, Card::Ten]), 13);
}

#[test]
fn value_of_a_huge_hand_stops_at_the_largest_byte() {
    assert_eq!(value_of(&[Card::Ten; 25]), 250);
    assert_eq!(value_of(&[Card::Ten; 26]), 255);
    assert_eq!(value_of(&[Card::King; 300]), 255);
    let mut cards = vec![Card::Ten; 25];
    cards.push(Card::Five);
    assert_eq!(value_of(&cards), 255);
    cards.push(Card::Ace);
    assert_eq!(value_of(&cards), 255);
}
