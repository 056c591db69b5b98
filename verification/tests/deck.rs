use blackjack_sim::{Card, Deck, Hand, CARDS_LIST};

fn unshuffled() -> Vec<Card> {
    let mut cards = Vec::new();
    for _ in 0..4 {
        cards.extend_from_slice(&CARDS_LIST);
    }
    cards
}

fn count_of(cards: &[Card], card: Card) -> usize {
    cards.iter().filter(|c| **c == card).count()
}

#[test]
fn new_deck_holds_four_of_every_rank_and_counts_zero() {
    let deck = Deck::new();
    assert_eq!(deck.cards.len(), 52);
    assert_eq!(deck.running_count_value, 0);
    for card in CARDS_LIST {
        assert_eq!(count_of(&deck.cards, card), 4);
    }
}

#[test]
fn new_deck_is_shuffled() {
    let sorted = unshuffled();
    let mut moved = false;
    for _ in 0..20 {
        if Deck::new().cards != sorted {
            moved = true;
        }
    }
    assert!(moved);
}

#[test]
fn new_decks_come_in_different_orders() {
    let first = Deck::new().cards;
    let mut differs = false;
    for _ in 0..20 {
        if Deck::new().cards != first {
            differs = true;
        }
    }
    assert!(differs);
}

#[test]
fn deal_takes_the_last_card_and_adds_its_signal() {
    let mut deck = Deck { cards: vec![Card::Two, Card::King], running_count_value: 5 };
    let mut hand = Hand(vec![Card::Seven]);
    let card = deck.deal_card(&mut hand);
    assert_eq!(card, Card::King);
    assert_eq!(deck.cards, vec![Card::Two]);
    assert_eq!(deck.running_count_value, 4);
    assert_eq!(hand.0, vec![Card::Seven, Card::King]);
}

#[test]
fn running_count_follows_the_cards_dealt() {
    let mut deck = Deck {
        cards: vec![Card::Ace, Card::Eight, Card::Ten, Card::Three, Card::Two],
        running_count_value: 0,
    };
    let mut hand = Hand::new();
    let mut counts = Vec::new();
    for _ in 0..5 {
        deck.deal_card(&mut hand);
        counts.push(deck.running_count_value);
    }
    assert_eq!(counts, vec![1, 2, 1, 1, 0]);
    assert_eq!(hand.0, vec![Card::Two, Card::Three, Card::Ten, Card::Eight, Card::Ace]);
    assert!(deck.cards.is_empty());
}

#[test]
fn dealing_the_last_card_empties_the_deck() {
    let mut deck = Deck { cards: vec![Card::Two], running_count_value: 0 };
    let mut hand = Hand::new();
    let card = deck.deal_card(&mut hand);
    assert_eq!(card, Card::Two);
    assert_eq!(hand.0, vec![Card::Two]);
    assert!(deck.cards.is_empty());
    assert_eq!(deck.running_count_value, 1);
}

#[test]
fn deal_after_the_last_card_comes_from_a_fresh_deck() {
    let mut deck = Deck { cards: vec![Card::Two], running_count_value: 9 };
    let mut hand = Hand::new();
    deck.deal_card(&mut hand);
    assert_eq!(deck.running_count_value, 10);
    let card = deck.deal_card(&mut hand);
    assert_eq!(hand.0, vec![Card::Two, card]);
    assert_eq!(deck.cards.len(), 51);
    assert_eq!(deck.running_count_value, card.running_count_value());
    let mut all = deck.cards.clone();
    all.push(card);
    for rank in CARDS_LIST {
        assert_eq!(count_of(&all, rank), 4);
    }
}

#[test]
fn empty_deck_is_replaced_and_the_count_starts_over() {
    for _ in 0..30 {
        let mut deck = Deck { cards: Vec::new(), running_count_value: -17 };
        let mut hand = Hand::new();
        let card = deck.deal_card(&mut hand);
        assert_eq!(deck.cards.len(), 51);
        assert_eq!(deck.running_count_value, card.running_count_value());
        assert_eq!(count_of(&deck.cards, card), 3);
        assert_eq!(hand.0, vec![card]);
    }
}

#[test]
fn one_card_of_each_rank_leaves_the_count_unchanged() {
    let mut cards = CARDS_LIST.to_vec();
    cards.reverse();
    let mut deck = Deck { cards, running_count_value: 0 };
    let mut hand = Hand::new();
    for _ in 0..13 {
        deck.deal_card(&mut hand);
    }
    assert_eq!(deck.running_count_value, 0);
    assert_eq!(hand.0, CARDS_LIST.to_vec());

    let mut deck = Deck { cards: CARDS_LIST.to_vec(), running_count_value: 3 };
    for _ in 0..13 {
        deck.deal_card(&mut hand);
    }
    assert_eq!(deck.running_count_value, 3);
}

#[test]
fn whole_deck_leaves_the_count_at_zero() {
    let mut deck = Deck::new();
    let mut hand = Hand::new();
    let mut highest = 0;
    let mut lowest = 0;
    for _ in 0..52 {
        deck.deal_card(&mut hand);
        highest = highest.max(deck.running_count_value);
        lowest = lowest.min(deck.running_count_value);
    }
    assert!(deck.cards.is_empty());
    assert_eq!(deck.running_count_value, 0);
    assert!(highest <= 20);
    assert!(lowest >= -20);
    assert_eq!(hand.0.len(), 52);
}
