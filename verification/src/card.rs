//! The thirteen ranks, their point values and their count signals.

use vstd::prelude::*;

verus! {

/// A card rank. Suits play no part in blackjack, so a card is its rank.
#[derive(Copy, Clone, PartialEq, Eq, Structural, Debug)]
pub enum Card {
    Two,
    Three,
    Four,
    Five,
    Six,
    Seven,
    Eight,
    Nine,
    Ten,
    Jack,
    Queen,
    King,
    Ace,
}

/// Every rank once, in the order `Two`, ..., `King`, `Ace`.
pub const CARDS_LIST: [Card; 13] = [
    Card::Two,
    Card::Three,
    Card::Four,
    Card::Five,
    Card::Six,
    Card::Seven,
    Card::Eight,
    Card::Nine,
    Card::Ten,
    Card::Jack,
    Card::Queen,
    Card::King,
    Card::Ace,
];

impl Card {
    /// Points a card contributes to a hard total: the numeral for `Two` to
    /// `Ten`, ten for a face card and one for an ace.
    pub open spec fn points(self) -> nat {
        match self {
            Card::Two => 2,
            Card::Three => 3,
            Card::Four => 4,
            Card::Five => 5,
            Card::Six => 6,
            Card::Seven => 7,
            Card::Eight => 8,
            Card::Nine => 9,
            Card::Ten | Card::Jack | Card::Queen | Card::King => 10,
            Card::Ace => 1,
        }
    }

    /// What a dealt card adds to the running count: low cards (`Two` to
    /// `Six`) raise it, `Seven` to `Nine` leave it, tens, faces and aces
    /// lower it.
    pub open spec fn signal(self) -> int {
        if self.is_low() {
            1
        } else if self.is_high() {
            -1
        } else {
            0
        }
    }

    /// `Two` to `Six`.
    pub open spec fn is_low(self) -> bool {
        self != Card::Ace && self.points() <= 6
    }

    /// `Ten`, the face cards and `Ace`.
    pub open spec fn is_high(self) -> bool {
        self == Card::Ace || self.points() == 10
    }

    /// Position of the rank in [`CARDS_LIST`].
    pub open spec fn index(self) -> int {
        match self {
            Card::Two => 0,
            Card::Three => 1,
            Card::Four => 2,
            Card::Five => 3,
            Card::Six => 4,
            Card::Seven => 5,
            Card::Eight => 6,
            Card::Nine => 7,
            Card::Ten => 8,
            Card::Jack => 9,
            Card::Queen => 10,
            Card::King => 11,
            Card::Ace => 12,
        }
    }

    /// The point value of the card, an ace counting one.
    pub fn value(self) -> (v: u8)
        ensures
            v == self.points(),
    {
        match self {
            Card::Two => 2,
            Card::Three => 3,
            Card::Four => 4,
            Card::Five => 5,
            Card::Six => 6,
            Card::Seven => 7,
            Card::Eight => 8,
            Card::Nine => 9,
            Card::Ten => 10,
            Card::Jack => 10,
            Card::Queen => 10,
            Card::King => 10,
            Card::Ace => 1,
        }
    }

    /// The count signal of the card: `1`, `0` or `-1`.
    pub fn running_count_value(self) -> (s: i32)
        ensures
            s == self.signal(),
    {
        match self {
            Card::Two => 1,
            Card::Three => 1,
            Card::Four => 1,
            Card::Five => 1,
            Card::Six => 1,
            Card::Seven => 0,
            Card::Eight => 0,
            Card::Nine => 0,
            Card::Ten => -1,
            Card::Jack => -1,
            Card::Queen => -1,
            Card::King => -1,
            Card::Ace => -1,
        }
    }
}

/// One if the condition holds, zero if not.
pub open spec fn one_if(condition: bool) -> nat {
    if condition {
        1
    } else {
        0
    }
}

/// Every rank once, in the order of [`CARDS_LIST`].
pub open spec fn ranks() -> Seq<Card> {
    CARDS_LIST@
}

/// Every rank stands in the list once, at its index.
pub proof fn lemma_rank_index(card: Card)
    ensures
        ranks().len() == 13,
        0 <= card.index() < 13,
        ranks()[card.index()] == card,
{
}

} // verus!
