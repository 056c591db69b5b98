//! Hands and their value, with aces counted as one or eleven.

use vstd::prelude::*;
use crate::card::{one_if, Card};

verus! {

/// The cards dealt to one party, in the order they were dealt.
pub struct Hand(pub Vec<Card>);

impl View for Hand {
    type V = Seq<Card>;

    open spec fn view(&self) -> Seq<Card> {
        self.0@
    }
}

/// Sum of the cards' points, every ace counting one.
pub open spec fn hard_total(cards: Seq<Card>) -> nat
    decreases cards.len(),
{
    if cards.len() == 0 {
        0
    } else {
        hard_total(cards.drop_last()) + cards.last().points()
    }
}

/// Number of aces among the cards.
pub open spec fn ace_count(cards: Seq<Card>) -> nat
    decreases cards.len(),
{
    if cards.len() == 0 {
        0
    } else {
        ace_count(cards.drop_last()) + one_if(cards.last() == Card::Ace)
    }
}

/// The total when `elevens` of the aces count eleven and the rest one.
pub open spec fn total_with(cards: Seq<Card>, elevens: nat) -> nat {
    hard_total(cards) + 10 * elevens
}

/// How many aces count eleven: as many as fit under 21, each taking ten
/// points of the room left above the hard total.
pub open spec fn aces_as_eleven(cards: Seq<Card>) -> nat {
    let hard = hard_total(cards);
    if hard > 21 {
        0
    } else if ace_count(cards) <= (21 - hard) / 10 {
        ace_count(cards)
    } else {
        ((21 - hard) / 10) as nat
    }
}

/// The value of a hand: its hard total, plus ten for every ace that counts
/// eleven. A hand whose hard total is over 21 is worth that total.
pub open spec fn hand_value(cards: Seq<Card>) -> nat {
    total_with(cards, aces_as_eleven(cards))
}

/// One more card adds its points to the hard total and, if it is an ace, one
/// to the number of aces.
pub proof fn lemma_push_card(cards: Seq<Card>, card: Card)
    ensures
        hard_total(cards.push(card)) == hard_total(cards) + card.points(),
        ace_count(cards.push(card)) == ace_count(cards) + one_if(card == Card::Ace),
{
    assert(cards.push(card).drop_last() =~= cards);
}

/// Every card is worth between one and ten points, and an ace is a card.
pub proof fn lemma_total_bounds(cards: Seq<Card>)
    ensures
        ace_count(cards) <= cards.len() <= hard_total(cards) <= 10 * cards.len(),
        hard_total(cards) <= hand_value(cards) <= hard_total(cards) + 10,
    decreases cards.len(),
{
    if cards.len() > 0 {
        lemma_total_bounds(cards.drop_last());
    }
}

/// The hard total of the first `k` cards is at most that of all.
pub proof fn lemma_prefix_total(cards: Seq<Card>, k: int)
    requires
        0 <= k <= cards.len(),
    ensures
        hard_total(cards.take(k)) <= hard_total(cards),
        ace_count(cards.take(k)) <= ace_count(cards),
    decreases cards.len() - k,
{
    if k < cards.len() {
        lemma_prefix_total(cards.drop_last(), k);
        assert(cards.drop_last().take(k) =~= cards.take(k));
    } else {
        assert(cards.take(k) =~= cards);
    }
}

/// A hand without aces is worth the plain sum of its cards' points.
pub proof fn lemma_value_without_aces(cards: Seq<Card>)
    requires
        ace_count(cards) == 0,
    ensures
        hand_value(cards) == hard_total(cards),
{
}

/// The value is the best total the hand allows: it counts some of the aces
/// as eleven, stays at or under 21 whenever the hard total does, and no
/// other choice of aces gives a higher total that is not a bust. When even
/// the hard total is a bust, the value is the hard total.
pub proof fn lemma_value_is_best_total(cards: Seq<Card>, elevens: nat)
    requires
        elevens <= ace_count(cards),
    ensures
        aces_as_eleven(cards) <= ace_count(cards),
        hard_total(cards) <= 21 ==> hand_value(cards) <= 21,
        total_with(cards, elevens) <= 21 ==> total_with(cards, elevens) <= hand_value(cards),
        hard_total(cards) > 21 ==> hand_value(cards) == hard_total(cards),
{
}

impl Hand {
    /// An empty hand.
    pub fn new() -> (hand: Hand)
        ensures
            hand@ == Seq::<Card>::empty(),
    {
        Hand(Vec::with_capacity(2))
    }

    /// The value of the hand, or `u8::MAX` for a hand worth more than that.
    pub fn value(&self) -> (v: u8)
        ensures
            v == (if hand_value(self@) <= u8::MAX {
                hand_value(self@)
            } else {
                u8::MAX as nat
            }),
            ace_count(self@) == 0 && hard_total(self@) <= u8::MAX ==> v == hard_total(self@),
    {
        let mut value_sum: u8 = 0;
        let mut aces: u8 = 0;
        let mut i: usize = 0;
        proof {
            lemma_total_bounds(self@);
        }
        while i < self.0.len()
            invariant
                i <= self.0.len(),
                value_sum == hard_total(self@.take(i as int)),
                aces == ace_count(self@.take(i as int)),
                aces <= value_sum,
            decreases self.0.len() - i,
        {
            let card = self.0[i];
            proof {
                lemma_push_card(self@.take(i as int), card);
                assert(self@.take(i as int).push(card) =~= self@.take(i + 1));
                lemma_prefix_total(self@, i + 1);
            }
            if value_sum > u8::MAX - card.value() {
                return u8::MAX;
            }
            value_sum = value_sum + card.value();
            if card == Card::Ace {
                aces = aces + 1;
            }
            i = i + 1;
        }
        assert(self@.take(i as int) =~= self@);
        if value_sum > 21 {
            return value_sum;
        }
        let room: u8 = 21 - value_sum;
        let fitting: u8 = room / 10;
        let elevens: u8 = if aces < fitting {
            aces
        } else {
            fitting
        };
        elevens * 10 + value_sum
    }
}

} // verus!
