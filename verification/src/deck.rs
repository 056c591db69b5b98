//! The deck: four copies of every rank in shuffled order, dealt from the
//! end, replaced by a fresh shuffle when it runs out, with a running count
//! of the cards dealt since the last shuffle.

use vstd::prelude::*;
use vstd::multiset::{
    lemma_insert_increases_count_by_1, lemma_insert_other_elements_unchanged, Multiset,
};
use vstd::seq_lib::{to_multiset_build, to_multiset_contains, to_multiset_len};
use crate::card::{lemma_rank_index, one_if, ranks, Card, CARDS_LIST};
use crate::hand::Hand;
use crate::shuffle::shuffle;

verus! {

/// How many times every rank occurs in a fresh deck.
pub const DECK_COPIES: usize = 4;

/// Number of cards in a fresh deck.
pub const DECK_SIZE: usize = 52;

/// The largest absolute value the running count of a deck in play can reach.
pub const COUNT_LIMIT: i32 = 20;

/// The cards still to be dealt, the next one last, and the running count of
/// the cards dealt since the last shuffle.
pub struct Deck {
    pub cards: Vec<Card>,
    pub running_count_value: i32,
}

/// A deck as a sequence of cards and an unbounded count.
pub struct DeckView {
    pub cards: Seq<Card>,
    pub running_count: int,
}

impl View for Deck {
    type V = DeckView;

    open spec fn view(&self) -> DeckView {
        DeckView { cards: self.cards@, running_count: self.running_count_value as int }
    }
}

/// A fresh deck before shuffling: the ranks in order, four times over.
pub open spec fn full_deck() -> Seq<Card> {
    ranks() + ranks() + ranks() + ranks()
}

/// The cards are those of a fresh deck, in any order.
pub open spec fn is_shuffled_deck(cards: Seq<Card>) -> bool {
    cards.to_multiset() =~= full_deck().to_multiset()
}

/// Sum of the cards' count signals.
pub open spec fn signal_sum(cards: Seq<Card>) -> int
    decreases cards.len(),
{
    if cards.len() == 0 {
        0
    } else {
        signal_sum(cards.drop_last()) + cards.last().signal()
    }
}

impl DeckView {
    /// A deck straight from the shuffle: all 52 cards, count zero.
    pub open spec fn is_fresh(self) -> bool {
        is_shuffled_deck(self.cards) && self.running_count == 0
    }

    /// The deck is what is left of a fresh deck after some deals: its cards
    /// are among those of a fresh deck, and the count is the signal sum of
    /// the cards that are gone.
    pub open spec fn wf(self) -> bool {
        &&& self.cards.to_multiset().subset_of(full_deck().to_multiset())
        &&& self.running_count + signal_sum(self.cards) == 0
    }

    /// The card that is dealt after `i` others, while the deck does not run
    /// out: the cards are dealt from the end.
    pub open spec fn from_top(self, i: int) -> Card {
        self.cards[self.cards.len() - 1 - i]
    }

    /// The count is at least `margin` away from both ends of `i32`.
    pub open spec fn count_within(self, margin: int) -> bool {
        i32::MIN + margin <= self.running_count <= i32::MAX - margin
    }

    /// Dealing the next card keeps the count inside `i32`. An empty deck is
    /// replaced before it deals, so it can always deal.
    pub open spec fn can_deal(self) -> bool {
        self.cards.len() > 0 ==> i32::MIN <= self.running_count + self.cards.last().signal()
            <= i32::MAX
    }
}

/// One deal takes the deck from `pre` to `post` and hands out `card`.
///
/// A deck with cards left gives its last card and adds the card's signal to
/// the count. An empty deck is first replaced by a fresh shuffle with count
/// zero, which then deals: `post` with `card` put back is a shuffled full
/// deck, and the count is the signal of `card` alone.
pub open spec fn deal_step(pre: DeckView, card: Card, post: DeckView) -> bool {
    if pre.cards.len() > 0 {
        &&& card == pre.cards.last()
        &&& post.cards == pre.cards.drop_last()
        &&& post.running_count == pre.running_count + card.signal()
    } else {
        &&& is_shuffled_deck(post.cards.push(card))
        &&& post.running_count == card.signal()
    }
}

/// Dealing `cards` one after the other, first to last, takes the deck from
/// `pre` to `post`.
pub open spec fn deals(pre: DeckView, cards: Seq<Card>, post: DeckView) -> bool
    decreases cards.len(),
{
    if cards.len() == 0 {
        post == pre
    } else {
        exists|mid: DeckView|
            deals(pre, cards.drop_last(), mid) && #[trigger] deal_step(mid, cards.last(), post)
    }
}

/// Appends every rank once, in the order of [`CARDS_LIST`].
fn push_ranks(cards: &mut Vec<Card>)
    ensures
        final(cards)@ == old(cards)@ + ranks(),
{
    let mut i: usize = 0;
    while i < CARDS_LIST.len()
        invariant
            i <= CARDS_LIST.len(),
            cards@ == old(cards)@ + ranks().take(i as int),
        decreases CARDS_LIST.len() - i,
    {
        cards.push(CARDS_LIST[i]);
        i += 1;
    }
}

impl Deck {
    /// A full deck in random order, with the running count at zero.
    pub fn new() -> (deck: Deck)
        ensures
            deck@.is_fresh(),
            deck@.wf(),
            deck@.cards.len() == DECK_SIZE,
    {
        let mut cards: Vec<Card> = Vec::with_capacity(DECK_SIZE);
        push_ranks(&mut cards);
        push_ranks(&mut cards);
        push_ranks(&mut cards);
        push_ranks(&mut cards);
        assert(cards@ =~= full_deck());
        let mut rng = rand::thread_rng();
        shuffle(&mut cards, &mut rng);
        proof {
            lemma_shuffled_deck_len(cards@);
            lemma_signals_balance(cards@);
        }
        Deck { cards, running_count_value: 0 }
    }

    /// Deals the next card into `hand` and returns it.
    ///
    /// The card is the last of the deck, and its signal is added to the
    /// running count. A deck that has run out is first replaced by a fresh
    /// shuffle, which resets the count to zero, and then deals.
    pub fn deal_card(&mut self, hand: &mut Hand) -> (card: Card)
        requires
            old(self)@.can_deal(),
        ensures
            deal_step(old(self)@, card, final(self)@),
            final(hand)@ == old(hand)@.push(card),
            final(self)@.cards.len() == (if old(self)@.cards.len() > 0 {
                old(self)@.cards.len() - 1
            } else {
                DECK_SIZE - 1
            }),
            old(self)@.wf() ==> final(self)@.wf(),
    {
        let ghost before = self@;
        let card = match self.cards.pop() {
            Some(card) => card,
            None => {
                *self = Deck::new();
                let ghost fresh = self@.cards;
                let card = self.cards.pop().unwrap();
                assert(self@.cards.push(card) =~= fresh);
                card
            },
        };
        self.running_count_value += card.running_count_value();
        hand.0.push(card);
        proof {
            if before.wf() {
                lemma_deal_step_wf(before, card, self@);
            }
        }
        card
    }
}

/// Number of low cards (`Two` to `Six`) in a collection of cards.
pub open spec fn low_cards(m: Multiset<Card>) -> nat {
    m.count(Card::Two) + m.count(Card::Three) + m.count(Card::Four) + m.count(Card::Five)
        + m.count(Card::Six)
}

/// Number of high cards (`Ten`, faces, `Ace`) in a collection of cards.
pub open spec fn high_cards(m: Multiset<Card>) -> nat {
    m.count(Card::Ten) + m.count(Card::Jack) + m.count(Card::Queen) + m.count(Card::King)
        + m.count(Card::Ace)
}

/// Number of cards from `Seven` to `Nine` in a collection of cards.
pub open spec fn middle_cards(m: Multiset<Card>) -> nat {
    m.count(Card::Seven) + m.count(Card::Eight) + m.count(Card::Nine)
}

/// One more card adds its signal to the sum.
pub proof fn lemma_signal_sum_push(cards: Seq<Card>, card: Card)
    ensures
        signal_sum(cards.push(card)) == signal_sum(cards) + card.signal(),
{
    assert(cards.push(card).drop_last() =~= cards);
}

/// One more card is counted once more under its own rank and as often as
/// before under every other.
pub proof fn lemma_push_count(cards: Seq<Card>, card: Card, rank: Card)
    ensures
        cards.push(card).to_multiset().count(rank) == cards.to_multiset().count(rank) + one_if(
            rank == card,
        ),
{
    to_multiset_build(cards, card);
    if rank == card {
        lemma_insert_increases_count_by_1(cards.to_multiset(), card);
    } else {
        lemma_insert_other_elements_unchanged(cards.to_multiset(), card, rank);
    }
}

/// One more card is one more low, middle or high card.
proof fn lemma_push_groups(cards: Seq<Card>, card: Card)
    ensures
        low_cards(cards.push(card).to_multiset()) == low_cards(cards.to_multiset()) + one_if(
            card.is_low(),
        ),
        high_cards(cards.push(card).to_multiset()) == high_cards(cards.to_multiset()) + one_if(
            card.is_high(),
        ),
        middle_cards(cards.push(card).to_multiset()) == middle_cards(cards.to_multiset()) + one_if(
            !card.is_low() && !card.is_high(),
        ),
{
    lemma_push_count(cards, card, Card::Two);
    lemma_push_count(cards, card, Card::Three);
    lemma_push_count(cards, card, Card::Four);
    lemma_push_count(cards, card, Card::Five);
    lemma_push_count(cards, card, Card::Six);
    lemma_push_count(cards, card, Card::Seven);
    lemma_push_count(cards, card, Card::Eight);
    lemma_push_count(cards, card, Card::Nine);
    lemma_push_count(cards, card, Card::Ten);
    lemma_push_count(cards, card, Card::Jack);
    lemma_push_count(cards, card, Card::Queen);
    lemma_push_count(cards, card, Card::King);
    lemma_push_count(cards, card, Card::Ace);
}

/// The signal sum counts the low cards and takes off the high cards, so it
/// depends on which cards there are and not on their order.
pub proof fn lemma_signal_sum_counts(cards: Seq<Card>)
    ensures
        signal_sum(cards) == low_cards(cards.to_multiset()) - high_cards(cards.to_multiset()),
        cards.len() == low_cards(cards.to_multiset()) + middle_cards(cards.to_multiset())
            + high_cards(cards.to_multiset()),
    decreases cards.len(),
{
    if cards.len() == 0 {
        lemma_no_cards_count(cards, Card::Two);
        lemma_no_cards_count(cards, Card::Three);
        lemma_no_cards_count(cards, Card::Four);
        lemma_no_cards_count(cards, Card::Five);
        lemma_no_cards_count(cards, Card::Six);
        lemma_no_cards_count(cards, Card::Seven);
        lemma_no_cards_count(cards, Card::Eight);
        lemma_no_cards_count(cards, Card::Nine);
        lemma_no_cards_count(cards, Card::Ten);
        lemma_no_cards_count(cards, Card::Jack);
        lemma_no_cards_count(cards, Card::Queen);
        lemma_no_cards_count(cards, Card::King);
        lemma_no_cards_count(cards, Card::Ace);
    } else {
        let rest = cards.drop_last();
        lemma_signal_sum_counts(rest);
        lemma_push_groups(rest, cards.last());
        assert(rest.push(cards.last()) =~= cards);
    }
}

/// No rank is counted among no cards.
proof fn lemma_no_cards_count(cards: Seq<Card>, rank: Card)
    requires
        cards.len() == 0,
    ensures
        cards.to_multiset().count(rank) == 0,
{
    to_multiset_contains(cards, rank);
}

/// Two rows of cards put together hold every rank as often as both do.
pub proof fn lemma_concat_count(first: Seq<Card>, second: Seq<Card>, rank: Card)
    ensures
        (first + second).to_multiset().count(rank) == first.to_multiset().count(rank)
            + second.to_multiset().count(rank),
    decreases second.len(),
{
    if second.len() == 0 {
        assert(first + second =~= first);
        lemma_no_cards_count(second, rank);
    } else {
        let rest = second.drop_last();
        lemma_concat_count(first, rest, rank);
        lemma_push_count(first + rest, second.last(), rank);
        lemma_push_count(rest, second.last(), rank);
        assert((first + rest).push(second.last()) =~= first + second);
        assert(rest.push(second.last()) =~= second);
    }
}

/// Among the first `n` ranks of the list, a rank occurs once if its index
/// is below `n`, and not at all otherwise.
proof fn lemma_ranks_prefix_count(n: int, rank: Card)
    requires
        0 <= n <= 13,
    ensures
        ranks().take(n).to_multiset().count(rank) == one_if(rank.index() < n),
    decreases n,
{
    lemma_rank_index(rank);
    if n == 0 {
        lemma_no_cards_count(ranks().take(0), rank);
    } else {
        let last = ranks()[n - 1];
        lemma_rank_index(last);
        lemma_ranks_prefix_count(n - 1, rank);
        lemma_push_count(ranks().take(n - 1), last, rank);
        assert(ranks().take(n - 1).push(last) =~= ranks().take(n));
        assert(last.index() == n - 1);
    }
}

/// Every rank occurs once among the ranks and four times in a full deck.
pub proof fn lemma_full_deck_counts(card: Card)
    ensures
        ranks().to_multiset().count(card) == 1,
        full_deck().to_multiset().count(card) == DECK_COPIES,
        ranks().len() == 13,
        full_deck().len() == DECK_SIZE,
{
    let r = ranks();
    lemma_rank_index(card);
    lemma_ranks_prefix_count(13, card);
    assert(r.take(13) =~= r);
    lemma_concat_count(r, r, card);
    lemma_concat_count(r + r, r, card);
    lemma_concat_count(r + r + r, r, card);
}

/// A shuffled deck has as many cards as a full deck.
pub proof fn lemma_shuffled_deck_len(cards: Seq<Card>)
    requires
        is_shuffled_deck(cards),
    ensures
        cards.len() == DECK_SIZE,
{
    to_multiset_len(cards);
    to_multiset_len(full_deck());
    lemma_full_deck_counts(Card::Two);
}

/// One card of each rank, in any order, leaves the running count where it
/// was: the signals of the thirteen ranks cancel. So do those of a whole
/// deck.
pub proof fn lemma_signals_balance(cards: Seq<Card>)
    requires
        cards.to_multiset() =~= ranks().to_multiset() || is_shuffled_deck(cards),
    ensures
        signal_sum(cards) == 0,
{
    lemma_signal_sum_counts(cards);
    lemma_full_deck_counts(Card::Two);
    lemma_full_deck_counts(Card::Three);
    lemma_full_deck_counts(Card::Four);
    lemma_full_deck_counts(Card::Five);
    lemma_full_deck_counts(Card::Six);
    lemma_full_deck_counts(Card::Ten);
    lemma_full_deck_counts(Card::Jack);
    lemma_full_deck_counts(Card::Queen);
    lemma_full_deck_counts(Card::King);
    lemma_full_deck_counts(Card::Ace);
}

/// Dealing one more card extends a run of deals.
pub proof fn lemma_deals_push(
    pre: DeckView,
    cards: Seq<Card>,
    mid: DeckView,
    card: Card,
    post: DeckView,
)
    requires
        deals(pre, cards, mid),
        deal_step(mid, card, post),
    ensures
        deals(pre, cards.push(card), post),
{
    let longer = cards.push(card);
    assert(longer.drop_last() =~= cards);
    assert(deals(pre, longer.drop_last(), mid) && deal_step(mid, longer.last(), post));
}

/// Two runs of deals, the second starting where the first ended, make one
/// run.
pub proof fn lemma_deals_concat(
    pre: DeckView,
    first: Seq<Card>,
    mid: DeckView,
    second: Seq<Card>,
    post: DeckView,
)
    requires
        deals(pre, first, mid),
        deals(mid, second, post),
    ensures
        deals(pre, first + second, post),
    decreases second.len(),
{
    if second.len() == 0 {
        assert(first + second =~= first);
    } else {
        let before = choose|before: DeckView|
            deals(mid, second.drop_last(), before) && #[trigger] deal_step(
                before,
                second.last(),
                post,
            );
        lemma_deals_concat(pre, first, mid, second.drop_last(), before);
        lemma_deals_push(pre, first + second.drop_last(), before, second.last(), post);
        assert((first + second.drop_last()).push(second.last()) =~= first + second);
    }
}

/// A run of deals can be cut in two at any point: the deck in between is
/// returned.
pub proof fn lemma_deals_split(
    pre: DeckView,
    first: Seq<Card>,
    second: Seq<Card>,
    post: DeckView,
) -> (mid: DeckView)
    requires
        deals(pre, first + second, post),
    ensures
        deals(pre, first, mid),
        deals(mid, second, post),
    decreases second.len(),
{
    let all = first + second;
    if second.len() == 0 {
        assert(all =~= first);
        post
    } else {
        let before = choose|before: DeckView|
            deals(pre, all.drop_last(), before) && #[trigger] deal_step(before, all.last(), post);
        assert(all.drop_last() =~= first + second.drop_last());
        let mid = lemma_deals_split(pre, first, second.drop_last(), before);
        lemma_deals_push(mid, second.drop_last(), before, second.last(), post);
        assert(second.drop_last().push(second.last()) =~= second);
        mid
    }
}

/// Every deal moves the count by at most one, or sets it to a single
/// signal, so a run of deals uses up at most its length of the margin.
pub proof fn lemma_deals_count_within(
    pre: DeckView,
    cards: Seq<Card>,
    post: DeckView,
    margin: int,
)
    requires
        deals(pre, cards, post),
        pre.count_within(margin),
        cards.len() <= margin < i32::MAX,
    ensures
        post.count_within(margin - cards.len()),
    decreases cards.len(),
{
    if cards.len() > 0 {
        let mid = choose|mid: DeckView|
            deals(pre, cards.drop_last(), mid) && #[trigger] deal_step(mid, cards.last(), post);
        lemma_deals_count_within(pre, cards.drop_last(), mid, margin);
    }
}

/// Until the deck runs out, a run of deals is determined by the deck: the
/// cards dealt are its last cards, the last one first. If it does not run
/// out at all, what is left are its first cards, and the count has moved by
/// the signal sum of the cards dealt.
pub proof fn lemma_deals_from_stock(pre: DeckView, cards: Seq<Card>, post: DeckView)
    requires
        deals(pre, cards, post),
    ensures
        forall|i: int|
            0 <= i < cards.len() && i < pre.cards.len() ==> #[trigger] cards[i] == pre.from_top(i),
        cards.len() <= pre.cards.len() ==> post.cards == pre.cards.take(
            pre.cards.len() - cards.len(),
        ),
        cards.len() <= pre.cards.len() ==> post.running_count == pre.running_count + signal_sum(
            cards,
        ),
    decreases cards.len(),
{
    if cards.len() == 0 {
        assert(pre.cards.take(pre.cards.len() as int) =~= pre.cards);
    } else {
        let mid = choose|mid: DeckView|
            deals(pre, cards.drop_last(), mid) && #[trigger] deal_step(mid, cards.last(), post);
        let earlier = cards.drop_last();
        lemma_deals_from_stock(pre, earlier, mid);
        if cards.len() <= pre.cards.len() {
            assert(post.cards =~= pre.cards.take(pre.cards.len() - cards.len()));
        }
        assert forall|i: int|
            0 <= i < cards.len() && i < pre.cards.len() implies #[trigger] cards[i] == pre.from_top(
            i,
        ) by {
            if i < earlier.len() {
                assert(earlier[i] == cards[i]);
            }
        }
    }
}

/// While the deck does not run out, the cards dealt decide the deck that is
/// left.
pub proof fn lemma_deals_same_cards(
    pre: DeckView,
    cards: Seq<Card>,
    post: DeckView,
    other: DeckView,
)
    requires
        deals(pre, cards, post),
        deals(pre, cards, other),
        cards.len() <= pre.cards.len(),
    ensures
        post == other,
{
    lemma_deals_from_stock(pre, cards, post);
    lemma_deals_from_stock(pre, cards, other);
}

/// Dealing one card of each rank from a deck that does not run out leaves
/// the running count where it was.
pub proof fn lemma_count_after_every_rank(pre: DeckView, cards: Seq<Card>, post: DeckView)
    requires
        deals(pre, cards, post),
        cards.len() <= pre.cards.len(),
        cards.to_multiset() =~= ranks().to_multiset(),
    ensures
        post.running_count == pre.running_count,
{
    lemma_deals_from_stock(pre, cards, post);
    lemma_signals_balance(cards);
}

/// Dealing the last card of a deck hands out that card and leaves the deck
/// empty, with the card's signal added to the count. The deal after that
/// replaces the deck: it leaves one card less than a fresh deck holds, and
/// the count is the signal of the card it dealt, whatever it was before.
pub proof fn lemma_last_card_then_fresh_deck(
    pre: DeckView,
    last: Card,
    emptied: DeckView,
    next: Card,
    post: DeckView,
)
    requires
        pre.cards.len() == 1,
        deal_step(pre, last, emptied),
        deal_step(emptied, next, post),
    ensures
        last == pre.cards[0],
        emptied.cards.len() == 0,
        emptied.running_count == pre.running_count + last.signal(),
        post.cards.len() == DECK_SIZE - 1,
        post.running_count == next.signal(),
        is_shuffled_deck(post.cards.push(next)),
{
    lemma_shuffled_deck_len(post.cards.push(next));
}

/// A deal keeps a well-formed deck well formed.
pub proof fn lemma_deal_step_wf(pre: DeckView, card: Card, post: DeckView)
    requires
        pre.wf(),
        deal_step(pre, card, post),
    ensures
        post.wf(),
{
    let after = post.cards.push(card);
    lemma_signal_sum_push(post.cards, card);
    assert forall|rank: Card|
        post.cards.to_multiset().count(rank) <= #[trigger] after.to_multiset().count(rank) by {
        lemma_push_count(post.cards, card, rank);
    }
    if pre.cards.len() > 0 {
        assert(after =~= pre.cards);
    } else {
        lemma_signals_balance(after);
    }
}

/// A run of deals keeps a well-formed deck well formed.
pub proof fn lemma_deals_wf(pre: DeckView, cards: Seq<Card>, post: DeckView)
    requires
        pre.wf(),
        deals(pre, cards, post),
    ensures
        post.wf(),
    decreases cards.len(),
{
    if cards.len() > 0 {
        let mid = choose|mid: DeckView|
            deals(pre, cards.drop_last(), mid) && #[trigger] deal_step(mid, cards.last(), post);
        lemma_deals_wf(pre, cards.drop_last(), mid);
        lemma_deal_step_wf(mid, cards.last(), post);
    }
}

/// A well-formed deck has a running count between -20 and 20: it holds at
/// most twenty low and twenty high cards, and the count is what they would
/// add up to if they were dealt, with the sign turned.
pub proof fn lemma_wf_count_bounds(deck: DeckView)
    requires
        deck.wf(),
    ensures
        -COUNT_LIMIT <= deck.running_count <= COUNT_LIMIT,
        deck.cards.len() <= DECK_SIZE,
{
    lemma_signal_sum_counts(deck.cards);
    lemma_full_deck_counts(Card::Two);
    lemma_full_deck_counts(Card::Three);
    lemma_full_deck_counts(Card::Four);
    lemma_full_deck_counts(Card::Five);
    lemma_full_deck_counts(Card::Six);
    lemma_full_deck_counts(Card::Ten);
    lemma_full_deck_counts(Card::Jack);
    lemma_full_deck_counts(Card::Queen);
    lemma_full_deck_counts(Card::King);
    lemma_full_deck_counts(Card::Ace);
    lemma_full_deck_counts(Card::Seven);
    lemma_full_deck_counts(Card::Eight);
    lemma_full_deck_counts(Card::Nine);
}

} // verus!
