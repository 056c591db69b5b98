//! The money ledger and the settlement of a seat against the dealer.

use vstd::prelude::*;
use crate::turn::Outcome;

verus! {

/// What was staked and what came back, over all seats and rounds so far.
pub struct Money {
    pub betted: i32,
    pub won: i32,
}

/// A ledger with unbounded amounts.
pub struct Ledger {
    pub betted: int,
    pub won: int,
}

impl View for Money {
    type V = Ledger;

    open spec fn view(&self) -> Ledger {
        Ledger { betted: self.betted as int, won: self.won as int }
    }
}

impl Ledger {
    /// The ledger before anything was staked.
    pub open spec fn empty() -> Ledger {
        Ledger { betted: 0, won: 0 }
    }

    /// The ledger after `staked` more was staked and `returned` came back.
    pub open spec fn plus(self, staked: int, returned: int) -> Ledger {
        Ledger { betted: self.betted + staked, won: self.won + returned }
    }

    /// The ledger has room for `seats` more settlements at the given bet,
    /// even if every one of them doubles down and wins.
    pub open spec fn has_room(self, bet: int, seats: int) -> bool {
        &&& self.betted + 4 * bet * seats <= i32::MAX
        &&& self.won + 8 * bet * seats <= i32::MAX
    }
}

/// The stake a seat puts at risk: twice the bet, and twice that again after
/// doubling down.
pub open spec fn stake_at_risk(bet: int, doubled_down: bool) -> int {
    if doubled_down {
        4 * bet
    } else {
        2 * bet
    }
}

/// What comes back to a seat that put `stake` at risk.
///
/// A blackjack pays one and a half times the stake, whatever the dealer
/// holds. A standing hand gets twice the stake if the dealer went bust or
/// stands on less, the stake itself if the dealer stands on the same value,
/// and nothing otherwise. A bust gets nothing.
pub open spec fn payout(outcome: Outcome, dealer_outcome: Outcome, stake: int) -> int {
    match (outcome, dealer_outcome) {
        (Outcome::Blackjack, _) => stake * 3 / 2,
        (Outcome::Standing(_), Outcome::Bust) => 2 * stake,
        (Outcome::Standing(value), Outcome::Standing(dealer_value)) => if value > dealer_value {
            2 * stake
        } else if value == dealer_value {
            stake
        } else {
            0
        },
        _ => 0,
    }
}

impl Money {
    /// What came back less what was staked.
    pub fn profit(&self) -> (profit: i32)
        requires
            i32::MIN <= self.won - self.betted <= i32::MAX,
        ensures
            profit == self.won - self.betted,
    {
        self.won - self.betted
    }

    /// Books one seat of one round: the stake it put at risk and what came
    /// back to it.
    pub fn settle(
        &mut self,
        bet: u8,
        outcome: Outcome,
        doubled_down: bool,
        dealer_outcome: Outcome,
    )
        requires
            old(self).betted + stake_at_risk(bet as int, doubled_down) <= i32::MAX,
            old(self).won + payout(
                outcome,
                dealer_outcome,
                stake_at_risk(bet as int, doubled_down),
            ) <= i32::MAX,
        ensures
            final(self)@ == old(self)@.plus(
                stake_at_risk(bet as int, doubled_down),
                payout(outcome, dealer_outcome, stake_at_risk(bet as int, doubled_down)),
            ),
    {
        let mut money_betted: i32 = (bet as i32) * 2;
        if doubled_down {
            money_betted *= 2;
        }
        self.betted += money_betted;
        match (outcome, dealer_outcome) {
            (Outcome::Blackjack, _) => {
                self.won += (money_betted * 3) / 2;
            },
            (Outcome::Standing(_), Outcome::Bust) => {
                self.won += money_betted * 2;
            },
            (Outcome::Standing(value), Outcome::Standing(dealer_value)) => {
                if value > dealer_value {
                    self.won += money_betted * 2;
                } else if value == dealer_value {
                    self.won += money_betted;
                }
            },
            _ => {},
        }
    }
}

} // verus!
