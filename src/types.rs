use vstd::prelude::*;

verus! {

/// Why an operation was refused. Every refusal leaves the state as it was.
#[derive(Debug, Clone, Copy, PartialEq, Eq, Structural)]
pub enum MarketError {
    /// The market or the offer does not exist (or the offer was consumed).
    NotFound,
    /// The market is closed.
    AlreadyClosed,
    /// Only the market's owner may close it.
    Unauthorized,
    /// An offer needs a nonzero amount.
    ZeroAmount,
    /// The acceptor must attach exactly the offer's amount.
    AmountMismatch,
    /// An account cannot accept its own offer.
    SelfMatch,
    /// The offer refers to a market that does not exist.
    MarketGone,
    /// The caller has nothing to withdraw.
    NoBalance,
    /// A credit balance would exceed `u128::MAX`.
    Overflow,
}

/// One matched position: `long` and `short` each risked `amount`.
pub struct SharePair {
    pub long: String,
    pub short: String,
    pub amount: u128,
}

/// An open offer to take one side of a market, escrowing `amount`.
pub struct Offer {
    pub id: u32,
    pub market_id: u32,
    pub is_long: bool,
    pub account_id: String,
    pub amount: u128,
}

impl SharePair {
    /// The account that wins this pair when `winning_side` is the outcome
    /// (`true`: the long side).
    pub open spec fn winner(self, winning_side: bool) -> String {
        if winning_side { self.long } else { self.short }
    }

    /// A field-by-field copy.
    pub fn copy(&self) -> (r: SharePair)
        ensures
            r == *self,
    {
        SharePair { long: self.long.clone(), short: self.short.clone(), amount: self.amount }
    }
}

impl Offer {
    /// A field-by-field copy.
    pub fn copy(&self) -> (r: Offer)
        ensures
            r == *self,
    {
        Offer {
            id: self.id,
            market_id: self.market_id,
            is_long: self.is_long,
            account_id: self.account_id.clone(),
            amount: self.amount,
        }
    }
}

} // verus!
