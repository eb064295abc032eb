use vstd::prelude::*;
use crate::types::SharePair;

verus! {

/// A binary market: its owner closes it, naming the winning side, and its
/// matched pairs are settled then.
pub struct Market {
    pub id: u32,
    pub is_open: bool,
    pub description: String,
    pub owner: String,
    pub shares: Vec<SharePair>,
}

/// What callers see of a market: everything but the pairs themselves, of
/// which only the number is shown.
pub struct ViewMarket {
    pub id: u32,
    pub is_open: bool,
    pub description: String,
    pub owner: String,
    pub shares: u32,
}

impl Market {
    /// The view of this market.
    pub open spec fn projection(&self) -> ViewMarket {
        ViewMarket {
            id: self.id,
            is_open: self.is_open,
            description: self.description,
            owner: self.owner,
            shares: self.shares@.len() as u32,
        }
    }
}

impl<'a> From<&'a Market> for ViewMarket {
    fn from(v: &'a Market) -> (r: ViewMarket) {
        ViewMarket {
            id: v.id,
            is_open: v.is_open,
            description: v.description.clone(),
            owner: v.owner.clone(),
            shares: v.shares.len() as u32,
        }
    }
}

impl<'a> vstd::std_specs::convert::FromSpecImpl<&'a Market> for ViewMarket {
    open spec fn obeys_from_spec() -> bool {
        true
    }

    open spec fn from_spec(v: &'a Market) -> ViewMarket {
        v.projection()
    }
}

} // verus!
