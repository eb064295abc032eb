//! A binary-outcome prediction market: markets, collateralised offers,
//! matched share pairs, settlement on closure and a credit ledger that
//! accounts withdraw from.
//!
//! Accounts are identified by their name (`String`); amounts are `u128`.
//! The host environment (caller identity, attached funds, transfers) is
//! not part of this crate: each operation takes the caller and the
//! attached amount as arguments and returns what is to be paid out.

pub mod contract;
pub mod credit;
pub mod market;
pub mod settlement;
pub mod types;

pub use contract::Contract;
pub use credit::CreditLedger;
pub use market::{Market, ViewMarket};
pub use types::{MarketError, Offer, SharePair};
