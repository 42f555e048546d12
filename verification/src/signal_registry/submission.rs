//! What a provider submits to the registry.

use vstd::prelude::*;
use crate::common::Address;

verus! {

/// Action enum for trading signals
#[derive(Clone, Copy, Debug, PartialEq, Eq, Structural)]
pub enum Action {
    Buy,
    Sell,
    Hold,
}

/// Structure to store a signal
#[derive(Debug)]
pub struct Signal {
    pub provider: Address,
    pub asset_pair: String,
    pub action: Action,
    pub price: i128,
    pub rationale: String,
    pub timestamp: u64,
    pub expiry: u64,
}

impl Clone for Signal {
    fn clone(&self) -> (copy: Signal)
        ensures
            copy == *self,
    {
        Signal {
            provider: self.provider.clone(),
            asset_pair: self.asset_pair.clone(),
            action: self.action,
            price: self.price,
            rationale: self.rationale.clone(),
            timestamp: self.timestamp,
            expiry: self.expiry,
        }
    }
}

/// Contract-level error enum
#[derive(Clone, Copy, Debug, PartialEq, Eq, Structural)]
pub enum Error {
    NoStake,
    BelowMinimumStake,
    InvalidAssetPair,
    InvalidPrice,
    EmptyRationale,
    DuplicateSignal,
}

} // verus!
