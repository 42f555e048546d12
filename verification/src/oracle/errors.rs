//! Oracle error types

use vstd::prelude::*;

verus! {

/// Every way in which an oracle operation can fail.
#[derive(Copy, Clone, Debug, PartialEq, Eq, Structural)]
pub enum OracleError {
    /// No price is set for the pair.
    PriceNotFound,
    /// No route of pairs within the hop limit leads from the asset to the
    /// target.
    NoConversionPath,
    /// A conversion path is not well formed.
    InvalidPath,
    /// A product leaves the range of the integers: that of an amount and a
    /// price or rate, or that of the distance of a price from the average
    /// and the basis points of a whole.
    ConversionOverflow,
    /// The caller may not do what it asked for.
    Unauthorized,
    /// A price that is not above zero was given for a pair.
    InvalidAsset,
    /// The price is too old to be used.
    StalePrice,
    /// The oracle is not known.
    OracleNotFound,
    /// The time-weighted average price is zero, so that no deviation from it
    /// can be given.
    InvalidPrice,
    /// The oracle is known already.
    OracleAlreadyExists,
    /// Too few oracles have reported.
    InsufficientOracles,
    /// The reputation of the oracle is too low.
    LowReputation,
    /// No price is stored for the pair in the window.
    InsufficientHistoricalData,
    /// The price cannot be relied on.
    UnreliablePrice,
    /// A side of the order book is empty.
    EmptyOrderBook,
    /// The spread between the best bid and the best ask is too wide.
    WideSpreadDetected,
    /// The cost of an order leaves the range of the integers.
    Overflow,
    /// The asks do not cover the amount of the order.
    InsufficientLiquidity,
}

} // verus!
