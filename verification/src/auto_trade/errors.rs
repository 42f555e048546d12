//! Errors of trade execution

use vstd::prelude::*;

verus! {

/// Every way in which the execution of a trade can fail.
#[derive(Clone, Copy, Debug, PartialEq, Eq, Structural)]
pub enum AutoTradeError {
    /// The amount of the order cannot be traded.
    InvalidAmount,
    /// The user is not authorized to trade.
    Unauthorized,
    /// No signal is recorded under the identifier.
    SignalNotFound,
    /// The signal has expired.
    SignalExpired,
    /// The balance of the user is below the amount of the order.
    InsufficientBalance,
    /// The exchange offers too little liquidity.
    InsufficientLiquidity,
}

} // verus!
