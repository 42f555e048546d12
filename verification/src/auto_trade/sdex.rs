//! Execution of a trade on a signal against the liquidity of the exchange.

use vstd::prelude::*;
use crate::auto_trade::errors::AutoTradeError;
use crate::common::Address;
use crate::keyed_map::{Key, KeyedMap};

verus! {

// ==========================
// Types
// ==========================
/// How an order is executed: at once against the liquidity on offer, or only
/// at the price of the signal or a better one.
#[derive(Clone, Copy, Debug, PartialEq, Eq, Structural)]
pub enum OrderType {
    Market,
    Limit,
}

/// A signal to trade on: a price that holds until the signal expires.
#[derive(Clone, Copy, Debug, PartialEq, Eq, Structural)]
pub struct Signal {
    pub signal_id: u64,
    pub price: i128,
    pub expiry: u64,
    pub base_asset: u32,
}

/// The record of a trade that was executed, in full, in part or not at all.
#[derive(Debug, PartialEq)]
pub struct Trade {
    pub signal_id: u64,
    pub user: Address,
    pub amount: i128,
    pub executed_price: i128,
    pub timestamp: u64,
    pub status: TradeStatus,
}

impl Clone for Trade {
    fn clone(&self) -> (copy: Trade)
        ensures
            copy == *self,
    {
        Trade {
            signal_id: self.signal_id,
            user: self.user.clone(),
            amount: self.amount,
            executed_price: self.executed_price,
            timestamp: self.timestamp,
            status: self.status,
        }
    }
}

/// How far an order was filled.
#[derive(Clone, Copy, Debug, PartialEq, Eq, Structural)]
pub enum TradeStatus {
    FullFill,
    PartialFill,
    NotFilled,
}

/// What the execution of a trade came to.
#[derive(Clone, Copy, Debug, PartialEq, Eq, Structural)]
pub struct ExecutionResult {
    pub executed_amount: i128,
    pub executed_price: i128,
}

/// What the exchange shows for a signal at the time of a trade: the liquidity
/// on offer and the market price, each where one is quoted.
#[derive(Clone, Copy, Debug, PartialEq, Eq, Structural)]
pub struct MarketQuote {
    pub available_liquidity: Option<i128>,
    pub market_price: Option<i128>,
}

/// A trade as a mathematical value.
pub struct TradeModel {
    pub signal_id: u64,
    pub user: Seq<char>,
    pub amount: i128,
    pub executed_price: i128,
    pub timestamp: u64,
    pub status: TradeStatus,
}

impl View for Trade {
    type V = TradeModel;

    open spec fn view(&self) -> TradeModel {
        TradeModel {
            signal_id: self.signal_id,
            user: self.user@,
            amount: self.amount,
            executed_price: self.executed_price,
            timestamp: self.timestamp,
            status: self.status,
        }
    }
}

/// The key of a trade: the user and the signal that the trade follows.
#[derive(Debug)]
pub struct TradeKey {
    pub user: Address,
    pub signal_id: u64,
}

impl Clone for TradeKey {
    fn clone(&self) -> (copy: TradeKey)
        ensures
            copy == *self,
    {
        TradeKey { user: self.user.clone(), signal_id: self.signal_id }
    }
}

impl Key for TradeKey {
    type Id = (Seq<char>, u64);

    open spec fn id(&self) -> (Seq<char>, u64) {
        (self.user@, self.signal_id)
    }

    fn same(&self, other: &TradeKey) -> (same: bool) {
        self.user.equals(&other.user) && self.signal_id == other.signal_id
    }
}

// ==========================
// Storage Keys
// ==========================
/// The trades on record, by user and signal.
pub type TradeMap = KeyedMap<TradeKey, Trade>;

/// The balance of each user.
pub type BalanceMap = KeyedMap<Address, i128>;

/// The users that are authorized to trade.
pub type AuthMap = KeyedMap<Address, bool>;

/// The balance of `user`: 0 where none is recorded.
pub open spec fn balance_of(balances: Map<Seq<char>, i128>, user: Seq<char>) -> i128 {
    if balances.contains_key(user) {
        balances[user]
    } else {
        0
    }
}

/// Whether `user` is authorized: only where that is recorded.
pub open spec fn authorized(authorizations: Map<Seq<char>, bool>, user: Seq<char>) -> bool {
    authorizations.contains_key(user) && authorizations[user]
}

/// The amount that is executed. A market order takes what liquidity there
/// is, up to the amount asked for; where no liquidity is quoted, all of the
/// amount is on offer. A limit order is executed in full unless the market
/// price, where one is quoted, lies above the price of the signal.
pub open spec fn amount_executed(
    order_type: OrderType,
    amount: i128,
    signal_price: i128,
    quote: MarketQuote,
) -> i128 {
    match order_type {
        OrderType::Market => {
            let available = match quote.available_liquidity {
                Some(liquidity) => liquidity,
                None => amount,
            };
            if amount <= available {
                amount
            } else {
                available
            }
        },
        OrderType::Limit => {
            let market_price = match quote.market_price {
                Some(price) => price,
                None => signal_price,
            };
            if market_price > signal_price {
                0
            } else {
                amount
            }
        },
    }
}

/// How far an order of `amount` was filled by `executed`.
pub open spec fn fill_status(executed: i128, amount: i128) -> TradeStatus {
    if executed == 0 {
        TradeStatus::NotFilled
    } else if executed < amount {
        TradeStatus::PartialFill
    } else {
        TradeStatus::FullFill
    }
}

/// Why a trade is refused, if it is: an expired signal comes first, then a
/// user who is not authorized, then a balance below the amount.
pub open spec fn refusal(
    now: u64,
    user: Seq<char>,
    signal: Signal,
    amount: i128,
    balances: Map<Seq<char>, i128>,
    authorizations: Map<Seq<char>, bool>,
) -> Option<AutoTradeError> {
    if now >= signal.expiry {
        Some(AutoTradeError::SignalExpired)
    } else if !authorized(authorizations, user) {
        Some(AutoTradeError::Unauthorized)
    } else if balance_of(balances, user) < amount {
        Some(AutoTradeError::InsufficientBalance)
    } else {
        None
    }
}

// ==========================
// Authorization & Balance
// ==========================
/// Whether the balance of `user` covers `amount`.
pub fn has_sufficient_balance(balance_map: &BalanceMap, user: &Address, amount: i128) -> (r: bool)
    ensures
        r == (balance_of(balance_map@, user@) >= amount),
{
    balance(balance_map, user) >= amount
}

/// Whether `user` is authorized to trade.
pub fn is_authorized(auth_map: &AuthMap, user: &Address) -> (r: bool)
    ensures
        r == authorized(auth_map@, user@),
{
    match auth_map.get(user) {
        Some(flag) => *flag,
        None => false,
    }
}

/// The balance of `user`: 0 where none is recorded.
fn balance(balance_map: &BalanceMap, user: &Address) -> (r: i128)
    ensures
        r == balance_of(balance_map@, user@),
{
    match balance_map.get(user) {
        Some(amount) => *amount,
        None => 0,
    }
}

/// The amount that is executed of an order of `amount` on a signal at
/// `signal_price`, given what the exchange quotes.
pub fn executed_amount(
    order_type: OrderType,
    amount: i128,
    signal_price: i128,
    quote: MarketQuote,
) -> (executed: i128)
    ensures
        executed == amount_executed(order_type, amount, signal_price, quote),
{
    match order_type {
        OrderType::Market => {
            // where no liquidity is quoted, the full requested amount is available
            let available_liquidity: i128 = match quote.available_liquidity {
                Some(liquidity) => liquidity,
                None => amount,
            };
            if amount <= available_liquidity {
                amount
            } else {
                available_liquidity
            }
        },
        OrderType::Limit => {
            let market_price: i128 = match quote.market_price {
                Some(price) => price,
                None => signal_price,
            };
            if market_price > signal_price {
                0
            } else {
                amount
            }
        },
    }
}

// ==========================
// Core Trade Execution
// ==========================
/// Executes a trade of `amount` on `signal` for `user` at time `now`.
///
/// The trade is refused, and nothing is changed, where the signal has
/// expired, the user is not authorized or the balance of the user is below
/// `amount`. Otherwise the executed amount is taken from the balance, the
/// trade is recorded under the user and the signal, and the executed amount
/// comes back with the price of the signal.
///
/// The balance that is left must be in the range of the integers: an executed
/// amount below zero must not lift the balance beyond it.
pub fn execute_trade(
    now: u64,
    quote: MarketQuote,
    user: &Address,
    signal: &Signal,
    order_type: OrderType,
    amount: i128,
    balance_map: &mut BalanceMap,
    auth_map: &AuthMap,
    trade_map: &mut TradeMap,
) -> (r: Result<ExecutionResult, AutoTradeError>)
    requires
        refusal(now, user@, *signal, amount, old(balance_map)@, auth_map@) is None ==> balance_of(
            old(balance_map)@,
            user@,
        ) - amount_executed(order_type, amount, signal.price, quote) <= i128::MAX,
    ensures
        match refusal(now, user@, *signal, amount, old(balance_map)@, auth_map@) {
            Some(e) => {
                &&& r == Err::<ExecutionResult, AutoTradeError>(e)
                &&& final(balance_map)@ == old(balance_map)@
                &&& final(trade_map)@ == old(trade_map)@
            },
            None => {
                let executed = amount_executed(order_type, amount, signal.price, quote);
                &&& r == Ok::<ExecutionResult, AutoTradeError>(
                    ExecutionResult { executed_amount: executed, executed_price: signal.price },
                )
                &&& final(balance_map)@ == old(balance_map)@.insert(
                    user@,
                    (balance_of(old(balance_map)@, user@) - executed) as i128,
                )
                &&& final(trade_map)@.dom() == old(trade_map)@.dom().insert(
                    (user@, signal.signal_id),
                )
                &&& final(trade_map)@[(user@, signal.signal_id)]@ == (TradeModel {
                    signal_id: signal.signal_id,
                    user: user@,
                    amount: executed,
                    executed_price: signal.price,
                    timestamp: now,
                    status: fill_status(executed, amount),
                })
                &&& forall|key: (Seq<char>, u64)|
                    key != (user@, signal.signal_id) && old(trade_map)@.contains_key(key)
                        ==> final(trade_map)@[key] == old(trade_map)@[key]
            },
        },
{
    // --------------------------
    // 1. Signal expiry check
    // --------------------------
    if now >= signal.expiry {
        return Err(AutoTradeError::SignalExpired);
    }
    // --------------------------
    // 2. Authorization check
    // --------------------------

    if !is_authorized(auth_map, user) {
        return Err(AutoTradeError::Unauthorized);
    }
    // --------------------------
    // 3. Balance check
    // --------------------------

    if !has_sufficient_balance(balance_map, user, amount) {
        return Err(AutoTradeError::InsufficientBalance);
    }
    // --------------------------
    // 4. Liquidity of the exchange
    // --------------------------

    let executed_amount = executed_amount(order_type, amount, signal.price, quote);

    let status = if executed_amount == 0 {
        TradeStatus::NotFilled
    } else if executed_amount < amount {
        TradeStatus::PartialFill
    } else {
        TradeStatus::FullFill
    };

    // --------------------------
    // 5. Deduct user balance
    // --------------------------
    let user_balance = balance(balance_map, user);
    balance_map.insert(user.clone(), user_balance - executed_amount);

    // --------------------------
    // 6. Store executed trade
    // --------------------------
    let ghost trades = trade_map@;
    trade_map.insert(
        TradeKey { user: user.clone(), signal_id: signal.signal_id },
        Trade {
            signal_id: signal.signal_id,
            user: user.clone(),
            amount: executed_amount,
            executed_price: signal.price,
            timestamp: now,
            status,
        },
    );
    assert(trade_map@.dom() =~= trades.dom().insert((user@, signal.signal_id)));

    // --------------------------
    // 7. Return execution result
    // --------------------------
    Ok(ExecutionResult { executed_amount, executed_price: signal.price })
}

} // verus!
