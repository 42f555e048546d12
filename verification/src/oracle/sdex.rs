//! Prices read from the order book of the exchange.

use vstd::prelude::*;
use crate::oracle::conversion::div_toward_zero;
use crate::oracle::errors::OracleError;

verus! {

/// One level of an order book: a price and the amount on offer at it.
#[derive(Clone, Copy, Debug, PartialEq, Eq, Structural)]
pub struct OrderEntry {
    pub price: i128,
    pub amount: i128,
}

/// An order book: the bids and the asks, the best of each first.
#[derive(Debug)]
pub struct OrderBook {
    pub bids: Vec<OrderEntry>,
    pub asks: Vec<OrderEntry>,
}

/// The widest spread, in basis points of the best bid, at which a spot price
/// is given: 20%
pub const MAX_SPREAD: i128 = 2000;

/// Whether `x` is a value of the integers in which prices and amounts are
/// kept.
pub open spec fn fits(x: int) -> bool {
    i128::MIN <= x <= i128::MAX
}

/// The spread between the best bid and the best ask in basis points of the
/// best bid, rounded toward zero.
pub open spec fn spread(best_bid: i128, best_ask: i128) -> int {
    div_toward_zero((best_ask - best_bid) * 10000, best_bid as int)
}

/// Whether the spread and the mid-market price of the book can be formed: the
/// best bid is not 0, and no step of the arithmetic leaves the range of the
/// integers.
pub open spec fn spot_price_defined(bids: Seq<OrderEntry>, asks: Seq<OrderEntry>) -> bool {
    bids.len() > 0 && asks.len() > 0 ==> {
        let best_bid = bids[0].price;
        let best_ask = asks[0].price;
        &&& best_bid != 0
        &&& fits(best_ask - best_bid)
        &&& fits((best_ask - best_bid) * 10000)
        &&& !((best_ask - best_bid) * 10000 == i128::MIN && best_bid == -1)
        &&& spread(best_bid, best_ask) <= MAX_SPREAD ==> fits(best_bid + best_ask)
    }
}

/// The mid-market spot price of the book: the mean of the best bid and the
/// best ask, rounded toward zero, unless a side of the book is empty or the
/// spread is above 20% of the best bid.
pub open spec fn spot_price(bids: Seq<OrderEntry>, asks: Seq<OrderEntry>) -> Result<
    i128,
    OracleError,
> {
    if bids.len() == 0 || asks.len() == 0 {
        Err(OracleError::EmptyOrderBook)
    } else if spread(bids[0].price, asks[0].price) > MAX_SPREAD {
        Err(OracleError::WideSpreadDetected)
    } else {
        Ok(div_toward_zero(bids[0].price + asks[0].price, 2) as i128)
    }
}

/// What an order of which `remaining` is still to be filled takes from `ask`:
/// all that is on offer, or what remains if that is less.
pub open spec fn taken(remaining: i128, ask: OrderEntry) -> i128 {
    if remaining < ask.amount {
        remaining
    } else {
        ask.amount
    }
}

/// The outcome of an order of `trade_amount` once the asks have been walked:
/// the cost per unit, rounded toward zero, unless a part of it is unfilled.
pub open spec fn vwap_settled(trade_amount: i128, remaining: i128, total_cost: i128) -> Result<
    i128,
    OracleError,
> {
    if remaining > 0 {
        Err(OracleError::InsufficientLiquidity)
    } else {
        Ok(div_toward_zero(total_cost as int, trade_amount as int) as i128)
    }
}

/// The outcome of an order of `trade_amount` of which `remaining` is still to
/// be filled from the asks at position `i` and after, at a cost of
/// `total_cost` so far. The asks are taken in turn until nothing remains; a
/// cost that leaves the range of the integers ends the walk.
pub open spec fn vwap_from(
    asks: Seq<OrderEntry>,
    trade_amount: i128,
    i: int,
    remaining: i128,
    total_cost: i128,
) -> Result<i128, OracleError>
    decreases asks.len() - i,
{
    if i < 0 || i >= asks.len() {
        vwap_settled(trade_amount, remaining, total_cost)
    } else {
        let fill = taken(remaining, asks[i]);
        let cost = total_cost + fill * asks[i].price;
        if !fits(fill * asks[i].price) || !fits(cost) {
            Err(OracleError::Overflow)
        } else if remaining - fill == 0 {
            vwap_settled(trade_amount, 0, cost as i128)
        } else {
            vwap_from(asks, trade_amount, i + 1, (remaining - fill) as i128, cost as i128)
        }
    }
}

/// Whether the cost per unit can be formed once the asks have been walked:
/// where the order is filled, the trade amount is not 0 and the quotient is in
/// the range of the integers.
pub open spec fn vwap_settled_defined(
    trade_amount: i128,
    remaining: i128,
    total_cost: i128,
) -> bool {
    remaining <= 0 ==> trade_amount != 0 && !(total_cost == i128::MIN && trade_amount == -1)
}

/// Whether the walk over the asks at position `i` and after stays within the
/// range of the integers in what remains of the order, and ends in a cost per
/// unit that can be formed.
pub open spec fn vwap_defined_from(
    asks: Seq<OrderEntry>,
    trade_amount: i128,
    i: int,
    remaining: i128,
    total_cost: i128,
) -> bool
    decreases asks.len() - i,
{
    if i < 0 || i >= asks.len() {
        vwap_settled_defined(trade_amount, remaining, total_cost)
    } else {
        let fill = taken(remaining, asks[i]);
        let cost = total_cost + fill * asks[i].price;
        if !fits(fill * asks[i].price) || !fits(cost) {
            true
        } else if !fits(remaining - fill) {
            false
        } else if remaining - fill == 0 {
            vwap_settled_defined(trade_amount, 0, cost as i128)
        } else {
            vwap_defined_from(asks, trade_amount, i + 1, (remaining - fill) as i128, cost as i128)
        }
    }
}

/// The volume-weighted average price of an order of `trade_amount` against
/// `asks`.
pub open spec fn vwap(asks: Seq<OrderEntry>, trade_amount: i128) -> Result<i128, OracleError> {
    vwap_from(asks, trade_amount, 0, trade_amount, 0)
}

/// Whether the volume-weighted average price of an order of `trade_amount`
/// against `asks` can be formed.
pub open spec fn vwap_defined(asks: Seq<OrderEntry>, trade_amount: i128) -> bool {
    vwap_defined_from(asks, trade_amount, 0, trade_amount, 0)
}

/// The quotient by `d`, rounded toward zero, of a value in the range of the
/// integers is in that range, but for the least of them divided by -1.
pub proof fn lemma_quotient_in_range(x: int, d: int)
    requires
        d != 0,
        fits(x),
        !(x == i128::MIN && d == -1),
    ensures
        fits(div_toward_zero(x, d)),
{
    let a = if x >= 0 {
        x
    } else {
        -x
    };
    let q = a / d;
    let r = a % d;
    assert(a == d * q + r && 0 <= r && (d > 0 ==> r < d) && (d < 0 ==> r < -d)) by (nonlinear_arith)
        requires
            d != 0,
            q == a / d,
            r == a % d,
    ;
    if d == 1 || d == -1 {
        assert(q == a * d) by (nonlinear_arith)
            requires
                a == d * q + r,
                0 <= r < 1,
                d == 1 || d == -1,
        ;
    } else {
        assert(-a <= 2 * q <= a) by (nonlinear_arith)
            requires
                a == d * q + r,
                0 <= r,
                d > 0 ==> r < d,
                d < 0 ==> r < -d,
                d >= 2 || d <= -2,
                a >= 0,
        ;
    }
}

/// The walk over the asks can be made for an order of which nothing below
/// zero remains, where the trade amount is above zero and no ask offers an
/// amount below zero.
pub proof fn lemma_vwap_defined_from(
    asks: Seq<OrderEntry>,
    trade_amount: i128,
    i: int,
    remaining: i128,
    total_cost: i128,
)
    requires
        trade_amount > 0,
        remaining >= 0,
        forall|k: int| 0 <= k < asks.len() ==> (#[trigger] asks[k]).amount >= 0,
    ensures
        vwap_defined_from(asks, trade_amount, i, remaining, total_cost),
    decreases asks.len() - i,
{
    if 0 <= i < asks.len() {
        let fill = taken(remaining, asks[i]);
        let cost = total_cost + fill * asks[i].price;
        assert(asks[i].amount >= 0);
        if fits(fill * asks[i].price) && fits(cost) && remaining - fill != 0 {
            lemma_vwap_defined_from(
                asks,
                trade_amount,
                i + 1,
                (remaining - fill) as i128,
                cost as i128,
            );
        }
    }
}

/// The volume-weighted average price can be formed for every order of an
/// amount above zero against asks that offer no amount below zero.
pub proof fn lemma_vwap_defined(asks: Seq<OrderEntry>, trade_amount: i128)
    requires
        trade_amount > 0,
        forall|k: int| 0 <= k < asks.len() ==> (#[trigger] asks[k]).amount >= 0,
    ensures
        vwap_defined(asks, trade_amount),
{
    lemma_vwap_defined_from(asks, trade_amount, 0, trade_amount, 0);
}

/// Calculate Mid-Market Spot Price
///
/// The best bid of a book with both sides must not be 0, and the spread and
/// the sum of the best bid and the best ask must be in the range of the
/// integers.
pub fn calculate_spot_price(orderbook: OrderBook) -> (r: Result<i128, OracleError>)
    requires
        spot_price_defined(orderbook.bids@, orderbook.asks@),
    ensures
        r == spot_price(orderbook.bids@, orderbook.asks@),
{
    if orderbook.bids.len() == 0 || orderbook.asks.len() == 0 {
        return Err(OracleError::EmptyOrderBook);
    }
    let best_bid = orderbook.bids[0].price;
    let best_ask = orderbook.asks[0].price;

    // Spread Check
    proof {
        lemma_quotient_in_range((best_ask - best_bid) * 10000, best_bid as int);
    }
    let spread = (best_ask - best_bid) * 10000 / best_bid;  // Spread in basis points

    if spread > MAX_SPREAD {
        // 20%
        return Err(OracleError::WideSpreadDetected);
    }
    Ok((best_bid + best_ask) / 2)
}

/// Calculate Volume Weighted Average Price (VWAP)
///
/// What remains of the order must stay in the range of the integers while the
/// asks are walked, and the trade amount of an order that is filled must not
/// be 0: that is so for every trade amount above zero against asks that offer
/// no amount below zero.
pub fn calculate_vwap(orderbook: OrderBook, trade_amount: i128) -> (r: Result<i128, OracleError>)
    requires
        vwap_defined(orderbook.asks@, trade_amount),
    ensures
        r == vwap(orderbook.asks@, trade_amount),
{
    let mut remaining = trade_amount;
    let mut total_cost: i128 = 0;

    let mut i: usize = 0;
    while i < orderbook.asks.len()
        invariant
            i <= orderbook.asks.len(),
            vwap_defined_from(orderbook.asks@, trade_amount, i as int, remaining, total_cost),
            vwap(orderbook.asks@, trade_amount) == vwap_from(
                orderbook.asks@,
                trade_amount,
                i as int,
                remaining,
                total_cost,
            ),
        decreases orderbook.asks.len() - i,
    {
        let ask = orderbook.asks[i];
        let fill_amount = if remaining < ask.amount {
            remaining
        } else {
            ask.amount
        };

        let cost = match fill_amount.checked_mul(ask.price) {
            Some(cost) => cost,
            None => {
                return Err(OracleError::Overflow);
            },
        };
        total_cost = match total_cost.checked_add(cost) {
            Some(total) => total,
            None => {
                return Err(OracleError::Overflow);
            },
        };

        remaining -= fill_amount;
        if remaining == 0 {
            return settle(trade_amount, remaining, total_cost);
        }
        i += 1;
    }

    settle(trade_amount, remaining, total_cost)
}

/// The cost per unit of an order that has been filled.
fn settle(trade_amount: i128, remaining: i128, total_cost: i128) -> (r: Result<i128, OracleError>)
    requires
        vwap_settled_defined(trade_amount, remaining, total_cost),
    ensures
        r == vwap_settled(trade_amount, remaining, total_cost),
{
    if remaining > 0 {
        return Err(OracleError::InsufficientLiquidity);
    }
    Ok(total_cost / trade_amount)
}

} // verus!
