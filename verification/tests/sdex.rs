use stellar_swipe::oracle::errors::OracleError;
use stellar_swipe::oracle::sdex::{
    calculate_spot_price, calculate_vwap, OrderBook, OrderEntry, MAX_SPREAD,
};

fn entry(price: i128, amount: i128) -> OrderEntry {
    OrderEntry { price, amount }
}

fn book(bids: Vec<OrderEntry>, asks: Vec<OrderEntry>) -> OrderBook {
    OrderBook { bids, asks }
}

#[test]
fn spot_price_is_the_middle_of_the_best_bid_and_ask() {
    let orderbook = book(vec![entry(100, 5), entry(90, 7)], vec![entry(110, 3), entry(130, 9)]);
    assert_eq!(calculate_spot_price(orderbook), Ok(105));
    // rounded toward zero
    assert_eq!(calculate_spot_price(book(vec![entry(100, 1)], vec![entry(101, 1)])), Ok(100));
    assert_eq!(calculate_spot_price(book(vec![entry(-100, 1)], vec![entry(-101, 1)])), Ok(-100));
    // a crossed book has a spread below zero
    assert_eq!(calculate_spot_price(book(vec![entry(100, 1)], vec![entry(50, 1)])), Ok(75));
}

#[test]
fn spot_price_needs_both_sides_of_the_book() {
    assert_eq!(
        calculate_spot_price(book(vec![], vec![entry(110, 3)])),
        Err(OracleError::EmptyOrderBook)
    );
    assert_eq!(
        calculate_spot_price(book(vec![entry(100, 3)], vec![])),
        Err(OracleError::EmptyOrderBook)
    );
    assert_eq!(calculate_spot_price(book(vec![], vec![])), Err(OracleError::EmptyOrderBook));
}

#[test]
fn spread_above_twenty_percent_is_refused() {
    assert_eq!(MAX_SPREAD, 2000);
    // 20% exactly
    assert_eq!(calculate_spot_price(book(vec![entry(100, 1)], vec![entry(120, 1)])), Ok(110));
    // 20.009% rounds to 2000 basis points
    assert_eq!(
        calculate_spot_price(book(vec![entry(100_000, 1)], vec![entry(120_009, 1)])),
        Ok(110_004)
    );
    assert_eq!(
        calculate_spot_price(book(vec![entry(100_000, 1)], vec![entry(120_010, 1)])),
        Err(OracleError::WideSpreadDetected)
    );
    assert_eq!(
        calculate_spot_price(book(vec![entry(100, 1)], vec![entry(121, 1)])),
        Err(OracleError::WideSpreadDetected)
    );
    // against a bid below zero the spread of a higher ask is below zero
    assert_eq!(calculate_spot_price(book(vec![entry(-100, 1)], vec![entry(300, 1)])), Ok(100));
    assert_eq!(
        calculate_spot_price(book(vec![entry(-100, 1)], vec![entry(-200, 1)])),
        Err(OracleError::WideSpreadDetected)
    );
}

#[test]
fn vwap_walks_the_asks_from_the_best() {
    let asks = vec![entry(10, 5), entry(12, 10), entry(20, 100)];
    // 5 at 10 and 3 at 12: 86 for 8
    assert_eq!(calculate_vwap(book(vec![], asks.clone()), 8), Ok(10));
    // 5 at 10 and 10 at 12: 170 for 15
    assert_eq!(calculate_vwap(book(vec![], asks.clone()), 15), Ok(11));
    assert_eq!(calculate_vwap(book(vec![], asks.clone()), 5), Ok(10));
    assert_eq!(calculate_vwap(book(vec![], asks.clone()), 1), Ok(10));
    // 50 + 120 + 2000 for 115
    assert_eq!(calculate_vwap(book(vec![], asks.clone()), 115), Ok(18));
    // the bids play no part
    assert_eq!(calculate_vwap(book(vec![entry(1, 1)], asks), 15), Ok(11));
}

#[test]
fn vwap_needs_enough_liquidity() {
    let asks = vec![entry(10, 5), entry(12, 10)];
    assert_eq!(calculate_vwap(book(vec![], asks.clone()), 15), Ok(11));
    assert_eq!(
        calculate_vwap(book(vec![], asks), 16),
        Err(OracleError::InsufficientLiquidity)
    );
    assert_eq!(
        calculate_vwap(book(vec![], vec![]), 1),
        Err(OracleError::InsufficientLiquidity)
    );
    // an ask that offers nothing fills nothing
    assert_eq!(
        calculate_vwap(book(vec![], vec![entry(10, 0)]), 1),
        Err(OracleError::InsufficientLiquidity)
    );
}

#[test]
fn vwap_cost_that_does_not_fit_is_an_overflow() {
    assert_eq!(
        calculate_vwap(book(vec![], vec![entry(i128::MAX, 2)]), 2),
        Err(OracleError::Overflow)
    );
    assert_eq!(
        calculate_vwap(book(vec![], vec![entry(i128::MAX, 1), entry(1, 1)]), 2),
        Err(OracleError::Overflow)
    );
    // the overflow comes before the want of liquidity is seen
    assert_eq!(
        calculate_vwap(book(vec![], vec![entry(i128::MAX, 2)]), 3),
        Err(OracleError::Overflow)
    );
    assert_eq!(
        calculate_vwap(book(vec![], vec![entry(i128::MAX, 1), entry(-1, 1)]), 2),
        Ok((i128::MAX - 1) / 2)
    );
}
