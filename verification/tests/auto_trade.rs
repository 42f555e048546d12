use stellar_swipe::auto_trade::errors::AutoTradeError;
use stellar_swipe::auto_trade::sdex::{
    execute_trade, has_sufficient_balance, is_authorized, AuthMap, BalanceMap, ExecutionResult,
    MarketQuote, OrderType, Signal, TradeKey, TradeMap, TradeStatus,
};
use stellar_swipe::common::Address;

const NOW: u64 = 1_000;

fn setup_signal(id: u64) -> Signal {
    Signal { signal_id: id, price: 100, expiry: NOW + 1_000, base_asset: 1 }
}

fn test_user(n: u8) -> Address {
    Address { strkey: format!("GUSER{}", n) }
}

fn no_quote() -> MarketQuote {
    MarketQuote { available_liquidity: None, market_price: None }
}

fn key(user: &Address, signal_id: u64) -> TradeKey {
    TradeKey { user: user.clone(), signal_id }
}

#[test]
fn market_order_full_fill() {
    let user = test_user(1);
    let mut balance_map: BalanceMap = BalanceMap::new();
    let mut auth_map: AuthMap = AuthMap::new();
    let mut trade_map: TradeMap = TradeMap::new();

    balance_map.insert(user.clone(), 500);
    auth_map.insert(user.clone(), true);

    let signal = setup_signal(1);

    let res = execute_trade(
        NOW,
        no_quote(),
        &user,
        &signal,
        OrderType::Market,
        400,
        &mut balance_map,
        &auth_map,
        &mut trade_map,
    )
    .unwrap();

    assert_eq!(res.executed_amount, 400);
    assert_eq!(res.executed_price, 100);

    let trade = trade_map.get(&key(&user, 1)).unwrap();
    assert_eq!(trade.status, TradeStatus::FullFill);
    assert_eq!(trade.amount, 400);
    assert_eq!(trade.timestamp, NOW);
    assert_eq!(trade.user, user);
    assert_eq!(balance_map.get(&user), Some(&100));
}

#[test]
fn market_order_partial_fill() {
    let user = test_user(2);
    let mut balance_map: BalanceMap = BalanceMap::new();
    let mut auth_map: AuthMap = AuthMap::new();
    let mut trade_map: TradeMap = TradeMap::new();

    balance_map.insert(user.clone(), 300);
    auth_map.insert(user.clone(), true);

    let signal = setup_signal(2);

    // 100 of the 300 asked for are on offer
    let quote = MarketQuote { available_liquidity: Some(100), market_price: None };
    let res = execute_trade(
        NOW,
        quote,
        &user,
        &signal,
        OrderType::Market,
        300,
        &mut balance_map,
        &auth_map,
        &mut trade_map,
    )
    .unwrap();

    assert_eq!(res.executed_amount, 100);
    assert_eq!(res.executed_price, 100);

    let trade = trade_map.get(&key(&user, 2)).unwrap();
    assert_eq!(trade.status, TradeStatus::PartialFill);
    assert_eq!(balance_map.get(&user), Some(&200));
}

#[test]
fn limit_order_not_filled() {
    let user = test_user(3);
    let mut balance_map: BalanceMap = BalanceMap::new();
    let mut auth_map: AuthMap = AuthMap::new();
    let mut trade_map: TradeMap = TradeMap::new();

    balance_map.insert(user.clone(), 200);
    auth_map.insert(user.clone(), true);

    let signal = setup_signal(3);
    // Market price higher than signal price
    let quote = MarketQuote { available_liquidity: None, market_price: Some(150) };

    let res = execute_trade(
        NOW,
        quote,
        &user,
        &signal,
        OrderType::Limit,
        200,
        &mut balance_map,
        &auth_map,
        &mut trade_map,
    )
    .unwrap();

    assert_eq!(res.executed_amount, 0);
    assert_eq!(res.executed_price, 100);

    let trade = trade_map.get(&key(&user, 3)).unwrap();
    assert_eq!(trade.status, TradeStatus::NotFilled);
    assert_eq!(balance_map.get(&user), Some(&200));
}

#[test]
fn expired_signal_rejected() {
    let user = test_user(4);
    let mut balance_map: BalanceMap = BalanceMap::new();
    let mut auth_map: AuthMap = AuthMap::new();
    let mut trade_map: TradeMap = TradeMap::new();

    balance_map.insert(user.clone(), 100);
    auth_map.insert(user.clone(), true);

    let signal = Signal {
        signal_id: 4,
        price: 100,
        expiry: NOW - 1, // expired
        base_asset: 1,
    };

    let err = execute_trade(
        NOW,
        no_quote(),
        &user,
        &signal,
        OrderType::Market,
        100,
        &mut balance_map,
        &auth_map,
        &mut trade_map,
    )
    .unwrap_err();

    assert_eq!(err, AutoTradeError::SignalExpired);
    assert_eq!(balance_map.get(&user), Some(&100));
    assert!(trade_map.get(&key(&user, 4)).is_none());
}

#[test]
fn signal_expires_at_its_expiry() {
    let user = test_user(5);
    let mut balance_map = BalanceMap::new();
    let mut auth_map = AuthMap::new();
    let mut trade_map = TradeMap::new();
    balance_map.insert(user.clone(), 100);
    auth_map.insert(user.clone(), true);
    let signal = Signal { signal_id: 5, price: 100, expiry: NOW, base_asset: 1 };
    let result = execute_trade(
        NOW,
        no_quote(),
        &user,
        &signal,
        OrderType::Market,
        100,
        &mut balance_map,
        &auth_map,
        &mut trade_map,
    );
    assert_eq!(result, Err(AutoTradeError::SignalExpired));
    let result = execute_trade(
        NOW - 1,
        no_quote(),
        &user,
        &signal,
        OrderType::Market,
        100,
        &mut balance_map,
        &auth_map,
        &mut trade_map,
    );
    assert_eq!(result, Ok(ExecutionResult { executed_amount: 100, executed_price: 100 }));
}

#[test]
fn unauthorized_user_is_refused_before_the_balance_is_looked_at() {
    let user = test_user(6);
    let mut balance_map = BalanceMap::new();
    let mut auth_map = AuthMap::new();
    let mut trade_map = TradeMap::new();
    let signal = setup_signal(6);
    assert!(!is_authorized(&auth_map, &user));
    let result = execute_trade(
        NOW,
        no_quote(),
        &user,
        &signal,
        OrderType::Market,
        100,
        &mut balance_map,
        &auth_map,
        &mut trade_map,
    );
    assert_eq!(result, Err(AutoTradeError::Unauthorized));
    auth_map.insert(user.clone(), false);
    assert!(!is_authorized(&auth_map, &user));
    let result = execute_trade(
        NOW,
        no_quote(),
        &user,
        &signal,
        OrderType::Limit,
        100,
        &mut balance_map,
        &auth_map,
        &mut trade_map,
    );
    assert_eq!(result, Err(AutoTradeError::Unauthorized));
    auth_map.insert(user.clone(), true);
    assert!(is_authorized(&auth_map, &user));
    assert!(!is_authorized(&auth_map, &test_user(7)));
    let result = execute_trade(
        NOW,
        no_quote(),
        &user,
        &signal,
        OrderType::Limit,
        100,
        &mut balance_map,
        &auth_map,
        &mut trade_map,
    );
    assert_eq!(result, Err(AutoTradeError::InsufficientBalance));
    assert!(trade_map.get(&key(&user, 6)).is_none());
    assert!(balance_map.get(&user).is_none());
}

#[test]
fn balance_is_zero_where_none_is_recorded() {
    let user = test_user(8);
    let mut balance_map = BalanceMap::new();
    assert!(has_sufficient_balance(&balance_map, &user, 0));
    assert!(has_sufficient_balance(&balance_map, &user, -1));
    assert!(!has_sufficient_balance(&balance_map, &user, 1));
    balance_map.insert(user.clone(), 10);
    assert!(has_sufficient_balance(&balance_map, &user, 10));
    assert!(!has_sufficient_balance(&balance_map, &user, 11));
    assert!(!has_sufficient_balance(&balance_map, &test_user(9), 1));
}

#[test]
fn limit_order_is_filled_at_or_below_the_signal_price() {
    let user = test_user(10);
    let mut balance_map = BalanceMap::new();
    let mut auth_map = AuthMap::new();
    let mut trade_map = TradeMap::new();
    balance_map.insert(user.clone(), 1_000);
    auth_map.insert(user.clone(), true);
    let signal = setup_signal(10);
    // liquidity plays no part in a limit order
    let quote = MarketQuote { available_liquidity: Some(1), market_price: Some(100) };
    let result = execute_trade(
        NOW,
        quote,
        &user,
        &signal,
        OrderType::Limit,
        200,
        &mut balance_map,
        &auth_map,
        &mut trade_map,
    );
    assert_eq!(result, Ok(ExecutionResult { executed_amount: 200, executed_price: 100 }));
    assert_eq!(trade_map.get(&key(&user, 10)).unwrap().status, TradeStatus::FullFill);
    assert_eq!(balance_map.get(&user), Some(&800));
    let quote = MarketQuote { available_liquidity: Some(1), market_price: Some(101) };
    let result = execute_trade(
        NOW,
        quote,
        &user,
        &signal,
        OrderType::Limit,
        200,
        &mut balance_map,
        &auth_map,
        &mut trade_map,
    );
    assert_eq!(result, Ok(ExecutionResult { executed_amount: 0, executed_price: 100 }));
    // the later trade on the same signal replaces the earlier one
    assert_eq!(trade_map.get(&key(&user, 10)).unwrap().status, TradeStatus::NotFilled);
    assert_eq!(trade_map.len(), 1);
    assert_eq!(balance_map.get(&user), Some(&800));
}

#[test]
fn market_order_without_liquidity_is_not_filled() {
    let user = test_user(11);
    let mut balance_map = BalanceMap::new();
    let mut auth_map = AuthMap::new();
    let mut trade_map = TradeMap::new();
    balance_map.insert(user.clone(), 50);
    auth_map.insert(user.clone(), true);
    let quote = MarketQuote { available_liquidity: Some(0), market_price: Some(1) };
    let result = execute_trade(
        NOW,
        quote,
        &user,
        &setup_signal(11),
        OrderType::Market,
        50,
        &mut balance_map,
        &auth_map,
        &mut trade_map,
    );
    assert_eq!(result, Ok(ExecutionResult { executed_amount: 0, executed_price: 100 }));
    let trade = trade_map.get(&key(&user, 11)).unwrap();
    assert_eq!(trade.status, TradeStatus::NotFilled);
    assert_eq!(trade.executed_price, 100);
    assert_eq!(trade.signal_id, 11);
}
