//! Validation scenarios for historical price storage and TWAP

use stellar_swipe::common::{Address, Asset, AssetPair};
use stellar_swipe::oracle::history::{
    calculate_twap, get_historical_price, get_twap_deviation, store_price, PriceHistory,
};

fn usdc_xlm_pair() -> AssetPair {
    AssetPair {
        base: Asset {
            code: "USDC".to_string(),
            issuer: Some(Address {
                strkey: "GA5ZSEJYB37JRC5AVCIA5MOP4RHTM335X2KGX3IHOJAPP5RE34K4KZVN".to_string(),
            }),
        },
        quote: Asset { code: "XLM".to_string(), issuer: None },
    }
}

/// Validation 1: Store price updates every 5 minutes for 1 day
#[test]
fn validation_store_prices_for_1_day() {
    let mut history = PriceHistory::new();
    let pair = usdc_xlm_pair();

    // Store prices every 5 minutes for 24 hours (288 data points)
    let mut stored_count = 0;
    let mut now = 0;
    for i in 0..288u64 {
        let timestamp = i * 300; // 5 minutes
        now = timestamp;

        // Simulate price fluctuation
        let price = 10_000_000 + ((i % 100) as i128 * 10_000);
        store_price(&mut history, &pair, price, now);
        stored_count += 1;
    }

    assert_eq!(stored_count, 288);

    // Verify data is retrievable
    let price_at_12h = get_historical_price(&history, &pair, 12 * 3600, now);
    assert!(price_at_12h.is_some());
    assert_eq!(price_at_12h, Some(10_000_000 + 44 * 10_000));
}

/// Validation 2: Calculate 24h TWAP and verify against manual calculation
#[test]
fn validation_24h_twap_accuracy() {
    let mut history = PriceHistory::new();
    let pair = usdc_xlm_pair();

    // Store known prices for manual verification
    let prices: Vec<i128> = vec![
        10_000_000, 10_100_000, 10_200_000, 10_300_000, 10_400_000, 10_500_000, 10_600_000,
        10_700_000,
    ];

    for (i, price) in prices.iter().enumerate() {
        // Every hour
        store_price(&mut history, &pair, *price, (i as u64) * 3600);
    }

    // Calculate TWAP at the end of the 24h period
    let twap = calculate_twap(&history, &pair, 86400, 86400).unwrap();

    // Manual calculation: (10_000_000 + 10_100_000 + ... + 10_700_000) / 8
    let manual_twap = prices.iter().sum::<i128>() / prices.len() as i128;

    assert_eq!(twap, manual_twap);
    assert_eq!(twap, 10_350_000);
}

/// Validation 3: Query historical price from 3 days ago
#[test]
fn validation_query_3_days_ago() {
    let mut history = PriceHistory::new();
    let pair = usdc_xlm_pair();

    // Store price 3 days ago
    let three_days_ago = 3 * 86400;
    store_price(&mut history, &pair, 10_000_000, three_days_ago);

    // Query 3 days ago from the present
    let historical_price = get_historical_price(&history, &pair, three_days_ago, 6 * 86400);
    assert_eq!(historical_price, Some(10_000_000));
}

/// Validation 4: Test data pruning after 7 days
#[test]
fn validation_data_pruning_7_days() {
    let mut history = PriceHistory::new();
    let pair = usdc_xlm_pair();

    // Store price at day 0
    store_price(&mut history, &pair, 10_000_000, 0);

    // Store prices once a day for 8 days
    for day in 1..=8u64 {
        store_price(&mut history, &pair, 10_000_000 + (day as i128 * 100_000), day * 86400);
    }
    let now = 8 * 86400;

    // The write of day 7 falls into bucket 2016 and evicts nothing; the write
    // of day 8 evicts the bucket of day 1. The bucket of day 0 stays.
    let day_0_price = get_historical_price(&history, &pair, 0, now);
    assert_eq!(day_0_price, Some(10_000_000), "Day 0 data is not within reach of an eviction");
    let day_1_price = get_historical_price(&history, &pair, 86400, now);
    assert_eq!(day_1_price, None, "Day 1 data should be pruned");

    // Data from day 2 should still exist
    let day_2_price = get_historical_price(&history, &pair, 2 * 86400, now);
    assert_eq!(day_2_price, Some(10_200_000), "Day 2 data should exist");

    // Data from day 8 should exist
    let day_8_price = get_historical_price(&history, &pair, 8 * 86400, now);
    assert_eq!(day_8_price, Some(10_800_000), "Day 8 data should exist");
}

/// Validation 5: Measure storage costs for 100 pairs
#[test]
fn validation_storage_costs_100_pairs() {
    let mut history = PriceHistory::new();

    // Create 100 different pairs
    let mut pairs = Vec::new();
    for i in 0..100 {
        let pair = AssetPair {
            base: Asset {
                code: format!("TOK{}", i),
                issuer: Some(Address { strkey: format!("GISSUER{}", i) }),
            },
            quote: Asset { code: "XLM".to_string(), issuer: None },
        };
        pairs.push(pair);
    }

    // Store 1 day of data for each pair (288 data points per pair)
    for pair in pairs.iter() {
        for i in 0..288u64 {
            store_price(&mut history, pair, 10_000_000, i * 300);
        }
    }

    // Verify all pairs have data
    for pair in pairs.iter() {
        let twap = calculate_twap(&history, pair, 86400, 86400);
        assert!(twap.is_ok(), "TWAP should be calculable for all pairs");
        assert_eq!(twap, Ok(10_000_000));
    }
}

/// Additional Validation: TWAP windows (1h, 24h, 7d)
#[test]
fn validation_all_twap_windows() {
    let mut history = PriceHistory::new();
    let pair = usdc_xlm_pair();

    // Store prices for 7 days
    for i in 0..(7 * 24 * 12) as u64 {
        // Every 5 minutes for 7 days
        store_price(&mut history, &pair, 10_000_000, i * 300);
    }

    let now = 7 * 86400;

    // Test 1h TWAP
    let twap_1h = calculate_twap(&history, &pair, 3600, now);
    assert!(twap_1h.is_ok(), "1h TWAP should succeed");

    // Test 24h TWAP
    let twap_24h = calculate_twap(&history, &pair, 86400, now);
    assert!(twap_24h.is_ok(), "24h TWAP should succeed");

    // Test 7d TWAP
    let twap_7d = calculate_twap(&history, &pair, 604800, now);
    assert!(twap_7d.is_ok(), "7d TWAP should succeed");

    // All should be equal since price is constant
    assert_eq!(twap_1h.unwrap(), 10_000_000);
    assert_eq!(twap_24h.unwrap(), 10_000_000);
    assert_eq!(twap_7d.unwrap(), 10_000_000);
}

/// Additional Validation: Manipulation detection
#[test]
fn validation_manipulation_detection() {
    let mut history = PriceHistory::new();
    let pair = usdc_xlm_pair();

    // Store stable prices for 1 hour
    for i in 0..12u64 {
        store_price(&mut history, &pair, 10_000_000, i * 300);
    }

    let now = 3600;

    // Test normal price (within 10%)
    let normal_deviation = get_twap_deviation(&history, &pair, 10_500_000, 3600, now).unwrap();
    assert!(normal_deviation <= 1000, "5% deviation should be acceptable");
    assert_eq!(normal_deviation, 500);

    // Test manipulated price (>10%)
    let manipulated_deviation =
        get_twap_deviation(&history, &pair, 11_500_000, 3600, now).unwrap();
    assert!(manipulated_deviation > 1000, "15% deviation indicates manipulation");
    assert_eq!(manipulated_deviation, 1500);
}

/// Additional Validation: Performance test
#[test]
fn validation_performance_requirements() {
    let mut history = PriceHistory::new();
    let pair = usdc_xlm_pair();

    // Store 24 hours of data
    for i in 0..288u64 {
        store_price(&mut history, &pair, 10_000_000, i * 300);
    }

    let now = 86400;

    // TWAP calculation should complete successfully
    let twap = calculate_twap(&history, &pair, 86400, now);
    assert!(twap.is_ok(), "24h TWAP should complete");

    // Historical query should complete successfully
    let historical = get_historical_price(&history, &pair, 43200, now); // 12 hours ago
    assert!(historical.is_some(), "Historical query should complete");
}
