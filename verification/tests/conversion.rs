use stellar_swipe::common::{Address, Asset, AssetPair};
use stellar_swipe::oracle::conversion::{
    apply_rate, convert_direct, convert_to_base, convert_via_path, find_conversion_path,
    get_available_pairs, neighbors, MAX_PATH_LENGTH, PRECISION,
};
use stellar_swipe::oracle::errors::OracleError;
use stellar_swipe::oracle::storage::{
    add_available_pair, set_base_currency, set_price, OracleStorage,
};

fn xlm() -> Asset {
    Asset { code: "XLM".to_string(), issuer: None }
}

fn usdc() -> Asset {
    token("USDC")
}

fn token(code: &str) -> Asset {
    Asset { code: code.to_string(), issuer: Some(Address { strkey: format!("GISSUEROF{}", code) }) }
}

fn pair(base: &Asset, quote: &Asset) -> AssetPair {
    AssetPair { base: base.clone(), quote: quote.clone() }
}

fn codes(assets: &[Asset]) -> Vec<String> {
    assets.iter().map(|asset| asset.code.clone()).collect()
}

/// Registers the pair from `base` to `quote` and sets its price.
fn quote_pair(storage: &mut OracleStorage, base: &Asset, quote: &Asset, price: i128) {
    set_price(storage, &pair(base, quote), price, 0);
    add_available_pair(storage, pair(base, quote));
}

#[test]
fn conversion_test_convert_same_asset() {
    let mut storage = OracleStorage::new();
    let xlm = xlm();
    set_base_currency(&mut storage, xlm.clone());

    let result = convert_to_base(&storage, 1000_0000000, xlm).unwrap();
    assert_eq!(result, 1000_0000000);
}

#[test]
fn test_direct_conversion() {
    let mut storage = OracleStorage::new();
    let xlm = xlm();
    let usdc = usdc();

    set_base_currency(&mut storage, xlm.clone());

    // 1 USDC = 10 XLM
    let pair = AssetPair { base: usdc.clone(), quote: xlm.clone() };
    set_price(&mut storage, &pair, 10 * PRECISION, 0);

    // Convert 100 USDC to XLM
    let result = convert_to_base(&storage, 100_0000000, usdc).unwrap();
    assert_eq!(result, 1000_0000000); // 100 * 10 = 1000 XLM
}

#[test]
fn base_amount_is_unchanged_for_any_amount() {
    let mut storage = OracleStorage::new();
    // the default base currency
    for amount in [0, 1, -1, 12345, i128::MAX, i128::MIN] {
        assert_eq!(convert_to_base(&storage, amount, xlm()), Ok(amount));
    }
    set_base_currency(&mut storage, usdc());
    // a price from the base currency to itself plays no part
    quote_pair(&mut storage, &usdc(), &usdc(), 3 * PRECISION);
    for amount in [0, 1, -1, 12345, i128::MAX, i128::MIN] {
        assert_eq!(convert_to_base(&storage, amount, usdc()), Ok(amount));
    }
}

#[test]
fn rate_is_applied_with_seven_decimals() {
    assert_eq!(PRECISION, 10_000_000);
    assert_eq!(apply_rate(100_0000000, 100_000_000), Ok(1000_0000000));
    assert_eq!(apply_rate(3, 5_000_000), Ok(1));
    assert_eq!(apply_rate(1, 9_999_999), Ok(0));
    assert_eq!(apply_rate(0, i128::MAX), Ok(0));
    // toward zero for an amount below zero
    assert_eq!(apply_rate(-3, 5_000_000), Ok(-1));
    assert_eq!(apply_rate(-1, 9_999_999), Ok(0));
    assert_eq!(apply_rate(-25, 10_000_001), Ok(-25));
}

#[test]
fn product_that_does_not_fit_is_an_overflow() {
    assert_eq!(apply_rate(i128::MAX, 2), Err(OracleError::ConversionOverflow));
    assert_eq!(apply_rate(i128::MIN, 2), Err(OracleError::ConversionOverflow));
    assert_eq!(apply_rate(i128::MIN, -1), Err(OracleError::ConversionOverflow));
    assert_eq!(apply_rate(i128::MAX, 1), Ok(i128::MAX / 10_000_000));
    assert_eq!(apply_rate(i128::MIN, 1), Ok(i128::MIN / 10_000_000));
    assert_eq!(apply_rate(1 << 64, 1 << 63), Err(OracleError::ConversionOverflow));
    assert_eq!(apply_rate(1 << 63, 1 << 63), Ok((1i128 << 126) / 10_000_000));
}

#[test]
fn direct_conversion_reads_the_pair_from_source_to_target() {
    let mut storage = OracleStorage::new();
    set_price(&mut storage, &pair(&usdc(), &xlm()), 10 * PRECISION, 0);
    assert_eq!(convert_direct(&storage, 7, &usdc(), &xlm()), Ok(70));
    // the reverse pair has no price of its own
    assert_eq!(convert_direct(&storage, 7, &xlm(), &usdc()), Err(OracleError::PriceNotFound));
    assert_eq!(
        convert_direct(&storage, i128::MAX, &usdc(), &xlm()),
        Err(OracleError::ConversionOverflow)
    );
}

#[test]
fn overflow_of_a_direct_conversion_is_not_resolved_by_path() {
    let mut storage = OracleStorage::new();
    let (a, c) = (token("AAA"), token("CCC"));
    set_base_currency(&mut storage, xlm());
    quote_pair(&mut storage, &a, &xlm(), 10 * PRECISION);
    quote_pair(&mut storage, &a, &c, 1);
    quote_pair(&mut storage, &c, &xlm(), 1);
    assert_eq!(convert_to_base(&storage, i128::MAX, a), Err(OracleError::ConversionOverflow));
}

#[test]
fn asset_with_no_price_and_no_path_cannot_be_converted() {
    let mut storage = OracleStorage::new();
    set_base_currency(&mut storage, xlm());
    assert_eq!(convert_to_base(&storage, 5, usdc()), Err(OracleError::NoConversionPath));
    assert_eq!(
        convert_via_path(&storage, 5, usdc(), xlm()),
        Err(OracleError::NoConversionPath)
    );
    let result = find_conversion_path(&storage, &usdc(), &xlm());
    assert_eq!(result.err(), Some(OracleError::NoConversionPath));
}

#[test]
fn path_over_one_intermediate_asset() {
    let mut storage = OracleStorage::new();
    let (a, b, c) = (token("AAA"), token("BBB"), token("CCC"));
    add_available_pair(&mut storage, pair(&a, &c));
    add_available_pair(&mut storage, pair(&c, &b));

    let path = find_conversion_path(&storage, &a, &b).unwrap();
    assert_eq!(codes(&path.assets), vec!["AAA", "CCC", "BBB"]);
    assert_eq!(path.assets, vec![a.clone(), c.clone(), b.clone()]);
    assert_eq!(path.total_hops, 2);

    // the graph is undirected
    let back = find_conversion_path(&storage, &b, &a).unwrap();
    assert_eq!(back.assets, vec![b, c, a]);
    assert_eq!(back.total_hops, 2);
}

#[test]
fn path_from_an_asset_to_itself_has_no_hop() {
    let storage = OracleStorage::new();
    let a = token("AAA");
    let path = find_conversion_path(&storage, &a, &a).unwrap();
    assert_eq!(path.assets, vec![a]);
    assert_eq!(path.total_hops, 0);
}

#[test]
fn direct_pair_is_a_path_of_one_hop() {
    let mut storage = OracleStorage::new();
    let (a, b, c) = (token("AAA"), token("BBB"), token("CCC"));
    add_available_pair(&mut storage, pair(&a, &c));
    add_available_pair(&mut storage, pair(&c, &b));
    add_available_pair(&mut storage, pair(&b, &a));
    let path = find_conversion_path(&storage, &a, &b).unwrap();
    assert_eq!(path.assets, vec![a, b]);
    assert_eq!(path.total_hops, 1);
}

#[test]
fn path_of_three_hops_is_found_and_one_of_four_is_not() {
    let mut storage = OracleStorage::new();
    let chain = [token("N0"), token("N1"), token("N2"), token("N3"), token("N4")];
    for i in 0..4 {
        add_available_pair(&mut storage, pair(&chain[i], &chain[i + 1]));
    }
    assert_eq!(MAX_PATH_LENGTH, 3);

    let path = find_conversion_path(&storage, &chain[0], &chain[3]).unwrap();
    assert_eq!(path.assets, chain[0..4].to_vec());
    assert_eq!(path.total_hops, 3);

    // only a path of four hops leads from N0 to N4
    let result = find_conversion_path(&storage, &chain[0], &chain[4]);
    assert_eq!(result.err(), Some(OracleError::NoConversionPath));
    assert_eq!(
        convert_via_path(&storage, 1, chain[0].clone(), chain[4].clone()),
        Err(OracleError::NoConversionPath)
    );
    // from N1 it is three hops
    let path = find_conversion_path(&storage, &chain[1], &chain[4]).unwrap();
    assert_eq!(path.total_hops, 3);
}

#[test]
fn shortest_path_wins_over_a_longer_one() {
    let mut storage = OracleStorage::new();
    let (a, b, c, d, e) = (token("AAA"), token("BBB"), token("CCC"), token("DDD"), token("EEE"));
    // a - c - d - b is registered before a - e - b
    add_available_pair(&mut storage, pair(&a, &c));
    add_available_pair(&mut storage, pair(&c, &d));
    add_available_pair(&mut storage, pair(&d, &b));
    add_available_pair(&mut storage, pair(&e, &a));
    add_available_pair(&mut storage, pair(&b, &e));
    let path = find_conversion_path(&storage, &a, &b).unwrap();
    assert_eq!(path.assets, vec![a, e, b]);
    assert_eq!(path.total_hops, 2);
}

#[test]
fn assets_with_the_same_code_and_different_issuers_are_distinct() {
    let mut storage = OracleStorage::new();
    let a = token("AAA");
    let b = token("BBB");
    let other_b = Asset { code: "BBB".to_string(), issuer: Some(Address { strkey: "GOTHER".to_string() }) };
    let native_b = Asset { code: "BBB".to_string(), issuer: None };
    add_available_pair(&mut storage, pair(&a, &other_b));
    assert_eq!(
        find_conversion_path(&storage, &a, &b).err(),
        Some(OracleError::NoConversionPath)
    );
    assert_eq!(
        find_conversion_path(&storage, &a, &native_b).err(),
        Some(OracleError::NoConversionPath)
    );
    assert_eq!(find_conversion_path(&storage, &a, &other_b).unwrap().total_hops, 1);
}

#[test]
fn conversion_by_path_applies_each_hop_in_turn() {
    let mut storage = OracleStorage::new();
    let (a, c) = (token("AAA"), token("CCC"));
    set_base_currency(&mut storage, xlm());
    quote_pair(&mut storage, &a, &c, 2 * PRECISION);
    quote_pair(&mut storage, &c, &xlm(), 15_000_000);
    // 7 A = 14 C = 21 XLM
    assert_eq!(convert_to_base(&storage, 7, a.clone()), Ok(21));
    assert_eq!(convert_via_path(&storage, 7, a.clone(), xlm()), Ok(21));
    // each hop rounds on its own: 1 A = 2 C, 1 C = 1.5 XLM
    quote_pair(&mut storage, &a, &c, 5_000_000);
    // 3 A = 1 C (1.5 rounded) = 1 XLM (1.5 rounded)
    assert_eq!(convert_to_base(&storage, 3, a), Ok(1));
}

#[test]
fn hop_without_a_price_in_its_direction_fails_the_conversion() {
    let mut storage = OracleStorage::new();
    let (a, c) = (token("AAA"), token("CCC"));
    set_base_currency(&mut storage, xlm());
    // the pair from C to A joins A and C, but prices C in A
    quote_pair(&mut storage, &c, &a, 2 * PRECISION);
    quote_pair(&mut storage, &c, &xlm(), PRECISION);
    assert_eq!(find_conversion_path(&storage, &a, &xlm()).unwrap().total_hops, 2);
    assert_eq!(convert_to_base(&storage, 7, a.clone()), Err(OracleError::PriceNotFound));
    // a pair that is registered without a price
    let mut bare = OracleStorage::new();
    add_available_pair(&mut bare, pair(&a, &xlm()));
    assert_eq!(convert_to_base(&bare, 7, a), Err(OracleError::PriceNotFound));
}

#[test]
fn overflow_at_a_hop_fails_the_conversion() {
    let mut storage = OracleStorage::new();
    let (a, c) = (token("AAA"), token("CCC"));
    set_base_currency(&mut storage, xlm());
    quote_pair(&mut storage, &a, &c, PRECISION);
    quote_pair(&mut storage, &c, &xlm(), i128::MAX);
    assert_eq!(convert_to_base(&storage, 2, a.clone()), Err(OracleError::ConversionOverflow));
    assert_eq!(convert_to_base(&storage, 1, a), Ok(i128::MAX / 10_000_000));
}

#[test]
fn price_without_registration_is_used_directly_only() {
    let mut storage = OracleStorage::new();
    let (a, c) = (token("AAA"), token("CCC"));
    set_base_currency(&mut storage, xlm());
    // prices are set, but no pair is registered
    set_price(&mut storage, &pair(&a, &c), PRECISION, 0);
    set_price(&mut storage, &pair(&c, &xlm()), PRECISION, 0);
    assert_eq!(convert_to_base(&storage, 5, c), Ok(5));
    assert_eq!(convert_to_base(&storage, 5, a), Err(OracleError::NoConversionPath));
}

#[test]
fn neighbors_come_from_both_sides_of_a_pair() {
    let mut storage = OracleStorage::new();
    let (a, b, c, d) = (token("AAA"), token("BBB"), token("CCC"), token("DDD"));
    add_available_pair(&mut storage, pair(&a, &b));
    add_available_pair(&mut storage, pair(&c, &a));
    add_available_pair(&mut storage, pair(&c, &d));
    add_available_pair(&mut storage, pair(&a, &b));
    let pairs = get_available_pairs(&storage);
    assert_eq!(pairs, vec![pair(&a, &b), pair(&c, &a), pair(&c, &d)]);
    assert_eq!(neighbors(&pairs, &a), vec![b.clone(), c.clone()]);
    assert_eq!(neighbors(&pairs, &b), vec![a.clone()]);
    assert_eq!(neighbors(&pairs, &c), vec![a.clone(), d.clone()]);
    assert_eq!(neighbors(&pairs, &d), vec![c.clone()]);
    assert_eq!(neighbors(&pairs, &xlm()), Vec::<Asset>::new());
    // a pair of an asset with itself makes the asset its own neighbour
    let own = vec![pair(&a, &a), pair(&b, &a)];
    assert_eq!(neighbors(&own, &a), vec![a.clone(), b.clone()]);
    assert_eq!(neighbors(&Vec::new(), &a), Vec::<Asset>::new());
}

#[test]
fn equally_short_routes_follow_the_order_of_registration() {
    let (a, b, c, d) = (token("AAA"), token("BBB"), token("CCC"), token("DDD"));
    let mut storage = OracleStorage::new();
    add_available_pair(&mut storage, pair(&a, &c));
    add_available_pair(&mut storage, pair(&a, &d));
    add_available_pair(&mut storage, pair(&d, &b));
    add_available_pair(&mut storage, pair(&c, &b));
    let path = find_conversion_path(&storage, &a, &b).unwrap();
    assert_eq!(path.assets, vec![a.clone(), c.clone(), b.clone()]);

    let mut other = OracleStorage::new();
    add_available_pair(&mut other, pair(&a, &d));
    add_available_pair(&mut other, pair(&a, &c));
    add_available_pair(&mut other, pair(&d, &b));
    add_available_pair(&mut other, pair(&c, &b));
    let path = find_conversion_path(&other, &a, &b).unwrap();
    assert_eq!(path.assets, vec![a, d, b]);
}
