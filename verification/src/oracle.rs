//! The price oracle: current prices, their history, conversion into the base
//! currency and the entry points that tie them together.

pub mod conversion;
pub mod errors;
pub mod history;
pub mod routes;
pub mod sdex;
pub mod storage;

pub use crate::oracle::conversion::{convert_to_base, ConversionPath};
pub use crate::oracle::storage::{get_base_currency, get_price, set_base_currency, set_price};

use vstd::prelude::*;
use vstd::arithmetic::div_mod::{lemma_div_multiples_vanish, lemma_fundamental_div_mod};
use crate::common::{Address, Asset, AssetId, AssetPair, PairId};
use crate::oracle::conversion::{
    apply_rate, base_conversion, div_toward_zero, scaled, PRECISION,
};
use crate::oracle::errors::OracleError;
use crate::oracle::routes::lemma_pushed_contains;
use crate::oracle::storage::{
    lemma_cached_rate_lifetime, lemma_price_overwrite, OracleStorage, PriceRecord, StorageModel,
    CACHE_SECONDS,
};

verus! {

/// The entry points of the oracle.
pub struct OracleContract;

/// The rate that a conversion of `amount` into `result` stands for, per unit
/// and at seven decimals: `result * PRECISION / amount`, rounded toward zero,
/// and 0 where the product overflows.
pub open spec fn rate_of(amount: i128, result: i128) -> i128 {
    if i128::MIN <= result * PRECISION <= i128::MAX {
        div_toward_zero(result * PRECISION, amount as int) as i128
    } else {
        0
    }
}

/// What the storage holds after a conversion of `amount` of `asset` that
/// missed the cache and came to `outcome` at time `now`: the rate is cached
/// where the conversion succeeded and both the amount and the rate are above
/// zero, and nothing changes otherwise.
pub open spec fn cached_after(
    model: StorageModel,
    amount: i128,
    asset: AssetId,
    outcome: Result<i128, OracleError>,
    now: u64,
) -> StorageModel {
    match outcome {
        Ok(result) => if amount > 0 && rate_of(amount, result) > 0 {
            model.with_rate(asset, model.base(), rate_of(amount, result), now)
        } else {
            model
        },
        Err(_) => model,
    }
}

/// What a conversion of `amount` of `asset` at time `now` comes to. A rate
/// cached less than 300 seconds ago is applied as it is; otherwise the amount
/// is converted directly or by path.
pub open spec fn converted(before: StorageModel, amount: i128, asset: AssetId, now: u64) -> Result<
    i128,
    OracleError,
> {
    match before.fresh_rate(asset, before.base(), now) {
        Some(cached) => scaled(amount, cached.rate),
        None => base_conversion(before, amount, asset),
    }
}

/// What the storage holds after a conversion of `amount` of `asset` at time
/// `now`: what it held, with the rate of the conversion where the cache was
/// missed.
pub open spec fn after_conversion(
    before: StorageModel,
    amount: i128,
    asset: AssetId,
    now: u64,
) -> StorageModel {
    match before.fresh_rate(asset, before.base(), now) {
        Some(_) => before,
        None => cached_after(before, amount, asset, base_conversion(before, amount, asset), now),
    }
}

impl OracleContract {
    /// Initialize oracle with base currency
    pub fn initialize(storage: &mut OracleStorage, admin: Address, base_currency: Asset)
        ensures
            final(storage)@ == old(storage)@.with_base(base_currency@),
    {
        storage::set_base_currency(storage, base_currency);
    }

    /// Set price for an asset pair
    ///
    /// A price that is not above zero is refused. Otherwise the price is
    /// stored with the time `now`, and the pair is registered.
    pub fn set_price(storage: &mut OracleStorage, pair: AssetPair, price: i128, now: u64) -> (r:
        Result<(), OracleError>)
        ensures
            price <= 0 ==> r == Err::<(), OracleError>(OracleError::InvalidAsset) && final(storage)@
                == old(storage)@,
            price > 0 ==> r == Ok::<(), OracleError>(()) && final(storage)@ == old(
                storage,
            )@.with_price(pair@, price, now).with_pair(pair@),
    {
        if price <= 0 {
            return Err(OracleError::InvalidAsset);
        }
        storage::set_price(storage, &pair, price, now);
        storage::add_available_pair(storage, pair);
        Ok(())
    }

    /// Get price for an asset pair
    pub fn get_price(storage: &OracleStorage, pair: AssetPair) -> (r: Result<i128, OracleError>)
        ensures
            r == storage@.price(pair@),
    {
        storage::get_price(storage, &pair)
    }

    /// Convert amount to base currency
    pub fn convert_to_base(storage: &mut OracleStorage, amount: i128, asset: Asset, now: u64) -> (r:
        Result<i128, OracleError>)
        ensures
            r == converted(old(storage)@, amount, asset@, now),
            final(storage)@ == after_conversion(old(storage)@, amount, asset@, now),
    {
        // Check cache first
        let base = storage::get_base_currency(storage);
        if let Some(cached) = storage::get_cached_conversion(storage, &asset, &base, now) {
            return apply_rate(amount, cached.rate);
        }
        // Perform conversion

        let result = match conversion::convert_to_base(storage, amount, asset.clone()) {
            Ok(result) => result,
            Err(e) => {
                return Err(e);
            },
        };

        // Cache the rate
        if amount > 0 {
            let rate = conversion_rate(amount, result);
            if rate > 0 {
                storage::set_cached_conversion(storage, &asset, &base, rate, now);
            }
        }
        Ok(result)
    }

    /// Get base currency
    pub fn get_base_currency(storage: &OracleStorage) -> (base: Asset)
        ensures
            base@ == storage@.base(),
    {
        storage::get_base_currency(storage)
    }

    /// Set base currency (admin only)
    pub fn set_base_currency(storage: &mut OracleStorage, asset: Asset)
        ensures
            final(storage)@ == old(storage)@.with_base(asset@),
    {
        storage::set_base_currency(storage, asset);
    }

    /// Add available trading pair
    pub fn add_pair(storage: &mut OracleStorage, pair: AssetPair)
        ensures
            final(storage)@ == old(storage)@.with_pair(pair@),
    {
        storage::add_available_pair(storage, pair);
    }
}

/// The rate that a conversion of `amount` into `result` stands for.
fn conversion_rate(amount: i128, result: i128) -> (rate: i128)
    requires
        amount > 0,
    ensures
        rate == rate_of(amount, result),
{
    match result.checked_mul(PRECISION) {
        Some(product) => match product.checked_div(amount) {
            Some(rate) => rate,
            None => 0,
        },
        None => 0,
    }
}


/// An amount of the base currency converts into itself, unless a rate cached
/// from the base currency to itself is served and does not give the amount
/// back.
pub proof fn lemma_base_amount_unchanged(before: StorageModel, amount: i128, now: u64)
    requires
        before.fresh_rate(before.base(), before.base(), now) matches Some(cached) ==> scaled(
            amount,
            cached.rate,
        ) == Ok::<i128, OracleError>(amount),
    ensures
        converted(before, amount, before.base(), now) == Ok::<i128, OracleError>(amount),
{
}

/// After a conversion of `amount` missed the cache at time `cached_at`, came
/// to `result` and cached a rate, a conversion of `next_amount` of the same
/// asset at a time `now` less than 300 seconds later is the cached rate
/// applied to `next_amount`, whatever prices and pairs are set by then, and
/// leaves the storage as it is. For the same amount it gives the same result
/// again, where the rate stands for that result exactly.
pub proof fn lemma_cached_rate_served(
    before: StorageModel,
    amount: i128,
    asset: AssetId,
    cached_at: u64,
    result: i128,
    next_amount: i128,
    now: u64,
)
    requires
        before.fresh_rate(asset, before.base(), cached_at) is None,
        converted(before, amount, asset, cached_at) == Ok::<i128, OracleError>(result),
        amount > 0,
        rate_of(amount, result) > 0,
        now - cached_at < CACHE_SECONDS,
    ensures
        ({
            let cached = after_conversion(before, amount, asset, cached_at);
            &&& converted(cached, next_amount, asset, now) == scaled(
                next_amount,
                rate_of(amount, result),
            )
            &&& after_conversion(cached, next_amount, asset, now) == cached
            &&& forall|pair: PairId, price: i128, set_at: u64|
                converted(
                    #[trigger] cached.with_price(pair, price, set_at),
                    next_amount,
                    asset,
                    now,
                ) == converted(cached, next_amount, asset, now)
            &&& forall|pair: PairId|
                converted(#[trigger] cached.with_pair(pair), next_amount, asset, now) == converted(
                    cached,
                    next_amount,
                    asset,
                    now,
                )
            &&& next_amount == amount && (result * PRECISION) % (amount as int) == 0 ==> converted(
                cached,
                next_amount,
                asset,
                now,
            ) == Ok::<i128, OracleError>(result)
        }),
{
    lemma_cached_rate_lifetime(
        before,
        asset,
        before.base(),
        rate_of(amount, result),
        cached_at,
        now,
    );
    if next_amount == amount && (result * PRECISION) % (amount as int) == 0 {
        let product = result * PRECISION;
        let rate = rate_of(amount, result);
        assert(i128::MIN <= product <= i128::MAX);
        assert(product > 0) by {
            if product <= 0 {
                assert(div_toward_zero(product, amount as int) <= 0) by (nonlinear_arith)
                    requires
                        product <= 0,
                        amount > 0,
                ;
            }
        }
        lemma_fundamental_div_mod(product, amount as int);
        assert(amount * rate == product) by (nonlinear_arith)
            requires
                product == amount * (product / (amount as int)) + product % (amount as int),
                product % (amount as int) == 0,
                rate == product / (amount as int),
        ;
        lemma_div_multiples_vanish(result as int, PRECISION as int);
    }
}

/// Once 300 seconds or more have passed since a conversion missed the cache,
/// a conversion of the same asset takes what was cached then for absent and
/// is resolved again from the prices.
pub proof fn lemma_cached_rate_expires(
    before: StorageModel,
    amount: i128,
    asset: AssetId,
    cached_at: u64,
    next_amount: i128,
    now: u64,
)
    requires
        before.fresh_rate(asset, before.base(), cached_at) is None,
        now - cached_at >= CACHE_SECONDS,
    ensures
        ({
            let cached = after_conversion(before, amount, asset, cached_at);
            &&& converted(cached, next_amount, asset, now) == base_conversion(
                cached,
                next_amount,
                asset,
            )
            &&& after_conversion(cached, next_amount, asset, now) == cached_after(
                cached,
                next_amount,
                asset,
                base_conversion(cached, next_amount, asset),
                now,
            )
        }),
{
    let outcome = base_conversion(before, amount, asset);
    let cached = after_conversion(before, amount, asset, cached_at);
    if outcome is Ok && amount > 0 && rate_of(amount, outcome->Ok_0) > 0 {
        lemma_cached_rate_lifetime(
            before,
            asset,
            before.base(),
            rate_of(amount, outcome->Ok_0),
            cached_at,
            now,
        );
    } else {
        assert(cached == before);
        let key = PairId { base: asset, quote: before.base() };
        if before.cache.contains_key(key) {
            assert(cached_at - before.cache[key].timestamp >= CACHE_SECONDS);
        }
    }
}

/// Setting a price for a pair and reading it back gives that price, and a
/// later price for the same pair replaces both the price and its time.
pub proof fn lemma_set_price_read_back(
    model: StorageModel,
    pair: PairId,
    first_price: i128,
    first_time: u64,
    price: i128,
    now: u64,
)
    ensures
        model.with_price(pair, price, now).with_pair(pair).price(pair) == Ok::<i128, OracleError>(
            price,
        ),
        model.with_price(pair, first_price, first_time).with_pair(pair).with_price(
            pair,
            price,
            now,
        ).with_pair(pair) == model.with_price(pair, price, now).with_pair(pair),
        model.with_price(pair, first_price, first_time).with_pair(pair).with_price(
            pair,
            price,
            now,
        ).with_pair(pair).prices[pair] == (PriceRecord { price, timestamp: now }),
{
    lemma_price_overwrite(model, pair, first_price, first_time, price, now);
    lemma_pushed_contains(model.pairs, pair, pair);
}

} // verus!
