//! Oracle storage layer: the base currency, the current price of each pair,
//! the registry of quotable pairs and the cache of resolved conversion rates.

use vstd::prelude::*;
use crate::common::{Asset, AssetId, AssetPair, PairId};
use crate::oracle::errors::OracleError;
use crate::keyed_map::KeyedMap;

verus! {

/// Ledgers closed in about 24 hours; durable entries are kept alive for this
/// long after each write.
pub const DAY_IN_LEDGERS: u32 = 17280;

/// Ledgers for which a cached conversion rate is kept alive.
pub const CACHE_LEDGERS: u32 = 60;

/// Seconds for which a cached conversion rate may be served.
pub const CACHE_SECONDS: u64 = 300;

/// A resolved conversion rate, in units of the target asset per unit of the
/// source asset at seven decimals, with the time at which it was resolved.
#[derive(Clone, Copy, Debug, PartialEq, Eq, Structural)]
pub struct CachedConversion {
    pub rate: i128,
    pub timestamp: u64,
}

/// The current price of a pair with the time at which it was set.
#[derive(Clone, Copy, Debug, PartialEq, Eq, Structural)]
pub struct PriceRecord {
    pub price: i128,
    pub timestamp: u64,
}

/// What the storage holds, as mathematical values.
pub struct StorageModel {
    /// The base currency, once one has been set.
    pub base_currency: Option<AssetId>,
    /// The current price of each priced pair.
    pub prices: Map<PairId, PriceRecord>,
    /// The registered pairs, in the order of their registration: the edges of
    /// the conversion graph.
    pub pairs: Seq<PairId>,
    /// The cached rates, keyed by the pair from source to target asset.
    pub cache: Map<PairId, CachedConversion>,
}

/// The asset that is the base currency until another one is set.
pub open spec fn default_base_currency_id() -> AssetId {
    AssetId { code: "XLM"@, issuer: None }
}

impl StorageModel {
    /// The base currency in force.
    pub open spec fn base(self) -> AssetId {
        match self.base_currency {
            Some(asset) => asset,
            None => default_base_currency_id(),
        }
    }

    /// The conversion graph: the set of registered pairs.
    pub open spec fn graph(self) -> Set<PairId> {
        self.pairs.to_set()
    }

    /// The price of `pair`, or the failure to find one.
    pub open spec fn price(self, pair: PairId) -> Result<i128, OracleError> {
        if self.prices.contains_key(pair) {
            Ok(self.prices[pair].price)
        } else {
            Err(OracleError::PriceNotFound)
        }
    }

    /// The model after `asset` has been made the base currency.
    pub open spec fn with_base(self, asset: AssetId) -> StorageModel {
        StorageModel { base_currency: Some(asset), ..self }
    }

    /// The model after the price of `pair` has been set to `price` at time
    /// `now`.
    pub open spec fn with_price(self, pair: PairId, price: i128, now: u64) -> StorageModel {
        StorageModel {
            prices: self.prices.insert(pair, PriceRecord { price, timestamp: now }),
            ..self
        }
    }

    /// The model after `pair` has been registered: a pair that is new comes
    /// last, and one that was registered before keeps its place.
    pub open spec fn with_pair(self, pair: PairId) -> StorageModel {
        if self.pairs.contains(pair) {
            self
        } else {
            StorageModel { pairs: self.pairs.push(pair), ..self }
        }
    }

    /// The model after `rate` has been cached at time `now` for conversions
    /// from `from` to `to`.
    pub open spec fn with_rate(
        self,
        from: AssetId,
        to: AssetId,
        rate: i128,
        now: u64,
    ) -> StorageModel {
        StorageModel {
            cache: self.cache.insert(
                PairId { base: from, quote: to },
                CachedConversion { rate, timestamp: now },
            ),
            ..self
        }
    }

    /// The cache entry from `from` to `to` that may be served at time `now`:
    /// the stored entry, unless 300 seconds or more have passed since it was
    /// resolved.
    pub open spec fn fresh_rate(self, from: AssetId, to: AssetId, now: u64) -> Option<
        CachedConversion,
    > {
        let key = PairId { base: from, quote: to };
        if self.cache.contains_key(key) && now - self.cache[key].timestamp < CACHE_SECONDS {
            Some(self.cache[key])
        } else {
            None
        }
    }
}

/// The state of the oracle.
pub struct OracleStorage {
    base_currency: Option<Asset>,
    prices: KeyedMap<AssetPair, PriceRecord>,
    available_pairs: KeyedMap<AssetPair, bool>,
    conversion_cache: KeyedMap<AssetPair, CachedConversion>,
}

impl View for OracleStorage {
    type V = StorageModel;

    closed spec fn view(&self) -> StorageModel {
        StorageModel {
            base_currency: match self.base_currency {
                Some(asset) => Some(asset@),
                None => None,
            },
            prices: self.prices@,
            pairs: self.available_pairs.keys(),
            cache: self.conversion_cache@,
        }
    }
}

impl OracleStorage {
    /// A storage in which nothing has been set.
    pub fn new() -> (storage: OracleStorage)
        ensures
            storage@ == (StorageModel {
                base_currency: None,
                prices: Map::empty(),
                pairs: Seq::empty(),
                cache: Map::empty(),
            }),
    {
        OracleStorage {
            base_currency: None,
            prices: KeyedMap::new(),
            available_pairs: KeyedMap::new(),
            conversion_cache: KeyedMap::new(),
        }
    }
}

/// Get base currency (default: XLM)
pub fn get_base_currency(storage: &OracleStorage) -> (base: Asset)
    ensures
        base@ == storage@.base(),
{
    match &storage.base_currency {
        Some(asset) => asset.clone(),
        None => default_base_currency(),
    }
}

/// Set base currency
pub fn set_base_currency(storage: &mut OracleStorage, asset: Asset)
    ensures
        final(storage)@ == old(storage)@.with_base(asset@),
{
    storage.base_currency = Some(asset);
}

/// Get price for asset pair
pub fn get_price(storage: &OracleStorage, pair: &AssetPair) -> (r: Result<i128, OracleError>)
    ensures
        r == storage@.price(pair@),
{
    match storage.prices.get(pair) {
        Some(record) => Ok(record.price),
        None => Err(OracleError::PriceNotFound),
    }
}

/// Set price for asset pair, together with the time `now` of the update.
pub fn set_price(storage: &mut OracleStorage, pair: &AssetPair, price: i128, now: u64)
    ensures
        final(storage)@ == old(storage)@.with_price(pair@, price, now),
{
    storage.prices.insert(pair.clone(), PriceRecord { price, timestamp: now });
}

/// Get cached conversion rate
///
/// An entry is served only while fewer than 300 seconds have passed since it
/// was stored; an older entry stays in the storage and counts as absent.
pub fn get_cached_conversion(storage: &OracleStorage, from: &Asset, to: &Asset, now: u64) -> (r:
    Option<CachedConversion>)
    ensures
        r == storage@.fresh_rate(from@, to@, now),
{
    let key = AssetPair { base: from.clone(), quote: to.clone() };
    match storage.conversion_cache.get(&key) {
        Some(cached) => {
            // Cache valid for 5 minutes (60 ledgers)
            if now < cached.timestamp || now - cached.timestamp < CACHE_SECONDS {
                Some(*cached)
            } else {
                None
            }
        },
        None => None,
    }
}

/// Set cached conversion rate
pub fn set_cached_conversion(
    storage: &mut OracleStorage,
    from: &Asset,
    to: &Asset,
    rate: i128,
    now: u64,
)
    ensures
        final(storage)@ == old(storage)@.with_rate(from@, to@, rate, now),
{
    let key = AssetPair { base: from.clone(), quote: to.clone() };
    let cached = CachedConversion { rate, timestamp: now };
    storage.conversion_cache.insert(key, cached);
}

/// Get available trading pairs
pub fn get_available_pairs(storage: &OracleStorage) -> (pairs: &KeyedMap<AssetPair, bool>)
    ensures
        pairs.keys() == storage@.pairs,
{
    &storage.available_pairs
}

/// Add available trading pair
pub fn add_available_pair(storage: &mut OracleStorage, pair: AssetPair)
    ensures
        final(storage)@ == old(storage)@.with_pair(pair@),
{
    storage.available_pairs.insert(pair, true);
}

fn default_base_currency() -> (asset: Asset)
    ensures
        asset@ == default_base_currency_id(),
{
    Asset { code: "XLM".to_owned(), issuer: None }
}

/// A price that has been set is the price that is read, whatever was there
/// before.
pub proof fn lemma_price_read_back(model: StorageModel, pair: PairId, price: i128, now: u64)
    ensures
        model.with_price(pair, price, now).price(pair) == Ok::<i128, OracleError>(price),
        model.with_price(pair, price, now).prices[pair].timestamp == now,
{
}

/// A later price for the same pair replaces both the price and its time: the
/// earlier update leaves no trace.
pub proof fn lemma_price_overwrite(
    model: StorageModel,
    pair: PairId,
    first_price: i128,
    first_time: u64,
    price: i128,
    now: u64,
)
    ensures
        model.with_price(pair, first_price, first_time).with_price(pair, price, now)
            == model.with_price(pair, price, now),
        model.with_price(pair, first_price, first_time).with_price(pair, price, now).prices[pair]
            == (PriceRecord { price, timestamp: now }),
{
    let first = PriceRecord { price: first_price, timestamp: first_time };
    let last = PriceRecord { price, timestamp: now };
    assert(model.prices.insert(pair, first).insert(pair, last) =~= model.prices.insert(pair, last));
}

/// Setting the price of one pair leaves the price of every other pair as it
/// was.
pub proof fn lemma_price_of_other_pair(
    model: StorageModel,
    pair: PairId,
    price: i128,
    now: u64,
    other: PairId,
)
    requires
        other != pair,
    ensures
        model.with_price(pair, price, now).price(other) == model.price(other),
{
}

/// A cached rate is served while fewer than 300 seconds have passed since it
/// was cached, and no longer.
pub proof fn lemma_cached_rate_lifetime(
    model: StorageModel,
    from: AssetId,
    to: AssetId,
    rate: i128,
    cached_at: u64,
    now: u64,
)
    ensures
        now - cached_at < CACHE_SECONDS ==> model.with_rate(from, to, rate, cached_at).fresh_rate(
            from,
            to,
            now,
        ) == Some(CachedConversion { rate, timestamp: cached_at }),
        now - cached_at >= CACHE_SECONDS ==> model.with_rate(from, to, rate, cached_at).fresh_rate(
            from,
            to,
            now,
        ) is None,
{
}

} // verus!
