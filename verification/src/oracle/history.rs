//! Historical price storage and TWAP calculation

use vstd::prelude::*;
use std::collections::HashMap;
use vstd::arithmetic::div_mod::{
    lemma_div_is_ordered, lemma_div_multiples_vanish, lemma_div_pos_is_pos,
    lemma_fundamental_div_mod, lemma_fundamental_div_mod_converse, lemma_hoist_over_denominator,
    lemma_mod_bound,
};
use crate::common::{AssetPair, PairId};
use crate::oracle::errors::OracleError;
use crate::keyed_map::{first_slot, is_first_slot, lemma_first_slot, lemma_first_slot_exists};

verus! {

broadcast use vstd::std_specs::hash::group_hash_axioms;

/// The seconds that one bucket spans: 5 minutes
pub const BUCKET_SIZE: u64 = 300;

/// The reach of the retention window in buckets: 7 days at 5-min intervals
pub const MAX_BUCKETS: u64 = 2016;

/// Ledgers closed in about 24 hours; a price point is kept alive for seven
/// times as long after it was written.
pub const DAY_IN_LEDGERS: u32 = 17280;

/// The bucket into which `timestamp` falls.
pub open spec fn bucket_of(timestamp: u64) -> u64 {
    timestamp / BUCKET_SIZE
}

/// The price points of one pair, by bucket.
struct PairSeries {
    pair: AssetPair,
    points: HashMap<u64, i128>,
}

/// The bucketed price history of every pair: at most one price per pair and
/// bucket.
pub struct PriceHistory {
    series: Vec<PairSeries>,
}

impl PriceHistory {
    /// The pairs that have a series, in the order in which they came.
    closed spec fn keys(self) -> Seq<PairId> {
        Seq::new(self.series@.len(), |i: int| self.series[i].pair@)
    }

    /// The points of the series at position `i`.
    closed spec fn points_at(self, i: int) -> Map<u64, i128> {
        self.series[i].points@
    }

    /// The history as a mathematical map from pair and bucket to price.
    pub closed spec fn view(self) -> Map<(PairId, u64), i128> {
        Map::new(
            |key: (PairId, u64)|
                self.keys().contains(key.0) && self.points_at(
                    first_slot(self.keys(), key.0)->0,
                ).contains_key(key.1),
            |key: (PairId, u64)| self.points_at(first_slot(self.keys(), key.0)->0)[key.1],
        )
    }

    /// The price recorded for `pair` in `bucket`, if there is one.
    pub open spec fn point(self, pair: PairId, bucket: u64) -> Option<i128> {
        if self@.contains_key((pair, bucket)) {
            Some(self@[(pair, bucket)])
        } else {
            None
        }
    }

    /// An empty history.
    pub fn new() -> (history: PriceHistory)
        ensures
            history@ == Map::<(PairId, u64), i128>::empty(),
    {
        let history = PriceHistory { series: Vec::new() };
        assert(history@ =~= Map::<(PairId, u64), i128>::empty());
        history
    }

    fn position(&self, pair: &AssetPair) -> (r: Option<usize>)
        ensures
            match r {
                Some(i) => is_first_slot(self.keys(), pair@, i as int),
                None => !self.keys().contains(pair@),
            },
    {
        let mut i: usize = 0;
        while i < self.series.len()
            invariant
                i <= self.series.len(),
                self.keys().len() == self.series.len(),
                forall|j: int| 0 <= j < i ==> self.keys()[j] != pair@,
            decreases self.series.len() - i,
        {
            if self.series[i].pair == *pair {
                return Some(i);
            }
            i += 1;
        }
        None
    }

    /// The price recorded for `pair` in `bucket`, if there is one.
    pub fn get(&self, pair: &AssetPair, bucket: u64) -> (price: Option<i128>)
        ensures
            price == self.point(pair@, bucket),
    {
        match self.position(pair) {
            Some(i) => {
                proof {
                    lemma_first_slot(self.keys(), pair@, i as int);
                }
                match self.series[i].points.get(&bucket) {
                    Some(price) => Some(*price),
                    None => None,
                }
            },
            None => None,
        }
    }

    /// Records `price` for `pair` in `bucket`, in place of what was recorded
    /// there before.
    pub fn set(&mut self, pair: &AssetPair, bucket: u64, price: i128)
        ensures
            final(self)@ == old(self)@.insert((pair@, bucket), price),
    {
        let ghost before = *self;
        match self.position(pair) {
            Some(i) => {
                self.series[i].points.insert(bucket, price);
                proof {
                    assert(self.keys() =~= before.keys());
                    lemma_first_slot(before.keys(), pair@, i as int);
                    assert forall|key: (PairId, u64)| key.0 != pair@ && before.keys().contains(
                        key.0,
                    ) implies self.points_at(first_slot(self.keys(), key.0)->0) == before.points_at(
                        first_slot(before.keys(), key.0)->0,
                    ) by {
                        lemma_first_slot_exists(before.keys(), key.0);
                    }
                    assert(self@ =~= before@.insert((pair@, bucket), price));
                }
            },
            None => {
                let mut points: HashMap<u64, i128> = HashMap::new();
                points.insert(bucket, price);
                self.series.push(PairSeries { pair: pair.clone(), points });
                proof {
                    let last = before.keys().len() as int;
                    assert(self.keys() =~= before.keys().push(pair@));
                    assert(is_first_slot(self.keys(), pair@, last));
                    lemma_first_slot(self.keys(), pair@, last);
                    assert forall|other: PairId| before.keys().contains(other) implies first_slot(
                        self.keys(),
                        other,
                    ) == first_slot(before.keys(), other) && self.keys().contains(other)
                        && self.points_at(first_slot(self.keys(), other)->0) == before.points_at(
                        first_slot(before.keys(), other)->0,
                    ) by {
                        lemma_first_slot_exists(before.keys(), other);
                        let f = first_slot(before.keys(), other)->0;
                        assert(is_first_slot(self.keys(), other, f));
                        lemma_first_slot(self.keys(), other, f);
                        assert(self.series@[f] == before.series@[f]);
                    }
                    assert(self.points_at(last) =~= Map::<u64, i128>::empty().insert(
                        bucket,
                        price,
                    ));
                    assert forall|other: PairId| self.keys().contains(other) implies other == pair@
                        || before.keys().contains(other) by {
                        let k = choose|k: int|
                            0 <= k < self.keys().len() && self.keys()[k] == other;
                        if k < before.keys().len() {
                            assert(before.keys()[k] == other);
                        }
                    }
                    assert(self.keys()[last] == pair@);
                    assert(self@ =~= before@.insert((pair@, bucket), price));
                }
            },
        }
    }

    /// Removes what is recorded for `pair` in `bucket`.
    pub fn remove(&mut self, pair: &AssetPair, bucket: u64)
        ensures
            final(self)@ == old(self)@.remove((pair@, bucket)),
    {
        let ghost before = *self;
        match self.position(pair) {
            Some(i) => {
                self.series[i].points.remove(&bucket);
                proof {
                    assert(self.keys() =~= before.keys());
                    lemma_first_slot(before.keys(), pair@, i as int);
                    assert forall|key: (PairId, u64)| key.0 != pair@ && before.keys().contains(
                        key.0,
                    ) implies self.points_at(first_slot(self.keys(), key.0)->0) == before.points_at(
                        first_slot(before.keys(), key.0)->0,
                    ) by {
                        lemma_first_slot_exists(before.keys(), key.0);
                    }
                    assert(self@ =~= before@.remove((pair@, bucket)));
                }
            },
            None => {
                assert(self@ =~= before@.remove((pair@, bucket)));
            },
        }
    }
}


/// The prices recorded for `pair` in the buckets from `lo` to `hi`, both
/// included, in the order of the buckets.
pub open spec fn window_points(
    points: Map<(PairId, u64), i128>,
    pair: PairId,
    lo: u64,
    hi: int,
) -> Seq<i128>
    decreases hi - lo + 1,
{
    if hi < lo {
        Seq::empty()
    } else {
        let earlier = window_points(points, pair, lo, hi - 1);
        if points.contains_key((pair, hi as u64)) {
            earlier.push(points[(pair, hi as u64)])
        } else {
            earlier
        }
    }
}

/// The sum of `prices`.
pub open spec fn sum(prices: Seq<i128>) -> int
    decreases prices.len(),
{
    if prices.len() == 0 {
        0
    } else {
        sum(prices.drop_last()) + prices.last()
    }
}

/// The mean of `prices`, rounded down.
pub open spec fn mean(prices: Seq<i128>) -> int {
    sum(prices) / (prices.len() as int)
}

/// The start of the window of `window_seconds` that ends at `now`: it does
/// not reach back beyond time 0.
pub open spec fn window_start(window_seconds: u64, now: u64) -> u64 {
    if now >= window_seconds {
        (now - window_seconds) as u64
    } else {
        0
    }
}

/// The time-weighted average price of `pair` over the window of
/// `window_seconds` that ends at `now`: the mean, rounded down, of the prices
/// recorded in the buckets of the window. Buckets without a price do not count.
pub open spec fn twap(
    points: Map<(PairId, u64), i128>,
    pair: PairId,
    window_seconds: u64,
    now: u64,
) -> Result<i128, OracleError> {
    let prices = window_points(
        points,
        pair,
        bucket_of(window_start(window_seconds, now)),
        bucket_of(now) as int,
    );
    if prices.len() == 0 {
        Err(OracleError::InsufficientHistoricalData)
    } else {
        Ok(mean(prices) as i128)
    }
}

/// The bucket that a write to `current_bucket` evicts: the one that lies
/// `MAX_BUCKETS` behind it, and none while that would be bucket 0 or lie before
/// it.
pub open spec fn evicted(current_bucket: u64) -> Option<u64> {
    if current_bucket <= MAX_BUCKETS {
        None
    } else {
        Some((current_bucket - MAX_BUCKETS) as u64)
    }
}

/// What `points` holds once a write to `current_bucket` has evicted a bucket
/// from the series of `pair`.
pub open spec fn pruned(
    points: Map<(PairId, u64), i128>,
    pair: PairId,
    current_bucket: u64,
) -> Map<(PairId, u64), i128> {
    match evicted(current_bucket) {
        Some(oldest) => points.remove((pair, oldest)),
        None => points,
    }
}

/// What `points` holds once `price` has been stored for `pair` at time `now`.
pub open spec fn stored(
    points: Map<(PairId, u64), i128>,
    pair: PairId,
    price: i128,
    now: u64,
) -> Map<(PairId, u64), i128> {
    pruned(points.insert((pair, bucket_of(now)), price), pair, bucket_of(now))
}

/// The price of `pair` at `timestamp` as seen at time `now`: none for a time
/// that is still to come.
pub open spec fn price_at(
    points: Map<(PairId, u64), i128>,
    pair: PairId,
    timestamp: u64,
    now: u64,
) -> Option<i128> {
    if timestamp <= now && points.contains_key((pair, bucket_of(timestamp))) {
        Some(points[(pair, bucket_of(timestamp))])
    } else {
        None
    }
}

/// The quotient of `x` by `d`, rounded down.
pub open spec fn floor_div(x: int, d: int) -> int {
    if d > 0 {
        x / d
    } else {
        (-x) / (-d)
    }
}

/// The distance of `x` from zero.
pub open spec fn magnitude(x: int) -> int {
    if x < 0 {
        -x
    } else {
        x
    }
}

/// The deviation of `current_price` from `twap` in basis points:
/// `|current_price - twap| * 10000 / twap`, rounded down. No deviation is
/// given from an average of zero, nor where the product leaves the range of
/// the integers.
pub open spec fn deviation(current_price: i128, twap: i128) -> Result<i128, OracleError> {
    if twap == 0 {
        Err(OracleError::InvalidPrice)
    } else if magnitude(current_price - twap) * 10000 > i128::MAX {
        Err(OracleError::ConversionOverflow)
    } else {
        Ok(floor_div(magnitude(current_price - twap) * 10000, twap as int) as i128)
    }
}

/// The deviation of `current_price` from the time-weighted average price of
/// `pair`.
pub open spec fn twap_deviation(
    points: Map<(PairId, u64), i128>,
    pair: PairId,
    current_price: i128,
    window_seconds: u64,
    now: u64,
) -> Result<i128, OracleError> {
    match twap(points, pair, window_seconds, now) {
        Ok(average) => deviation(current_price, average),
        Err(e) => Err(e),
    }
}

/// The bucket into which `timestamp` falls.
pub fn bucket_index(timestamp: u64) -> (bucket: u64)
    ensures
        bucket == bucket_of(timestamp),
{
    timestamp / BUCKET_SIZE
}

/// The first and the last bucket of the window of `window_seconds` that ends
/// at `now`.
pub fn window_buckets(window_seconds: u64, now: u64) -> (window: (u64, u64))
    ensures
        window.0 == bucket_of(window_start(window_seconds, now)),
        window.1 == bucket_of(now),
        window.0 <= window.1,
{
    let end_time = now;
    let start_time = end_time.saturating_sub(window_seconds);
    (start_time / BUCKET_SIZE, end_time / BUCKET_SIZE)
}

/// Store price snapshot at 5-minute intervals
pub fn store_price(history: &mut PriceHistory, pair: &AssetPair, price: i128, now: u64)
    ensures
        final(history)@ == stored(old(history)@, pair@, price, now),
{
    let timestamp = now;
    let bucket = timestamp / BUCKET_SIZE;

    history.set(pair, bucket, price);

    prune_old_data(history, pair, bucket);
}

/// Get historical price for specific timestamp
pub fn get_historical_price(
    history: &PriceHistory,
    pair: &AssetPair,
    timestamp: u64,
    now: u64,
) -> (r: Option<i128>)
    ensures
        r == price_at(history@, pair@, timestamp, now),
{
    let current_time = now;
    if timestamp > current_time {
        return None;  // Reject future timestamps
    }
    let bucket = timestamp / BUCKET_SIZE;
    history.get(pair, bucket)
}

/// Calculate TWAP over window (1h, 24h, 7d)
pub fn calculate_twap(
    history: &PriceHistory,
    pair: &AssetPair,
    window_seconds: u64,
    now: u64,
) -> (r: Result<i128, OracleError>)
    ensures
        r == twap(history@, pair@, window_seconds, now),
{
    let (start_bucket, end_bucket) = window_buckets(window_seconds, now);

    let mut prices: Vec<i128> = Vec::new();
    let mut bucket: u64 = start_bucket;
    while bucket <= end_bucket
        invariant
            start_bucket <= bucket <= end_bucket + 1,
            end_bucket == bucket_of(now),
            prices@ == window_points(history@, pair@, start_bucket, bucket - 1),
        decreases end_bucket + 1 - bucket,
    {
        if let Some(price) = history.get(pair, bucket) {
            prices.push(price);
        }
        bucket += 1;
    }

    if prices.len() == 0 {
        return Err(OracleError::InsufficientHistoricalData);
    }
    Ok(mean_price(&prices))
}

/// The bucket that a write to `current_bucket` evicts, if it evicts one: the
/// bucket that lies `MAX_BUCKETS` behind it.
pub fn evicted_bucket(current_bucket: u64) -> (oldest: Option<u64>)
    ensures
        oldest == evicted(current_bucket),
{
    if current_bucket <= MAX_BUCKETS {
        return None;
    }
    let oldest_bucket = current_bucket - MAX_BUCKETS;
    Some(oldest_bucket)
}

/// Prune data older than 7 days (circular buffer)
pub fn prune_old_data(history: &mut PriceHistory, pair: &AssetPair, current_bucket: u64)
    ensures
        final(history)@ == pruned(old(history)@, pair@, current_bucket),
{
    if let Some(oldest_bucket) = evicted_bucket(current_bucket) {
        history.remove(pair, oldest_bucket);
    }
}

/// Query price deviation from TWAP (basis points)
///
/// Fails as the average does; with `InvalidPrice` where the average is zero;
/// and with `ConversionOverflow` where the distance from the average, taken
/// 10000 times, leaves the range of the integers.
pub fn get_twap_deviation(
    history: &PriceHistory,
    pair: &AssetPair,
    current_price: i128,
    window: u64,
    now: u64,
) -> (r: Result<i128, OracleError>)
    ensures
        r == twap_deviation(history@, pair@, current_price, window, now),
{
    let twap = match calculate_twap(history, pair, window, now) {
        Ok(twap) => twap,
        Err(e) => {
            return Err(e);
        },
    };
    price_deviation(current_price, twap)
}

/// The deviation of `current_price` from `twap` in basis points.
pub fn price_deviation(current_price: i128, twap: i128) -> (r: Result<i128, OracleError>)
    ensures
        r == deviation(current_price, twap),
{
    if twap == 0 {
        return Err(OracleError::InvalidPrice);
    }
    let difference = match current_price.checked_sub(twap) {
        Some(difference) => difference,
        None => {
            return Err(OracleError::ConversionOverflow);
        },
    };
    if difference == i128::MIN {
        return Err(OracleError::ConversionOverflow);
    }
    let distance = if difference < 0 {
        -difference
    } else {
        difference
    };
    let spread = match distance.checked_mul(10000) {
        Some(spread) => spread,
        None => {
            return Err(OracleError::ConversionOverflow);
        },
    };
    assert(spread == magnitude(current_price - twap) * 10000);
    if twap > 0 {
        Ok(spread / twap)
    } else if twap == i128::MIN {
        // the divisor is larger than any spread
        proof {
            if spread != 0 {
                lemma_fundamental_div_mod_converse(
                    -(spread as int),
                    -(twap as int),
                    -1,
                    -(twap as int) - spread,
                );
            }
        }
        if spread == 0 {
            Ok(0)
        } else {
            Ok(-1)
        }
    } else {
        let divisor = -twap;
        let quotient = spread / divisor;
        let remainder = spread % divisor;
        proof {
            lemma_fundamental_div_mod(spread as int, divisor as int);
            lemma_mod_bound(spread as int, divisor as int);
            lemma_div_pos_is_pos(spread as int, divisor as int);
            assert(quotient <= spread) by (nonlinear_arith)
                requires
                    spread == divisor * quotient + remainder,
                    0 <= remainder,
                    0 <= quotient,
                    1 <= divisor,
            ;
            if remainder == 0 {
                assert(-(spread as int) == (-(quotient as int)) * divisor + 0) by (nonlinear_arith)
                    requires
                        spread == divisor * quotient + remainder,
                        remainder == 0,
                ;
                lemma_fundamental_div_mod_converse(
                    -(spread as int),
                    divisor as int,
                    -(quotient as int),
                    0,
                );
            } else {
                assert(-(spread as int) == (-(quotient as int) - 1) * divisor + (divisor
                    - remainder)) by (nonlinear_arith)
                    requires
                        spread == divisor * quotient + remainder,
                ;
                lemma_fundamental_div_mod_converse(
                    -(spread as int),
                    divisor as int,
                    -(quotient as int) - 1,
                    divisor - remainder,
                );
            }
        }
        if remainder == 0 {
            Ok(-quotient)
        } else {
            Ok(-quotient - 1)
        }
    }
}

/// The sum of the first `n + 1` prices is the sum of the first `n` and the
/// price that follows them.
proof fn lemma_sum_step(prices: Seq<i128>, n: int)
    requires
        0 <= n < prices.len(),
    ensures
        sum(prices.take(n + 1)) == sum(prices.take(n)) + prices[n],
{
    assert(prices.take(n + 1).drop_last() =~= prices.take(n));
}

/// The mean of `prices`, rounded down. No sum is formed that could overflow:
/// the quotient and the remainder of the sum are carried along.
fn mean_price(prices: &Vec<i128>) -> (average: i128)
    requires
        prices.len() > 0,
    ensures
        average == mean(prices@),
{
    let count = prices.len() as i128;
    let mut quotient: i128 = 0;
    let mut remainder: i128 = 0;
    let mut i: usize = 0;
    while i < prices.len()
        invariant
            i <= prices.len(),
            count == prices.len(),
            count > 0,
            0 <= remainder < count,
            sum(prices@.take(i as int)) == quotient * count + remainder,
            i * i128::MIN <= sum(prices@.take(i as int)) <= i * i128::MAX,
        decreases prices.len() - i,
    {
        let price = prices[i];
        let ghost total = sum(prices@.take(i as int));
        // price == q * count + m with 0 <= m < count
        let whole = price / count;
        let part = price % count;
        proof {
            if price >= 0 {
                lemma_fundamental_div_mod(price as int, count as int);
                lemma_mod_bound(price as int, count as int);
            } else {
                lemma_fundamental_div_mod(-(price as int), count as int);
                lemma_mod_bound(-(price as int), count as int);
                lemma_div_pos_is_pos(-(price as int), count as int);
            }
            assert(price == whole * count + part) by (nonlinear_arith)
                requires
                    price >= 0 ==> price == count * whole + part,
                    price < 0 ==> -price == count * (-whole) + (-part),
            ;
            assert(-count < part < count);
            if part != 0 {
                assert(count >= 2);
                if price >= 0 {
                    assert(2 * whole <= whole * count) by (nonlinear_arith)
                        requires
                            whole >= 0,
                            count >= 2,
                    ;
                } else {
                    assert(2 * whole >= whole * count) by (nonlinear_arith)
                        requires
                            whole <= 0,
                            count >= 2,
                    ;
                }
                assert(i128::MIN <= 2 * whole <= i128::MAX);
            }
        }
        let q = if part < 0 {
            whole - 1
        } else {
            whole
        };
        let m = if part < 0 {
            part + count
        } else {
            part
        };
        assert(price == q * count + m) by (nonlinear_arith)
            requires
                price == whole * count + part,
                part < 0 ==> q == whole - 1 && m == part + count,
                part >= 0 ==> q == whole && m == part,
        ;
        assert(0 <= m < count);
        let carry = remainder + m >= count;
        proof {
            if carry {
                assert(count >= 2);
                assert(2 * q <= i128::MAX) by (nonlinear_arith)
                    requires
                        price == q * count + m,
                        0 <= m,
                        count >= 2,
                        price <= i128::MAX,
                ;
            }
        }
        let step = if carry {
            q + 1
        } else {
            q
        };
        let rest = if carry {
            remainder + m - count
        } else {
            remainder + m
        };
        proof {
            lemma_sum_step(prices@, i as int);
            let next = total + price;
            assert(next == (quotient + step) * count + rest) by (nonlinear_arith)
                requires
                    next == total + price,
                    total == quotient * count + remainder,
                    price == q * count + m,
                    carry ==> step == q + 1 && rest == remainder + m - count,
                    !carry ==> step == q && rest == remainder + m,
            ;
            lemma_fundamental_div_mod_converse(next, count as int, quotient + step, rest as int);
            assert((i + 1) * i128::MIN <= next <= (i + 1) * i128::MAX);
            assert(count * i128::MIN <= next <= count * i128::MAX) by (nonlinear_arith)
                requires
                    (i + 1) * i128::MIN <= next <= (i + 1) * i128::MAX,
                    i + 1 <= count,
            ;
            lemma_div_is_ordered(count * i128::MIN, next, count as int);
            lemma_div_is_ordered(next, count * i128::MAX, count as int);
            lemma_div_multiples_vanish(i128::MIN as int, count as int);
            lemma_div_multiples_vanish(i128::MAX as int, count as int);
            assert(count * i128::MIN == i128::MIN * count) by (nonlinear_arith);
            assert(count * i128::MAX == i128::MAX * count) by (nonlinear_arith);
        }
        quotient = quotient + step;
        remainder = rest;
        i += 1;
    }
    proof {
        assert(prices@.take(i as int) =~= prices@);
        lemma_fundamental_div_mod_converse(
            sum(prices@),
            count as int,
            quotient as int,
            remainder as int,
        );
    }
    quotient
}


/// A price that was stored at time `timestamp` is the price read for that
/// time, at any time from then on.
pub proof fn lemma_stored_price_read_back(
    points: Map<(PairId, u64), i128>,
    pair: PairId,
    price: i128,
    timestamp: u64,
    now: u64,
)
    requires
        timestamp <= now,
    ensures
        price_at(stored(points, pair, price, timestamp), pair, timestamp, now) == Some(price),
{
}

/// No price is read for a time that is still to come.
pub proof fn lemma_future_price_absent(
    points: Map<(PairId, u64), i128>,
    pair: PairId,
    timestamp: u64,
    now: u64,
)
    requires
        timestamp > now,
    ensures
        price_at(points, pair, timestamp, now) is None,
{
}

/// Storing a price for one pair leaves the points of every other pair as they
/// were.
pub proof fn lemma_stored_other_pair(
    points: Map<(PairId, u64), i128>,
    pair: PairId,
    price: i128,
    now: u64,
    other: PairId,
    bucket: u64,
)
    requires
        other != pair,
    ensures
        stored(points, pair, price, now).contains_key((other, bucket)) == points.contains_key(
            (other, bucket),
        ),
        stored(points, pair, price, now)[(other, bucket)] == points[(other, bucket)],
{
}

/// The sum of `prices` without the price at position `k`, and that price,
/// make the sum of `prices`.
pub proof fn lemma_sum_remove(prices: Seq<i128>, k: int)
    requires
        0 <= k < prices.len(),
    ensures
        sum(prices.remove(k)) + prices[k] == sum(prices),
    decreases prices.len(),
{
    if k == prices.len() - 1 {
        assert(prices.remove(k) =~= prices.drop_last());
    } else {
        assert(prices.remove(k).drop_last() =~= prices.drop_last().remove(k));
        assert(prices.remove(k).last() == prices.last());
        lemma_sum_remove(prices.drop_last(), k);
    }
}

/// The sum of `n` prices lies between `n` times the least and `n` times the
/// greatest value of a price, so that their mean is a price.
pub proof fn lemma_mean_in_range(prices: Seq<i128>)
    ensures
        prices.len() * i128::MIN <= sum(prices) <= prices.len() * i128::MAX,
        prices.len() > 0 ==> i128::MIN <= mean(prices) <= i128::MAX,
    decreases prices.len(),
{
    if prices.len() > 0 {
        lemma_mean_in_range(prices.drop_last());
        let count = prices.len() as int;
        lemma_div_is_ordered(count * i128::MIN, sum(prices), count);
        lemma_div_is_ordered(sum(prices), count * i128::MAX, count);
        lemma_div_multiples_vanish(i128::MIN as int, count);
        lemma_div_multiples_vanish(i128::MAX as int, count);
        assert(count * i128::MIN == i128::MIN * count) by (nonlinear_arith);
        assert(count * i128::MAX == i128::MAX * count) by (nonlinear_arith);
    }
}

/// Where the prices recorded for `pair` in the buckets from `lo` to `hi` are
/// `prices`, each at one of the distinct `buckets`, the points of that window
/// are as many as `prices` and have the same sum.
pub proof fn lemma_window_holds(
    points: Map<(PairId, u64), i128>,
    pair: PairId,
    lo: u64,
    hi: int,
    buckets: Seq<u64>,
    prices: Seq<i128>,
)
    requires
        hi <= u64::MAX,
        buckets.len() == prices.len(),
        buckets.no_duplicates(),
        forall|i: int|
            0 <= i < buckets.len() ==> lo <= #[trigger] buckets[i] <= hi && points.contains_key(
                (pair, buckets[i]),
            ) && points[(pair, buckets[i])] == prices[i],
        forall|bucket: u64|
            lo <= bucket <= hi && #[trigger] points.contains_key((pair, bucket))
                ==> buckets.contains(bucket),
    ensures
        window_points(points, pair, lo, hi).len() == prices.len(),
        sum(window_points(points, pair, lo, hi)) == sum(prices),
    decreases hi - lo + 1,
{
    if hi < lo {
        if buckets.len() > 0 {
            assert(lo <= buckets[0] <= hi);
        }
    } else {
        let top = hi as u64;
        if points.contains_key((pair, top)) {
            assert(buckets.contains(top));
            let k = choose|k: int| 0 <= k < buckets.len() && buckets[k] == top;
            let fewer = buckets.remove(k);
            let cheaper = prices.remove(k);
            assert(fewer.no_duplicates()) by {
                assert forall|i: int, j: int| 0 <= i < fewer.len() && 0 <= j < fewer.len() && i
                    != j implies fewer[i] != fewer[j] by {
                    let i0 = if i < k {
                        i
                    } else {
                        i + 1
                    };
                    let j0 = if j < k {
                        j
                    } else {
                        j + 1
                    };
                    assert(fewer[i] == buckets[i0]);
                    assert(fewer[j] == buckets[j0]);
                }
            }
            assert forall|i: int| 0 <= i < fewer.len() implies lo <= #[trigger] fewer[i] <= hi - 1
                && points.contains_key((pair, fewer[i])) && points[(pair, fewer[i])]
                == cheaper[i] by {
                let i0 = if i < k {
                    i
                } else {
                    i + 1
                };
                assert(fewer[i] == buckets[i0]);
                assert(cheaper[i] == prices[i0]);
                assert(buckets[i0] != buckets[k]);
            }
            assert forall|bucket: u64|
                lo <= bucket <= hi - 1 && #[trigger] points.contains_key(
                    (pair, bucket),
                ) implies fewer.contains(bucket) by {
                assert(buckets.contains(bucket));
                let j = choose|j: int| 0 <= j < buckets.len() && buckets[j] == bucket;
                if j < k {
                    assert(fewer[j] == bucket);
                } else {
                    assert(fewer[j - 1] == bucket);
                }
            }
            lemma_window_holds(points, pair, lo, hi - 1, fewer, cheaper);
            lemma_sum_remove(prices, k);
            let earlier = window_points(points, pair, lo, hi - 1);
            assert(earlier.push(prices[k]).drop_last() =~= earlier);
        } else {
            assert forall|i: int| 0 <= i < buckets.len() implies lo <= #[trigger] buckets[i] <= hi
                - 1 by {
                if buckets[i] == top {
                    assert(points.contains_key((pair, buckets[i])));
                }
            }
            lemma_window_holds(points, pair, lo, hi - 1, buckets, prices);
        }
    }
}

/// Given prices stored at distinct buckets, all within the window, and no
/// other price of the pair in the window, the time-weighted average price is
/// the mean of those prices, rounded down.
pub proof fn lemma_twap_is_mean(
    points: Map<(PairId, u64), i128>,
    pair: PairId,
    window_seconds: u64,
    now: u64,
    buckets: Seq<u64>,
    prices: Seq<i128>,
)
    requires
        prices.len() > 0,
        buckets.len() == prices.len(),
        buckets.no_duplicates(),
        forall|i: int|
            0 <= i < buckets.len() ==> bucket_of(window_start(window_seconds, now))
                <= #[trigger] buckets[i] <= bucket_of(now) && points.contains_key(
                (pair, buckets[i]),
            ) && points[(pair, buckets[i])] == prices[i],
        forall|bucket: u64|
            bucket_of(window_start(window_seconds, now)) <= bucket <= bucket_of(now)
                && #[trigger] points.contains_key((pair, bucket)) ==> buckets.contains(bucket),
    ensures
        twap(points, pair, window_seconds, now) matches Ok(average) && average == sum(prices) / (
        prices.len() as int),
{
    let lo = bucket_of(window_start(window_seconds, now));
    let hi = bucket_of(now) as int;
    lemma_window_holds(points, pair, lo, hi, buckets, prices);
    lemma_mean_in_range(window_points(points, pair, lo, hi));
}

/// The window holds no point exactly if no bucket of it has a price.
pub proof fn lemma_window_empty(points: Map<(PairId, u64), i128>, pair: PairId, lo: u64, hi: int)
    requires
        hi <= u64::MAX,
    ensures
        window_points(points, pair, lo, hi).len() == 0 <==> forall|bucket: u64|
            lo <= bucket <= hi ==> !#[trigger] points.contains_key((pair, bucket)),
    decreases hi - lo + 1,
{
    if hi >= lo {
        lemma_window_empty(points, pair, lo, hi - 1);
        if !points.contains_key((pair, hi as u64)) && window_points(points, pair, lo, hi).len()
            == 0 {
            assert forall|bucket: u64| lo <= bucket <= hi implies !#[trigger] points.contains_key(
                (pair, bucket),
            ) by {
                if bucket != hi {
                    assert(lo <= bucket <= hi - 1);
                }
            }
        }
    }
}

/// The time-weighted average price fails for want of data exactly if no price
/// is stored for the pair in the window, and fails in no other way.
pub proof fn lemma_twap_without_points(
    points: Map<(PairId, u64), i128>,
    pair: PairId,
    window_seconds: u64,
    now: u64,
)
    ensures
        (forall|bucket: u64|
            bucket_of(window_start(window_seconds, now)) <= bucket <= bucket_of(now)
                ==> !#[trigger] points.contains_key((pair, bucket))) <==> twap(
            points,
            pair,
            window_seconds,
            now,
        ) == Err::<i128, OracleError>(OracleError::InsufficientHistoricalData),
        twap(points, pair, window_seconds, now) matches Err(e) ==> e
            == OracleError::InsufficientHistoricalData,
{
    lemma_window_empty(
        points,
        pair,
        bucket_of(window_start(window_seconds, now)),
        bucket_of(now) as int,
    );
}

/// The deviation from a time-weighted average price of zero is refused as an
/// invalid price.
pub proof fn lemma_zero_twap_is_invalid(
    points: Map<(PairId, u64), i128>,
    pair: PairId,
    current_price: i128,
    window_seconds: u64,
    now: u64,
)
    requires
        twap(points, pair, window_seconds, now) == Ok::<i128, OracleError>(0),
    ensures
        twap_deviation(points, pair, current_price, window_seconds, now) == Err::<
            i128,
            OracleError,
        >(OracleError::InvalidPrice),
{
}

/// What `points` holds once the `prices` have been stored in turn, the first
/// at time `start` and each of the others one bucket after the one before it.
pub open spec fn stored_in_turn(
    points: Map<(PairId, u64), i128>,
    pair: PairId,
    start: u64,
    prices: Seq<i128>,
) -> Map<(PairId, u64), i128>
    decreases prices.len(),
{
    if prices.len() == 0 {
        points
    } else {
        stored(
            stored_in_turn(points, pair, start, prices.drop_last()),
            pair,
            prices.last(),
            (start + BUCKET_SIZE * (prices.len() - 1)) as u64,
        )
    }
}

/// After prices have been stored in turn, one bucket after another from a
/// bucket other than bucket 0, the latest `MAX_BUCKETS` of them are held and
/// the earlier ones are not.
pub proof fn lemma_stored_in_turn(
    points: Map<(PairId, u64), i128>,
    pair: PairId,
    start: u64,
    prices: Seq<i128>,
)
    requires
        prices.len() > 0,
        bucket_of(start) >= 1,
        start + BUCKET_SIZE * (prices.len() - 1) <= u64::MAX,
    ensures
        forall|k: int|
            0 <= k < prices.len() && k + MAX_BUCKETS >= prices.len() ==> #[trigger] stored_in_turn(
                points,
                pair,
                start,
                prices,
            ).contains_key((pair, (bucket_of(start) + k) as u64)) && stored_in_turn(
                points,
                pair,
                start,
                prices,
            )[(pair, (bucket_of(start) + k) as u64)] == prices[k],
        forall|k: int|
            0 <= k < prices.len() && k + MAX_BUCKETS < prices.len() ==> !#[trigger] stored_in_turn(
                points,
                pair,
                start,
                prices,
            ).contains_key((pair, (bucket_of(start) + k) as u64)),
    decreases prices.len(),
{
    let n = prices.len() as int;
    let first = bucket_of(start) as int;
    let time = (start + BUCKET_SIZE * (n - 1)) as u64;
    let before = stored_in_turn(points, pair, start, prices.drop_last());
    let after = stored_in_turn(points, pair, start, prices);
    assert(bucket_of(time) == first + (n - 1)) by {
        lemma_hoist_over_denominator(start as int, n - 1, BUCKET_SIZE as nat);
        assert((n - 1) * BUCKET_SIZE == BUCKET_SIZE * (n - 1)) by (nonlinear_arith);
    }
    assert(after == stored(before, pair, prices.last(), time));
    if n > 1 {
        lemma_stored_in_turn(points, pair, start, prices.drop_last());
    }
    assert forall|k: int| 0 <= k < n && k + MAX_BUCKETS >= n implies #[trigger] after.contains_key(
        (pair, (first + k) as u64),
    ) && after[(pair, (first + k) as u64)] == prices[k] by {
        if k < n - 1 {
            assert(prices.drop_last()[k] == prices[k]);
            assert(before.contains_key((pair, (first + k) as u64)));
        }
    }
    assert forall|k: int| 0 <= k < n && k + MAX_BUCKETS < n implies !#[trigger] after.contains_key(
        (pair, (first + k) as u64),
    ) by {
        if k + MAX_BUCKETS < n - 1 {
            assert(!before.contains_key((pair, (first + k) as u64)));
        }
    }
}

/// Writing one bucket after another for more than `MAX_BUCKETS` buckets,
/// from a bucket other than bucket 0, makes the earliest of them unreadable
/// and leaves the latest `MAX_BUCKETS` readable.
pub proof fn lemma_retention(
    points: Map<(PairId, u64), i128>,
    pair: PairId,
    start: u64,
    prices: Seq<i128>,
    now: u64,
)
    requires
        prices.len() > MAX_BUCKETS,
        bucket_of(start) >= 1,
        start + BUCKET_SIZE * (prices.len() - 1) <= now,
    ensures
        price_at(stored_in_turn(points, pair, start, prices), pair, start, now) is None,
        forall|k: int|
            0 <= k < prices.len() && k + MAX_BUCKETS >= prices.len() ==> #[trigger] price_at(
                stored_in_turn(points, pair, start, prices),
                pair,
                (start + BUCKET_SIZE * k) as u64,
                now,
            ) == Some(prices[k]),
{
    lemma_stored_in_turn(points, pair, start, prices);
    let after = stored_in_turn(points, pair, start, prices);
    let first = bucket_of(start) as int;
    assert(!after.contains_key((pair, (first + 0) as u64)));
    assert forall|k: int|
        0 <= k < prices.len() && k + MAX_BUCKETS >= prices.len() implies #[trigger] price_at(
        after,
        pair,
        (start + BUCKET_SIZE * k) as u64,
        now,
    ) == Some(prices[k]) by {
        let time = (start + BUCKET_SIZE * k) as u64;
        assert(BUCKET_SIZE * k <= BUCKET_SIZE * (prices.len() - 1)) by (nonlinear_arith)
            requires
                k <= prices.len() - 1,
        ;
        assert(bucket_of(time) == first + k) by {
            lemma_hoist_over_denominator(start as int, k, BUCKET_SIZE as nat);
            assert(k * BUCKET_SIZE == BUCKET_SIZE * k) by (nonlinear_arith);
        }
        assert(after.contains_key((pair, (first + k) as u64)));
    }
}

} // verus!
