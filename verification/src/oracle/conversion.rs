//! Price conversion system for multi-asset portfolio aggregation

use vstd::prelude::*;
use crate::common::{asset_ids, pair_ids, Asset, AssetId, AssetPair, PairId};
use crate::oracle::errors::OracleError;
use crate::oracle::routes::{
    discover, ends, expanded, is_route, is_shortest_route, joined, lemma_discover,
    lemma_neighbors_of, lemma_search, lemma_search_advance, lemma_search_bound,
    lemma_search_discover, lemma_seen_are_ends, lemma_search_start, linked, max_route_len,
    neighbors_of, search, search_from, search_inv,
};
use crate::oracle::storage::{get_base_currency, get_price, OracleStorage, StorageModel};

verus! {

/// The scale of prices and rates: 7 decimals for Stellar
pub const PRECISION: i128 = 10_000_000;

/// The largest number of hops that a conversion path may have.
pub const MAX_PATH_LENGTH: u32 = 3;

/// A path of conversions: the assets from the source to the target, both
/// included, and the number of hops between them.
#[derive(Debug)]
pub struct ConversionPath {
    pub assets: Vec<Asset>,
    pub total_hops: u32,
}

impl Clone for ConversionPath {
    fn clone(&self) -> (copy: ConversionPath)
        ensures
            copy.assets@ == self.assets@,
            copy.total_hops == self.total_hops,
    {
        ConversionPath { assets: clone_path(&self.assets), total_hops: self.total_hops }
    }
}

/// The quotient of `x` by `d`, rounded toward zero; `d` is not 0.
pub open spec fn div_toward_zero(x: int, d: int) -> int {
    if x >= 0 {
        x / d
    } else {
        -((-x) / d)
    }
}

/// `amount * rate / PRECISION`, rounded toward zero, or the overflow of the
/// product.
pub open spec fn scaled(amount: i128, rate: i128) -> Result<i128, OracleError> {
    if i128::MIN <= amount * rate <= i128::MAX {
        Ok(div_toward_zero(amount * rate, PRECISION as int) as i128)
    } else {
        Err(OracleError::ConversionOverflow)
    }
}

/// The conversion of `amount` of `from` into `to` at the price of the pair
/// from `from` to `to`.
pub open spec fn direct_conversion(
    model: StorageModel,
    amount: i128,
    from: AssetId,
    to: AssetId,
) -> Result<i128, OracleError> {
    match model.price(PairId { base: from, quote: to }) {
        Ok(price) => scaled(amount, price),
        Err(e) => Err(e),
    }
}

/// The conversion of `amount` along `route`, hop by hop; the first hop that
/// fails ends it.
pub open spec fn route_conversion(model: StorageModel, amount: i128, route: Seq<AssetId>) -> Result<
    i128,
    OracleError,
>
    decreases route.len(),
{
    if route.len() <= 1 {
        Ok(amount)
    } else {
        match route_conversion(model, amount, route.drop_last()) {
            Ok(carried) => direct_conversion(
                model,
                carried,
                route[route.len() - 2],
                route[route.len() - 1],
            ),
            Err(e) => Err(e),
        }
    }
}

/// The conversion of `amount` from `from` into `to` by path: along the route
/// that the search finds, and a failure where it finds none.
pub open spec fn path_conversion(
    model: StorageModel,
    amount: i128,
    from: AssetId,
    to: AssetId,
) -> Result<i128, OracleError> {
    match search(model.pairs, from, to) {
        Some(route) => route_conversion(model, amount, route),
        None => Err(OracleError::NoConversionPath),
    }
}

/// The conversion of `amount` of `asset` into the base currency: the amount
/// itself for the base currency, the amount at the price of the pair from
/// `asset` to the base currency where that pair is priced, and the conversion
/// by path otherwise.
pub open spec fn base_conversion(model: StorageModel, amount: i128, asset: AssetId) -> Result<
    i128,
    OracleError,
> {
    let base = model.base();
    if asset == base {
        Ok(amount)
    } else {
        match model.price(PairId { base: asset, quote: base }) {
            Ok(price) => scaled(amount, price),
            Err(_) => path_conversion(model, amount, asset, base),
        }
    }
}

/// Convert amount to base currency using direct or path-based conversion
pub fn convert_to_base(storage: &OracleStorage, amount: i128, asset: Asset) -> (r: Result<
    i128,
    OracleError,
>)
    ensures
        r == base_conversion(storage@, amount, asset@),
{
    let base = get_base_currency(storage);

    if asset == base {
        return Ok(amount);
    }
    // Try direct conversion first

    match convert_direct(storage, amount, &asset, &base) {
        Ok(result) => Ok(result),
        // Fall back to path-based conversion
        Err(OracleError::PriceNotFound) => convert_via_path(storage, amount, asset, base),
        Err(e) => Err(e),
    }
}

/// Scales `amount` by `rate`: `amount * rate / PRECISION`, rounded toward zero.
pub fn apply_rate(amount: i128, rate: i128) -> (r: Result<i128, OracleError>)
    ensures
        r == scaled(amount, rate),
{
    match amount.checked_mul(rate) {
        Some(product) => match product.checked_div(PRECISION) {
            Some(value) => Ok(value),
            None => Err(OracleError::ConversionOverflow),
        },
        None => Err(OracleError::ConversionOverflow),
    }
}

/// Direct conversion: asset → base
pub fn convert_direct(storage: &OracleStorage, amount: i128, from: &Asset, to: &Asset) -> (r:
    Result<i128, OracleError>)
    ensures
        r == direct_conversion(storage@, amount, from@, to@),
{
    let pair = AssetPair { base: from.clone(), quote: to.clone() };
    match get_price(storage, &pair) {
        Ok(price) => apply_rate(amount, price),
        Err(e) => Err(e),
    }
}

/// Path-based conversion: asset → intermediate(s) → base
pub fn convert_via_path(storage: &OracleStorage, amount: i128, from: Asset, to: Asset) -> (r:
    Result<i128, OracleError>)
    ensures
        r == path_conversion(storage@, amount, from@, to@),
{
    let path = match find_conversion_path(storage, &from, &to) {
        Ok(path) => path,
        Err(e) => {
            return Err(e);
        },
    };
    let ghost route = asset_ids(path.assets@);

    let mut current_amount = amount;
    let mut current_asset = from;

    let mut i: usize = 1;
    while i < path.assets.len()
        invariant
            1 <= i,
            path.assets.len() >= 1,
            i <= path.assets.len(),
            route == asset_ids(path.assets@),
            search(storage@.pairs, from@, to@) == Some(route),
            current_asset@ == route[i - 1],
            route_conversion(storage@, amount, route.take(i as int)) == Ok::<i128, OracleError>(
                current_amount,
            ),
        decreases path.assets.len() - i,
    {
        let next_asset = path.assets[i].clone();
        let ghost prefix = route.take(i as int + 1);
        proof {
            assert(prefix.drop_last() =~= route.take(i as int));
            assert(prefix[prefix.len() - 2] == route[i - 1]);
            assert(prefix[prefix.len() - 1] == route[i as int]);
            assert(route_conversion(storage@, amount, prefix) == direct_conversion(
                storage@,
                current_amount,
                route[i - 1],
                route[i as int],
            ));
        }
        match convert_direct(storage, current_amount, &current_asset, &next_asset) {
            Ok(converted) => {
                current_amount = converted;
            },
            Err(e) => {
                proof {
                    lemma_route_conversion_fails(storage@, amount, route, i as int + 1);
                }
                return Err(e);
            },
        }
        current_asset = next_asset;
        i += 1;
    }
    proof {
        assert(route.take(i as int) =~= route);
    }
    Ok(current_amount)
}

/// A conversion that fails along the first `n` assets of a route fails along
/// the whole route, in the same way.
pub proof fn lemma_route_conversion_fails(
    model: StorageModel,
    amount: i128,
    route: Seq<AssetId>,
    n: int,
)
    requires
        0 <= n <= route.len(),
        route_conversion(model, amount, route.take(n)) is Err,
    ensures
        route_conversion(model, amount, route) == route_conversion(model, amount, route.take(n)),
    decreases route.len() - n,
{
    if n == route.len() {
        assert(route.take(n) =~= route);
    } else {
        let longer = route.take(n + 1);
        assert(longer.drop_last() =~= route.take(n));
        assert(longer.len() >= 2) by {
            assert(route.take(n).len() >= 2);
        }
        lemma_route_conversion_fails(model, amount, route, n + 1);
    }
}

/// An amount of the base currency converts into itself, whatever the amount
/// and whatever prices are set.
pub proof fn lemma_base_converts_to_itself(model: StorageModel, amount: i128)
    ensures
        base_conversion(model, amount, model.base()) == Ok::<i128, OracleError>(amount),
{
}

/// The routes that wait in a queue of paths, as sequences of asset identities.
spec fn queue_routes(queue: Seq<Vec<Asset>>) -> Seq<Seq<AssetId>> {
    Seq::new(queue.len(), |i: int| asset_ids(queue[i]@))
}

/// Find shortest conversion path using BFS
///
/// The search follows no route beyond `MAX_PATH_LENGTH` hops. Where several
/// shortest routes exist, the order in which the pairs were registered decides
/// which one is returned; callers should not rely on it.
pub fn find_conversion_path(storage: &OracleStorage, from: &Asset, to: &Asset) -> (r: Result<
    ConversionPath,
    OracleError,
>)
    ensures
        match search(storage@.pairs, from@, to@) {
            Some(route) => r matches Ok(path) && asset_ids(path.assets@) == route
                && path.total_hops == route.len() - 1,
            None => r matches Err(e) && e == OracleError::NoConversionPath,
        },
        r matches Ok(path) ==> is_shortest_route(
            storage@.graph(),
            asset_ids(path.assets@),
            from@,
            to@,
        ) && path.total_hops <= MAX_PATH_LENGTH,
{
    let available_pairs = get_available_pairs(storage);
    let ghost edges = storage@.pairs;
    let ghost graph = edges.to_set();

    let mut queue: Vec<Vec<Asset>> = Vec::new();
    let mut start_path: Vec<Asset> = Vec::new();
    start_path.push(from.clone());
    queue.push(start_path);

    let mut visited: Vec<Asset> = Vec::new();
    visited.push(from.clone());

    let mut head: usize = 0;
    proof {
        lemma_search_start(graph, from@, to@);
        assert(queue_routes(queue@) =~= seq![seq![from@]]) by {
            assert(asset_ids(queue@[0]@) =~= seq![from@]);
        }
        assert(asset_ids(visited@) =~= seq![from@]);
    }

    while head < queue.len()
        invariant
            search_inv(graph, from@, to@, queue_routes(queue@), asset_ids(visited@), head as int),
            search(edges, from@, to@) == search_from(
                edges,
                to@,
                queue_routes(queue@),
                head as nat,
            ),
            edges == storage@.pairs,
            edges == pair_ids(available_pairs@),
            graph == edges.to_set(),
        decreases 1 + 2 * edges.len() - head,
    {
        let ghost routes = queue_routes(queue@);
        proof {
            lemma_search_bound(graph, edges, from@, to@, routes, asset_ids(visited@), head as int);
            lemma_seen_are_ends(graph, from@, to@, routes, asset_ids(visited@), head as int);
        }
        let path = clone_path(&queue[head]);
        let ghost route = asset_ids(path@);
        assert(route == routes[head as int]);
        assert(is_route(graph, route, from@, asset_ids(visited@)[head as int]));

        if path.len() > MAX_PATH_LENGTH as usize + 1 {
            proof {
                lemma_search_advance(graph, from@, to@, routes, asset_ids(visited@), head as int);
            }
            head += 1;
            continue;
        }
        let current = path[path.len() - 1].clone();
        assert(current@ == route.last());

        if current == *to {
            proof {
                assert(search_from(edges, to@, routes, head as nat) == Some(route));
                lemma_search(edges, from@, to@);
            }
            let total_hops = (path.len() - 1) as u32;
            return Ok(ConversionPath { assets: path, total_hops });
        }
        // Explore neighbors

        let found = neighbors(&available_pairs, &current);
        let ghost joined = asset_ids(found@);
        proof {
            lemma_neighbors_of(edges, current@);
            assert forall|m: int| 0 <= m < joined.len() implies linked(
                graph,
                current@,
                #[trigger] joined[m],
            ) by {
                assert(joined.contains(joined[m]));
            }
            assert(joined.skip(0) =~= joined);
        }
        let mut k: usize = 0;
        while k < found.len()
            invariant
                k <= found.len(),
                head < queue.len(),
                search_inv(
                    graph,
                    from@,
                    to@,
                    queue_routes(queue@),
                    asset_ids(visited@),
                    head as int,
                ),
                route == asset_ids(path@),
                route == queue_routes(queue@)[head as int],
                path.len() <= max_route_len(),
                current@ == route.last(),
                joined == asset_ids(found@),
                forall|m: int|
                    0 <= m < joined.len() ==> linked(graph, current@, #[trigger] joined[m]),
                discover(routes, route, joined) == discover(
                    queue_routes(queue@),
                    route,
                    joined.skip(k as int),
                ),
            decreases found.len() - k,
        {
            let next_asset = found[k].clone();
            let ghost seen = asset_ids(visited@);
            let ghost waiting = queue_routes(queue@);
            proof {
                lemma_seen_are_ends(graph, from@, to@, waiting, seen, head as int);
                assert(next_asset@ == joined[k as int]);
                assert(joined.skip(k as int).first() == joined[k as int]);
                assert(joined.skip(k as int).drop_first() =~= joined.skip(k as int + 1));
                assert(seen[head as int] == current@);
            }

            if !contains_asset(&visited, &next_asset) {
                proof {
                    lemma_search_discover(
                        graph,
                        from@,
                        to@,
                        waiting,
                        seen,
                        head as int,
                        next_asset@,
                    );
                }
                visited.push(next_asset.clone());
                let mut new_path = clone_path(&path);
                new_path.push(next_asset);
                queue.push(new_path);
                proof {
                    assert(asset_ids(visited@) =~= seen.push(next_asset@));
                    assert(queue_routes(queue@) =~= waiting.push(route.push(next_asset@))) by {
                        assert(asset_ids(queue@[queue.len() - 1]@) =~= route.push(next_asset@));
                    }
                }
            }
            k += 1;
        }

        proof {
            assert(joined.skip(found.len() as int) =~= Seq::<AssetId>::empty());
            assert(queue_routes(queue@) == discover(routes, route, neighbors_of(edges, current@)));
            lemma_discover(graph, from@, to@, routes, head as int, joined);
            let seen = asset_ids(visited@);
            lemma_seen_are_ends(graph, from@, to@, queue_routes(queue@), seen, head as int);
            assert(expanded(graph, to@, seen, head as int)) by {
                assert forall|w: AssetId| #[trigger]
                    linked(graph, seen[head as int], w) implies seen.contains(w) by {
                    assert(joined.contains(w));
                    let m = choose|m: int| 0 <= m < joined.len() && joined[m] == w;
                    assert(seen.contains(joined[m]));
                }
            }
            lemma_search_advance(graph, from@, to@, queue_routes(queue@), seen, head as int);
        }
        head += 1;
    }

    Err(OracleError::NoConversionPath)
}

/// The neighbours of `asset` in the graph of `pairs`: every asset that one of
/// the pairs joins to it, be it as the base or as the quote of the pair, in
/// the order of the pairs.
pub fn neighbors(pairs: &Vec<AssetPair>, asset: &Asset) -> (found: Vec<Asset>)
    ensures
        asset_ids(found@) == neighbors_of(pair_ids(pairs@), asset@),
{
    let ghost edges = pair_ids(pairs@);
    let mut found: Vec<Asset> = Vec::new();
    let mut k: usize = 0;
    while k < pairs.len()
        invariant
            k <= pairs.len(),
            edges == pair_ids(pairs@),
            asset_ids(found@) == neighbors_of(edges.take(k as int), asset@),
        decreases pairs.len() - k,
    {
        let ghost before = asset_ids(found@);
        proof {
            assert(edges.take(k as int + 1).drop_last() =~= edges.take(k as int));
            assert(edges.take(k as int + 1).last() == pairs[k as int]@);
        }
        match neighbor(&pairs[k], asset) {
            Some(other) => {
                let ghost joined = other@;
                found.push(other);
                assert(asset_ids(found@) =~= before.push(joined));
            },
            None => {},
        }
        k += 1;
    }
    proof {
        assert(edges.take(pairs.len() as int) =~= edges);
    }
    found
}

/// The asset that `pair` joins to `current`, if `current` is one of its sides.
fn neighbor(pair: &AssetPair, current: &Asset) -> (next: Option<Asset>)
    ensures
        match next {
            Some(asset) => joined(pair@, current@) == Some(asset@),
            None => joined(pair@, current@) is None,
        },
{
    if pair.base == *current {
        Some(pair.quote.clone())
    } else if pair.quote == *current {
        Some(pair.base.clone())
    } else {
        None
    }
}

/// Whether `asset` is among `assets`.
fn contains_asset(assets: &Vec<Asset>, asset: &Asset) -> (found: bool)
    ensures
        found == asset_ids(assets@).contains(asset@),
{
    let mut i: usize = 0;
    while i < assets.len()
        invariant
            i <= assets.len(),
            forall|j: int| 0 <= j < i ==> asset_ids(assets@)[j] != asset@,
        decreases assets.len() - i,
    {
        if assets[i] == *asset {
            assert(asset_ids(assets@)[i as int] == asset@);
            return true;
        }
        i += 1;
    }
    false
}

/// A copy of `path`.
fn clone_path(path: &Vec<Asset>) -> (copy: Vec<Asset>)
    ensures
        copy@ == path@,
{
    let mut copy: Vec<Asset> = Vec::new();
    let mut i: usize = 0;
    while i < path.len()
        invariant
            i <= path.len(),
            copy@ == path@.take(i as int),
        decreases path.len() - i,
    {
        copy.push(path[i].clone());
        assert(copy@ =~= path@.take(i as int + 1));
        i += 1;
    }
    assert(path@.take(path.len() as int) =~= path@);
    copy
}

/// Get all available trading pairs from storage
pub fn get_available_pairs(storage: &OracleStorage) -> (pairs: Vec<AssetPair>)
    ensures
        pair_ids(pairs@) == storage@.pairs,
{
    let pairs_map = crate::oracle::storage::get_available_pairs(storage);
    let mut pairs: Vec<AssetPair> = Vec::new();
    let mut i: usize = 0;
    while i < pairs_map.len()
        invariant
            i <= pairs_map.keys().len(),
            pairs.len() == i,
            pairs_map.keys() == storage@.pairs,
            pair_ids(pairs@) == pairs_map.keys().take(i as int),
        decreases pairs_map.keys().len() - i,
    {
        let ghost before = pairs@;
        pairs.push(pairs_map.key_at(i).clone());
        assert forall|j: int| 0 <= j <= i implies pair_ids(pairs@)[j] == pairs_map.keys()[j] by {
            if j < i {
                assert(pair_ids(before)[j] == pairs_map.keys().take(i as int)[j]);
            }
        }
        assert(pair_ids(pairs@) =~= pairs_map.keys().take(i as int + 1));
        i += 1;
    }
    assert(pairs_map.keys().take(pairs_map.keys().len() as int) =~= pairs_map.keys());
    pairs
}

} // verus!
