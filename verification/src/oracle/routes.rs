//! Routes through the graph of registered pairs.
//!
//! The registered pairs are the edges of an undirected graph on assets. A
//! route is a walk in that graph; a conversion follows a shortest one.

use vstd::prelude::*;
use vstd::seq_lib::seq_to_set_is_finite;
use crate::common::{AssetId, PairId};
use crate::oracle::conversion::MAX_PATH_LENGTH;

verus! {

/// Whether a registered pair joins `a` and `b`, in either direction.
pub open spec fn linked(graph: Set<PairId>, a: AssetId, b: AssetId) -> bool {
    graph.contains(PairId { base: a, quote: b }) || graph.contains(PairId { base: b, quote: a })
}

/// Whether `route` leads from `from` to `to`, each asset linked to the next.
pub open spec fn is_route(
    graph: Set<PairId>,
    route: Seq<AssetId>,
    from: AssetId,
    to: AssetId,
) -> bool {
    &&& route.len() >= 1
    &&& route[0] == from
    &&& route[route.len() - 1] == to
    &&& forall|i: int| 0 <= i < route.len() - 1 ==> linked(graph, #[trigger] route[i], route[i + 1])
}

/// Whether `route` leads from `from` to `to` and no route between them has
/// fewer hops.
pub open spec fn is_shortest_route(
    graph: Set<PairId>,
    route: Seq<AssetId>,
    from: AssetId,
    to: AssetId,
) -> bool {
    &&& is_route(graph, route, from, to)
    &&& forall|other: Seq<AssetId>| #[trigger]
        is_route(graph, other, from, to) ==> route.len() <= other.len()
}

/// Whether some route of at most `max_hops` hops leads from `from` to `to`.
pub open spec fn reachable_within(
    graph: Set<PairId>,
    from: AssetId,
    to: AssetId,
    max_hops: int,
) -> bool {
    exists|route: Seq<AssetId>| #[trigger]
        is_route(graph, route, from, to) && route.len() - 1 <= max_hops
}

/// Whether `v` is reached from `from` by a walk of exactly `h` hops.
pub open spec fn reach(graph: Set<PairId>, from: AssetId, v: AssetId, h: nat) -> bool
    decreases h,
{
    if h == 0 {
        v == from
    } else {
        exists|x: AssetId| reach(graph, from, x, (h - 1) as nat) && #[trigger] linked(graph, x, v)
    }
}

/// A route of `n` assets reaches its end in `n - 1` hops.
pub proof fn lemma_route_reach(graph: Set<PairId>, route: Seq<AssetId>, from: AssetId, to: AssetId)
    requires
        is_route(graph, route, from, to),
    ensures
        reach(graph, from, to, (route.len() - 1) as nat),
    decreases route.len(),
{
    if route.len() > 1 {
        let shorter = route.drop_last();
        let x = shorter[shorter.len() - 1];
        assert forall|i: int| 0 <= i < shorter.len() - 1 implies linked(
            graph,
            #[trigger] shorter[i],
            shorter[i + 1],
        ) by {
            assert(shorter[i] == route[i]);
            assert(shorter[i + 1] == route[i + 1]);
        }
        assert(is_route(graph, shorter, from, x));
        lemma_route_reach(graph, shorter, from, x);
        assert(x == route[route.len() - 2]);
        assert(linked(graph, route[route.len() - 2], route[route.len() - 2 + 1]));
        let h = (route.len() - 1) as nat;
        assert(reach(graph, from, x, (h - 1) as nat) && linked(graph, x, to));
        assert(reach(graph, from, to, h));
    } else {
        assert(reach(graph, from, to, 0));
    }
}

/// The longest route, counted in assets, that a search follows to its end.
pub open spec fn max_route_len() -> int {
    MAX_PATH_LENGTH + 1
}

/// Whether every neighbour of the asset found `i`-th has been found, and that
/// asset is not the target.
pub open spec fn expanded(graph: Set<PairId>, to: AssetId, seen: Seq<AssetId>, i: int) -> bool {
    &&& seen[i] != to
    &&& forall|w: AssetId| #[trigger] linked(graph, seen[i], w) ==> seen.contains(w)
}

/// Whether `v` is among the first `head` assets found.
pub open spec fn settled(seen: Seq<AssetId>, head: int, v: AssetId) -> bool {
    exists|i: int| 0 <= i < head && #[trigger] seen[i] == v
}

/// The state of a breadth-first search from `from` for `to`.
///
/// `routes` holds every route found so far in the order of discovery, and
/// `seen[i]` is the asset at which `routes[i]` ends. The routes before `head`
/// have been dealt with; the others wait in the queue.
pub open spec fn search_inv(
    graph: Set<PairId>,
    from: AssetId,
    to: AssetId,
    routes: Seq<Seq<AssetId>>,
    seen: Seq<AssetId>,
    head: int,
) -> bool {
    &&& 0 <= head <= routes.len()
    &&& routes.len() == seen.len()
    &&& routes.len() >= 1
    &&& seen[0] == from
    // each entry is a route from the start to the asset recorded for it
    &&& forall|i: int|
        0 <= i < routes.len() ==> is_route(graph, #[trigger] routes[i], from, seen[i])
    // no asset is found twice
    &&& forall|i: int, j: int| 0 <= i < j < seen.len() ==> #[trigger] seen[i] != #[trigger] seen[j]
    // routes are found in the order of their length
    &&& forall|i: int, j: int|
        0 <= i <= j < routes.len() ==> (#[trigger] routes[i]).len() <= (#[trigger] routes[j]).len()
    &&& forall|i: int| 0 <= i < routes.len() ==> (#[trigger] routes[i]).len() <= max_route_len() + 1
    // the queue spans at most two lengths
    &&& forall|j: int|
        head <= j < routes.len() ==> (#[trigger] routes[j]).len() <= routes[head].len() + 1
    // each route is a shortest one to its end
    &&& forall|i: int, h: nat|
        0 <= i < routes.len() && h + 1 < routes[i].len() ==> !#[trigger] reach(
            graph,
            from,
            seen[i],
            h,
        )
    // what was taken from the queue and not cut off has been expanded
    &&& forall|i: int|
        0 <= i < head && routes[i].len() <= max_route_len() ==> #[trigger] expanded(
            graph,
            to,
            seen,
            i,
        )
    // whatever lies nearer than the head of the queue has been taken from it
    &&& head < routes.len() ==> forall|v: AssetId, h: nat|
        h + 1 < routes[head].len() && #[trigger] reach(graph, from, v, h) ==> settled(
            seen,
            head,
            v,
        )
}

/// A search starts with the route that consists of the start alone.
pub proof fn lemma_search_start(graph: Set<PairId>, from: AssetId, to: AssetId)
    ensures
        search_inv(graph, from, to, seq![seq![from]], seq![from], 0),
{
    let routes = seq![seq![from]];
    let seen = seq![from];
    assert(is_route(graph, routes[0], from, seen[0]));
}


/// Finding a new neighbour `w` of the asset at the head of the queue, and
/// queueing the route to it, keeps the search state.
pub proof fn lemma_search_discover(
    graph: Set<PairId>,
    from: AssetId,
    to: AssetId,
    routes: Seq<Seq<AssetId>>,
    seen: Seq<AssetId>,
    head: int,
    w: AssetId,
)
    requires
        search_inv(graph, from, to, routes, seen, head),
        head < routes.len(),
        routes[head].len() <= max_route_len(),
        linked(graph, seen[head], w),
        !seen.contains(w),
    ensures
        search_inv(graph, from, to, routes.push(routes[head].push(w)), seen.push(w), head),
{
    let cur = routes[head];
    let longer = cur.push(w);
    let routes2 = routes.push(longer);
    let seen2 = seen.push(w);
    let n = routes.len() as int;
    assert(is_route(graph, cur, from, seen[head]));
    assert(is_route(graph, longer, from, w)) by {
        assert forall|i: int| 0 <= i < longer.len() - 1 implies linked(
            graph,
            #[trigger] longer[i],
            longer[i + 1],
        ) by {
            if i < cur.len() - 1 {
                assert(longer[i] == cur[i]);
                assert(longer[i + 1] == cur[i + 1]);
            } else {
                assert(longer[i] == seen[head]);
                assert(longer[i + 1] == w);
            }
        }
    }
    assert forall|i: int| 0 <= i < routes2.len() implies is_route(
        graph,
        #[trigger] routes2[i],
        from,
        seen2[i],
    ) by {
        if i < n {
            assert(routes2[i] == routes[i]);
            assert(seen2[i] == seen[i]);
        }
    }
    assert forall|i: int, j: int| 0 <= i < j < seen2.len() implies #[trigger] seen2[i]
        != #[trigger] seen2[j] by {
        assert(seen2[i] == seen[i]);
        if j < n {
            assert(seen2[j] == seen[j]);
        } else {
            assert(seen.contains(seen[i]));
        }
    }
    assert forall|i: int| 0 <= i < routes2.len() implies (#[trigger] routes2[i]).len()
        <= longer.len() by {
        if i < n {
            assert(routes2[i] == routes[i]);
            if i < head {
                assert(routes[i].len() <= routes[head].len());
            } else {
                assert(routes[i].len() <= routes[head].len() + 1);
            }
        }
    }
    assert forall|i: int, j: int| 0 <= i <= j < routes2.len() implies (#[trigger] routes2[i]).len()
        <= (#[trigger] routes2[j]).len() by {
        if j < n {
            assert(routes2[i] == routes[i]);
            assert(routes2[j] == routes[j]);
        }
    }
    assert(routes2[head] == routes[head]);
    assert forall|i: int, h: nat|
        0 <= i < routes2.len() && h + 1 < routes2[i].len() implies !#[trigger] reach(
        graph,
        from,
        seen2[i],
        h,
    ) by {
        if i < n {
            assert(routes2[i] == routes[i]);
            assert(seen2[i] == seen[i]);
        } else {
            assert(seen2[i] == w);
            if reach(graph, from, w, h) {
                lemma_reached_is_seen(graph, from, to, routes, seen, head, w, h);
            }
        }
    }
    assert forall|i: int|
        0 <= i < head && routes2[i].len() <= max_route_len() implies #[trigger] expanded(
        graph,
        to,
        seen2,
        i,
    ) by {
        assert(routes2[i] == routes[i]);
        assert(expanded(graph, to, seen, i));
        assert(seen2[i] == seen[i]);
        assert forall|x: AssetId| #[trigger] linked(graph, seen2[i], x) implies seen2.contains(
            x,
        ) by {
            assert(seen.contains(x));
            let k = choose|k: int| 0 <= k < seen.len() && seen[k] == x;
            assert(seen2[k] == x);
        }
    }
    assert forall|v: AssetId, h: nat| h + 1 < routes2[head].len() && #[trigger] reach(
        graph,
        from,
        v,
        h,
    ) implies settled(seen2, head, v) by {
        assert(settled(seen, head, v));
        let k = choose|k: int| 0 <= k < head && #[trigger] seen[k] == v;
        assert(seen2[k] == v);
    }
}

/// What is reached in no more hops than the route at the head of the queue
/// has, has been found: it is a neighbour of an asset that was expanded.
proof fn lemma_reached_is_seen(
    graph: Set<PairId>,
    from: AssetId,
    to: AssetId,
    routes: Seq<Seq<AssetId>>,
    seen: Seq<AssetId>,
    head: int,
    w: AssetId,
    h: nat,
)
    requires
        search_inv(graph, from, to, routes, seen, head),
        head < routes.len(),
        h < routes[head].len(),
        reach(graph, from, w, h),
    ensures
        seen.contains(w),
{
    if h == 0 {
        assert(seen[0] == w);
    } else {
        let x = choose|x: AssetId|
            reach(graph, from, x, (h - 1) as nat) && #[trigger] linked(graph, x, w);
        assert(settled(seen, head, x));
        let i = choose|i: int| 0 <= i < head && #[trigger] seen[i] == x;
        assert(routes[i].len() <= h) by {
            if (h - 1) as nat + 1 < routes[i].len() {
                assert(!reach(graph, from, seen[i], (h - 1) as nat));
            }
        }
        assert(routes[head].len() <= max_route_len() + 1);
        assert(expanded(graph, to, seen, i));
        assert(linked(graph, seen[i], w));
    }
}

/// Once the route at the head of the queue has been dealt with, the next one
/// is at the head.
pub proof fn lemma_search_advance(
    graph: Set<PairId>,
    from: AssetId,
    to: AssetId,
    routes: Seq<Seq<AssetId>>,
    seen: Seq<AssetId>,
    head: int,
)
    requires
        search_inv(graph, from, to, routes, seen, head),
        head < routes.len(),
        routes[head].len() <= max_route_len() ==> expanded(graph, to, seen, head),
    ensures
        search_inv(graph, from, to, routes, seen, head + 1),
{
    assert forall|j: int| head + 1 <= j < routes.len() implies (#[trigger] routes[j]).len()
        <= routes[head + 1].len() + 1 by {
        assert(routes[j].len() <= routes[head].len() + 1);
        assert(routes[head].len() <= routes[head + 1].len());
    }
    if head + 1 < routes.len() {
        assert forall|v: AssetId, h: nat| h + 1 < routes[head + 1].len() && #[trigger] reach(
            graph,
            from,
            v,
            h,
        ) implies settled(seen, head + 1, v) by {
            assert(routes[head + 1].len() <= routes[head].len() + 1);
            if h + 1 < routes[head].len() {
                assert(settled(seen, head, v));
                let k = choose|k: int| 0 <= k < head && #[trigger] seen[k] == v;
                assert(seen[k] == v);
            } else {
                lemma_reached_is_seen(graph, from, to, routes, seen, head, v, h);
                let j = choose|j: int| 0 <= j < seen.len() && seen[j] == v;
                if j > head {
                    assert(routes[head + 1].len() <= routes[j].len());
                    assert(!reach(graph, from, seen[j], h));
                }
                assert(seen[j] == v);
            }
        }
    }
}

/// A route that ends at the target when it comes to the head of the queue is
/// a shortest route to the target.
pub proof fn lemma_search_found(
    graph: Set<PairId>,
    from: AssetId,
    to: AssetId,
    routes: Seq<Seq<AssetId>>,
    seen: Seq<AssetId>,
    head: int,
)
    requires
        search_inv(graph, from, to, routes, seen, head),
        head < routes.len(),
        seen[head] == to,
    ensures
        is_shortest_route(graph, routes[head], from, to),
{
    assert(is_route(graph, routes[head], from, seen[head]));
    assert forall|other: Seq<AssetId>| #[trigger]
        is_route(graph, other, from, to) implies routes[head].len() <= other.len() by {
        lemma_route_reach(graph, other, from, to);
        let h = (other.len() - 1) as nat;
        if h + 1 < routes[head].len() {
            assert(!reach(graph, from, seen[head], h));
        }
    }
}

/// When the queue is empty, whatever is reached within the hop limit has been
/// found by a route that was not cut off.
proof fn lemma_exhausted_reach(
    graph: Set<PairId>,
    from: AssetId,
    to: AssetId,
    routes: Seq<Seq<AssetId>>,
    seen: Seq<AssetId>,
    v: AssetId,
    h: nat,
)
    requires
        search_inv(graph, from, to, routes, seen, routes.len() as int),
        h < max_route_len(),
        reach(graph, from, v, h),
    ensures
        exists|i: int| 0 <= i < seen.len() && #[trigger] seen[i] == v && routes[i].len() <= h + 1,
    decreases h,
{
    if h == 0 {
        assert(seen[0] == v);
        if 0nat + 1 < routes[0].len() {
            assert(!reach(graph, from, seen[0], 0nat));
        }
    } else {
        let x = choose|x: AssetId|
            reach(graph, from, x, (h - 1) as nat) && #[trigger] linked(graph, x, v);
        lemma_exhausted_reach(graph, from, to, routes, seen, x, (h - 1) as nat);
        let i = choose|i: int|
            0 <= i < seen.len() && #[trigger] seen[i] == x && routes[i].len() <= (h - 1) as nat + 1;
        assert(expanded(graph, to, seen, i));
        assert(linked(graph, seen[i], v));
        assert(seen.contains(v));
        let j = choose|j: int| 0 <= j < seen.len() && seen[j] == v;
        if h + 1 < routes[j].len() {
            assert(!reach(graph, from, seen[j], h));
        }
        assert(seen[j] == v && routes[j].len() <= h + 1);
    }
}

/// When the queue is empty and the target was not met, no route within the
/// hop limit leads to it.
pub proof fn lemma_search_exhausted(
    graph: Set<PairId>,
    from: AssetId,
    to: AssetId,
    routes: Seq<Seq<AssetId>>,
    seen: Seq<AssetId>,
)
    requires
        search_inv(graph, from, to, routes, seen, routes.len() as int),
    ensures
        !reachable_within(graph, from, to, MAX_PATH_LENGTH as int),
{
    if reachable_within(graph, from, to, MAX_PATH_LENGTH as int) {
        let route = choose|route: Seq<AssetId>| #[trigger]
            is_route(graph, route, from, to) && route.len() - 1 <= MAX_PATH_LENGTH as int;
        lemma_route_reach(graph, route, from, to);
        let h = (route.len() - 1) as nat;
        lemma_exhausted_reach(graph, from, to, routes, seen, to, h);
        let i = choose|i: int|
            0 <= i < seen.len() && #[trigger] seen[i] == to && routes[i].len() <= h + 1;
        assert(expanded(graph, to, seen, i));
    }
}

/// The assets that a search from `from` can find: the start and the two sides
/// of each edge.
pub open spec fn search_universe(from: AssetId, edges: Seq<PairId>) -> Seq<AssetId> {
    Seq::new(
        1 + 2 * edges.len(),
        |i: int|
            if i == 0 {
                from
            } else if i <= edges.len() {
                edges[i - 1].base
            } else {
                edges[i - 1 - edges.len()].quote
            },
    )
}

/// A search finds at most the start and the two sides of each edge.
pub proof fn lemma_search_bound(
    graph: Set<PairId>,
    edges: Seq<PairId>,
    from: AssetId,
    to: AssetId,
    routes: Seq<Seq<AssetId>>,
    seen: Seq<AssetId>,
    head: int,
)
    requires
        search_inv(graph, from, to, routes, seen, head),
        forall|pair: PairId| graph.contains(pair) <==> edges.contains(pair),
    ensures
        seen.len() <= 1 + 2 * edges.len(),
{
    let universe = search_universe(from, edges);
    assert forall|a: AssetId| seen.to_set().contains(a) implies universe.to_set().contains(a) by {
        let i = choose|i: int| 0 <= i < seen.len() && seen[i] == a;
        let route = routes[i];
        assert(is_route(graph, route, from, seen[i]));
        if route.len() == 1 {
            assert(universe[0] == a);
        } else {
            let x = route[route.len() - 2];
            assert(linked(graph, route[route.len() - 2], route[route.len() - 2 + 1]));
            let forth = PairId { base: x, quote: a };
            let back = PairId { base: a, quote: x };
            if graph.contains(forth) {
                let k = choose|k: int| 0 <= k < edges.len() && edges[k] == forth;
                assert(universe[k + 1 + edges.len()] == a);
            } else {
                assert(graph.contains(back));
                let k = choose|k: int| 0 <= k < edges.len() && edges[k] == back;
                assert(universe[k + 1] == a);
            }
        }
    }
    assert(seen.no_duplicates());
    seen.unique_seq_to_set();
    universe.lemma_cardinality_of_set();
    seq_to_set_is_finite(universe);
    vstd::set_lib::lemma_len_subset(seen.to_set(), universe.to_set());
}


/// The asset that `pair` joins to `asset`, if `asset` is one of its sides.
pub open spec fn joined(pair: PairId, asset: AssetId) -> Option<AssetId> {
    if pair.base == asset {
        Some(pair.quote)
    } else if pair.quote == asset {
        Some(pair.base)
    } else {
        None
    }
}

/// The neighbours of `asset`: what each of `pairs` joins to it, in the order
/// of the pairs.
pub open spec fn neighbors_of(pairs: Seq<PairId>, asset: AssetId) -> Seq<AssetId>
    decreases pairs.len(),
{
    if pairs.len() == 0 {
        Seq::empty()
    } else {
        let earlier = neighbors_of(pairs.drop_last(), asset);
        match joined(pairs.last(), asset) {
            Some(other) => earlier.push(other),
            None => earlier,
        }
    }
}

/// The neighbours of an asset are the assets that a pair links to it.
pub proof fn lemma_neighbors_of(pairs: Seq<PairId>, asset: AssetId)
    ensures
        forall|other: AssetId|
            neighbors_of(pairs, asset).contains(other) <==> linked(pairs.to_set(), asset, other),
    decreases pairs.len(),
{
    if pairs.len() > 0 {
        let shorter = pairs.drop_last();
        let last = pairs.last();
        let earlier = neighbors_of(shorter, asset);
        lemma_neighbors_of(shorter, asset);
        assert forall|other: AssetId|
            neighbors_of(pairs, asset).contains(other) <==> linked(
                pairs.to_set(),
                asset,
                other,
            ) by {
            let forth = PairId { base: asset, quote: other };
            let back = PairId { base: other, quote: asset };
            assert(pairs.to_set().contains(forth) == pairs.contains(forth));
            assert(pairs.to_set().contains(back) == pairs.contains(back));
            assert(shorter.to_set().contains(forth) == shorter.contains(forth));
            assert(shorter.to_set().contains(back) == shorter.contains(back));
            assert(pairs =~= shorter.push(last));
            lemma_pushed_contains(shorter, last, forth);
            lemma_pushed_contains(shorter, last, back);
            assert(earlier.contains(other) <==> linked(shorter.to_set(), asset, other));
            match joined(last, asset) {
                Some(found) => {
                    lemma_pushed_contains(earlier, found, other);
                },
                None => {},
            }
        }
    } else {
        assert forall|other: AssetId|
            neighbors_of(pairs, asset).contains(other) <==> linked(
                pairs.to_set(),
                asset,
                other,
            ) by {
            let forth = PairId { base: asset, quote: other };
            let back = PairId { base: other, quote: asset };
            assert(pairs.to_set().contains(forth) == pairs.contains(forth));
            assert(pairs.to_set().contains(back) == pairs.contains(back));
        }
    }
}

/// What a sequence contains after a push: what it contained, and what was
/// pushed.
pub proof fn lemma_pushed_contains<A>(items: Seq<A>, pushed: A, x: A)
    ensures
        items.push(pushed).contains(x) <==> items.contains(x) || x == pushed,
{
    let longer = items.push(pushed);
    if items.contains(x) {
        let i = choose|i: int| 0 <= i < items.len() && items[i] == x;
        assert(longer[i] == x);
    }
    if x == pushed {
        assert(longer[items.len() as int] == x);
    }
    if longer.contains(x) {
        let i = choose|i: int| 0 <= i < longer.len() && longer[i] == x;
        if i < items.len() {
            assert(items[i] == x);
        }
    }
}

/// The assets at which `routes` end.
pub open spec fn ends(routes: Seq<Seq<AssetId>>) -> Seq<AssetId> {
    Seq::new(routes.len(), |i: int| routes[i].last())
}

/// The queue once the assets of `found` have been looked at in turn: for each
/// of them at which no route ends yet, the route that leads on from `route` to
/// it has joined the queue.
pub open spec fn discover(
    routes: Seq<Seq<AssetId>>,
    route: Seq<AssetId>,
    found: Seq<AssetId>,
) -> Seq<Seq<AssetId>>
    decreases found.len(),
{
    if found.len() == 0 {
        routes
    } else {
        let next = found.first();
        let grown = if ends(routes).contains(next) {
            routes
        } else {
            routes.push(route.push(next))
        };
        discover(grown, route, found.drop_first())
    }
}

/// The route that a breadth-first search finds once the routes before `head`
/// have been dealt with. The route at the head of the queue is the result if
/// it ends at `to`; if not, the routes to its neighbours that are new join the
/// queue, unless the route has more hops than the limit. The search ends
/// without a route where the queue is used up; no queue is longer than a
/// route for the start and one for each side of each pair.
pub open spec fn search_from(
    pairs: Seq<PairId>,
    to: AssetId,
    routes: Seq<Seq<AssetId>>,
    head: nat,
) -> Option<Seq<AssetId>>
    decreases 2 * pairs.len() + 1 - head,
{
    if head >= routes.len() || head > 2 * pairs.len() {
        None
    } else {
        let route = routes[head as int];
        if route.len() > max_route_len() {
            search_from(pairs, to, routes, head + 1)
        } else if route.last() == to {
            Some(route)
        } else {
            search_from(
                pairs,
                to,
                discover(routes, route, neighbors_of(pairs, route.last())),
                head + 1,
            )
        }
    }
}

/// The route from `from` to `to` that a breadth-first search over `pairs`
/// finds: a shortest one, if one within the hop limit exists. Between routes
/// of the same length the order of the pairs decides.
pub open spec fn search(pairs: Seq<PairId>, from: AssetId, to: AssetId) -> Option<Seq<AssetId>> {
    search_from(pairs, to, seq![seq![from]], 0)
}

/// The ends of a queue that a route has joined.
pub proof fn lemma_ends_push(routes: Seq<Seq<AssetId>>, route: Seq<AssetId>)
    ensures
        ends(routes.push(route)) == ends(routes).push(route.last()),
{
    assert(ends(routes.push(route)) =~= ends(routes).push(route.last()));
}

/// In a search state, the assets seen are the ends of the routes.
pub proof fn lemma_seen_are_ends(
    graph: Set<PairId>,
    from: AssetId,
    to: AssetId,
    routes: Seq<Seq<AssetId>>,
    seen: Seq<AssetId>,
    head: int,
)
    requires
        search_inv(graph, from, to, routes, seen, head),
    ensures
        seen == ends(routes),
{
    assert forall|i: int| 0 <= i < routes.len() implies seen[i] == ends(routes)[i] by {
        assert(is_route(graph, routes[i], from, seen[i]));
    }
    assert(seen =~= ends(routes));
}

/// Looking at neighbours of the asset at the head of the queue keeps the
/// search state, leaves the routes that were queued in their places, and ends
/// with a route to each of those neighbours.
pub proof fn lemma_discover(
    graph: Set<PairId>,
    from: AssetId,
    to: AssetId,
    routes: Seq<Seq<AssetId>>,
    head: int,
    found: Seq<AssetId>,
)
    requires
        search_inv(graph, from, to, routes, ends(routes), head),
        head < routes.len(),
        routes[head].len() <= max_route_len(),
        forall|m: int|
            0 <= m < found.len() ==> linked(graph, routes[head].last(), #[trigger] found[m]),
    ensures
        search_inv(
            graph,
            from,
            to,
            discover(routes, routes[head], found),
            ends(discover(routes, routes[head], found)),
            head,
        ),
        discover(routes, routes[head], found).len() >= routes.len(),
        forall|i: int|
            0 <= i < routes.len() ==> (#[trigger] discover(routes, routes[head], found)[i])
                == routes[i],
        forall|m: int|
            0 <= m < found.len() ==> ends(discover(routes, routes[head], found)).contains(
                #[trigger] found[m],
            ),
    decreases found.len(),
{
    let route = routes[head];
    let after = discover(routes, route, found);
    if found.len() > 0 {
        let next = found.first();
        let rest = found.drop_first();
        assert(linked(graph, route.last(), found[0]));
        assert(ends(routes)[head] == route.last());
        let grown = if ends(routes).contains(next) {
            routes
        } else {
            routes.push(route.push(next))
        };
        if !ends(routes).contains(next) {
            lemma_search_discover(graph, from, to, routes, ends(routes), head, next);
            lemma_ends_push(routes, route.push(next));
        }
        assert(grown[head] == route);
        assert forall|m: int| 0 <= m < rest.len() implies linked(
            graph,
            grown[head].last(),
            #[trigger] rest[m],
        ) by {
            assert(rest[m] == found[m + 1]);
        }
        lemma_discover(graph, from, to, grown, head, rest);
        assert(after == discover(grown, route, rest));
        assert(ends(grown).contains(next)) by {
            if !ends(routes).contains(next) {
                assert(ends(grown)[routes.len() as int] == next);
            }
        }
        assert forall|m: int| 0 <= m < found.len() implies ends(after).contains(
            #[trigger] found[m],
        ) by {
            if m == 0 {
                let k = choose|k: int| 0 <= k < ends(grown).len() && ends(grown)[k] == next;
                assert(after[k] == grown[k]);
                assert(ends(after)[k] == next);
            } else {
                assert(rest[m - 1] == found[m]);
            }
        }
        assert forall|i: int| 0 <= i < routes.len() implies (#[trigger] after[i]) == routes[i] by {
            assert(after[i] == grown[i]);
        }
    }
}

/// What a search finds from a state on is a shortest route within the hop
/// limit, and it finds one if there is one.
pub proof fn lemma_search_from(
    pairs: Seq<PairId>,
    from: AssetId,
    to: AssetId,
    routes: Seq<Seq<AssetId>>,
    head: nat,
)
    requires
        search_inv(pairs.to_set(), from, to, routes, ends(routes), head as int),
    ensures
        match search_from(pairs, to, routes, head) {
            Some(route) => is_shortest_route(pairs.to_set(), route, from, to) && route.len()
                <= max_route_len(),
            None => !reachable_within(pairs.to_set(), from, to, MAX_PATH_LENGTH as int),
        },
    decreases 2 * pairs.len() + 1 - head,
{
    let graph = pairs.to_set();
    lemma_search_bound(graph, pairs, from, to, routes, ends(routes), head as int);
    if head >= routes.len() {
        lemma_search_exhausted(graph, from, to, routes, ends(routes));
    } else {
        let route = routes[head as int];
        assert(ends(routes)[head as int] == route.last());
        if route.len() > max_route_len() {
            lemma_search_advance(graph, from, to, routes, ends(routes), head as int);
            lemma_search_from(pairs, from, to, routes, head + 1);
        } else if route.last() == to {
            lemma_search_found(graph, from, to, routes, ends(routes), head as int);
        } else {
            let found = neighbors_of(pairs, route.last());
            let after = discover(routes, route, found);
            lemma_neighbors_of(pairs, route.last());
            assert forall|m: int| 0 <= m < found.len() implies linked(
                graph,
                route.last(),
                #[trigger] found[m],
            ) by {
                assert(found.contains(found[m]));
            }
            lemma_discover(graph, from, to, routes, head as int, found);
            assert(after[head as int] == route);
            assert(ends(after)[head as int] == route.last());
            assert(expanded(graph, to, ends(after), head as int)) by {
                assert forall|w: AssetId| #[trigger]
                    linked(graph, ends(after)[head as int], w) implies ends(after).contains(
                    w,
                ) by {
                    assert(found.contains(w));
                    let m = choose|m: int| 0 <= m < found.len() && found[m] == w;
                    assert(ends(after).contains(found[m]));
                }
            }
            lemma_search_advance(graph, from, to, after, ends(after), head as int);
            lemma_search_from(pairs, from, to, after, head + 1);
        }
    }
}

/// What a search finds is a shortest route from `from` to `to` of no more
/// hops than the limit, and it finds one exactly if there is a route within
/// the limit.
pub proof fn lemma_search(pairs: Seq<PairId>, from: AssetId, to: AssetId)
    ensures
        match search(pairs, from, to) {
            Some(route) => is_shortest_route(pairs.to_set(), route, from, to) && route.len() - 1
                <= MAX_PATH_LENGTH,
            None => !reachable_within(pairs.to_set(), from, to, MAX_PATH_LENGTH as int),
        },
        search(pairs, from, to) is Some <==> reachable_within(
            pairs.to_set(),
            from,
            to,
            MAX_PATH_LENGTH as int,
        ),
{
    let routes = seq![seq![from]];
    lemma_search_start(pairs.to_set(), from, to);
    assert(ends(routes) =~= seq![from]);
    lemma_search_from(pairs, from, to, routes, 0);
    if search(pairs, from, to) is Some {
        let route = search(pairs, from, to)->0;
        assert(is_route(pairs.to_set(), route, from, to));
    }
}

/// Where no pair joins two distinct assets `a` and `b`, but `a` is joined to
/// `c` and `c` to `b`, the route over `c` is a shortest route, and every
/// shortest route from `a` to `b` has two hops.
pub proof fn lemma_two_hop_route(graph: Set<PairId>, a: AssetId, b: AssetId, c: AssetId)
    requires
        a != b,
        !linked(graph, a, b),
        linked(graph, a, c),
        linked(graph, c, b),
    ensures
        is_shortest_route(graph, seq![a, c, b], a, b),
        reachable_within(graph, a, b, MAX_PATH_LENGTH as int),
        forall|route: Seq<AssetId>| #[trigger]
            is_shortest_route(graph, route, a, b) ==> route.len() == 3,
{
    let over = seq![a, c, b];
    assert(is_route(graph, over, a, b)) by {
        assert forall|i: int| 0 <= i < over.len() - 1 implies linked(
            graph,
            #[trigger] over[i],
            over[i + 1],
        ) by {
            if i == 0 {
                assert(over[0] == a && over[1] == c);
            } else {
                assert(over[1] == c && over[2] == b);
            }
        }
    }
    assert forall|other: Seq<AssetId>| #[trigger] is_route(graph, other, a, b) implies over.len()
        <= other.len() by {
        if other.len() == 2 {
            assert(linked(graph, other[0], other[0int + 1]));
        }
    }
    assert forall|route: Seq<AssetId>| #[trigger]
        is_shortest_route(graph, route, a, b) implies route.len() == 3 by {
        assert(is_route(graph, over, a, b));
        assert(is_route(graph, route, a, b));
    }
}

/// Where, besides, `c` is the only asset that is joined to both `a` and `b`,
/// the route over `c` is the only shortest route from `a` to `b`.
pub proof fn lemma_only_route_over(graph: Set<PairId>, a: AssetId, b: AssetId, c: AssetId)
    requires
        a != b,
        !linked(graph, a, b),
        linked(graph, a, c),
        linked(graph, c, b),
        forall|x: AssetId| linked(graph, a, x) && #[trigger] linked(graph, x, b) ==> x == c,
    ensures
        forall|route: Seq<AssetId>| #[trigger]
            is_shortest_route(graph, route, a, b) ==> route == seq![a, c, b],
{
    lemma_two_hop_route(graph, a, b, c);
    assert forall|route: Seq<AssetId>| #[trigger]
        is_shortest_route(graph, route, a, b) implies route == seq![a, c, b] by {
        assert(route.len() == 3);
        assert(linked(graph, route[0], route[0int + 1]));
        assert(linked(graph, route[1], route[1int + 1]));
        assert(route =~= seq![a, c, b]);
    }
}

/// Where no pair joins two distinct assets `a` and `b`, but `a` is joined to
/// `c` and `c` to `b`, the search finds a route of two hops from `a` to `b`;
/// it finds the route over `c` where no other asset is joined to both.
pub proof fn lemma_search_two_hops(pairs: Seq<PairId>, a: AssetId, b: AssetId, c: AssetId)
    requires
        a != b,
        !linked(pairs.to_set(), a, b),
        linked(pairs.to_set(), a, c),
        linked(pairs.to_set(), c, b),
    ensures
        search(pairs, a, b) matches Some(route) && route.len() == 3 && route[0] == a && route[2]
            == b,
        (forall|x: AssetId|
            linked(pairs.to_set(), a, x) && #[trigger] linked(pairs.to_set(), x, b) ==> x == c)
            ==> search(pairs, a, b) == Some(seq![a, c, b]),
{
    let graph = pairs.to_set();
    lemma_two_hop_route(graph, a, b, c);
    lemma_search(pairs, a, b);
    let route = search(pairs, a, b)->0;
    assert(is_shortest_route(graph, route, a, b));
    if forall|x: AssetId| linked(graph, a, x) && #[trigger] linked(graph, x, b) ==> x == c {
        lemma_only_route_over(graph, a, b, c);
    }
}

/// Where every route between two assets has more hops than the limit, none is
/// within it, and the search finds none.
pub proof fn lemma_route_beyond_limit(pairs: Seq<PairId>, from: AssetId, to: AssetId)
    requires
        forall|route: Seq<AssetId>| #[trigger]
            is_route(pairs.to_set(), route, from, to) ==> route.len() - 1 > MAX_PATH_LENGTH,
    ensures
        !reachable_within(pairs.to_set(), from, to, MAX_PATH_LENGTH as int),
        search(pairs, from, to) is None,
{
    lemma_search(pairs, from, to);
}

} // verus!
