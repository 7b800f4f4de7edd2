//! Walks in directed graphs given by their sets of edges: reachability, cycles,
//! connection regardless of direction, and topological orders.

use vstd::prelude::*;

verus! {

/// The walk takes an edge from its `i`-th node to the next.
pub open spec fn step<T>(edges: Set<(T, T)>, walk: Seq<T>, i: int) -> bool {
    edges.contains((walk[i], walk[i + 1]))
}

/// A walk is a non-empty list of nodes, each joined to the next by an edge.
pub open spec fn is_walk<T>(edges: Set<(T, T)>, walk: Seq<T>) -> bool {
    walk.len() >= 1 && forall|i: int| 0 <= i < walk.len() - 1 ==> #[trigger] step(edges, walk, i)
}

/// The walk leads from `from` to `to`.
pub open spec fn joins<T>(edges: Set<(T, T)>, walk: Seq<T>, from: T, to: T) -> bool {
    is_walk(edges, walk) && walk[0] == from && walk[walk.len() - 1] == to
}

/// Some walk leads from `from` to `to`. Every node reaches itself.
pub open spec fn reachable<T>(edges: Set<(T, T)>, from: T, to: T) -> bool {
    exists|walk: Seq<T>| joins(edges, walk, from, to)
}

/// Some walk of at least one edge leads from `at` back to `at`.
pub open spec fn on_cycle<T>(edges: Set<(T, T)>, at: T) -> bool {
    exists|walk: Seq<T>| walk.len() >= 2 && joins(edges, walk, at, at)
}

/// Each of the two nodes reaches the other.
pub open spec fn same_cycle<T>(edges: Set<(T, T)>, a: T, b: T) -> bool {
    reachable(edges, a, b) && reachable(edges, b, a)
}

/// The edges together with their reverses.
pub open spec fn both_ways<T>(edges: Set<(T, T)>) -> Set<(T, T)> {
    Set::new(|e: (T, T)| edges.contains(e) || edges.contains((e.1, e.0)))
}

/// Some walk leads from `a` to `b` when the direction of edges is ignored.
pub open spec fn connected<T>(edges: Set<(T, T)>, a: T, b: T) -> bool {
    reachable(both_ways(edges), a, b)
}

/// No edge leads from a node of `order` to one that stands at or before it.
pub open spec fn respects<T>(edges: Set<(T, T)>, order: Seq<T>) -> bool {
    forall|i: int, j: int|
        0 <= i <= j < order.len() ==> !edges.contains((#[trigger] order[j], #[trigger] order[i]))
}

pub proof fn lemma_reachable_self<T>(edges: Set<(T, T)>, a: T)
    ensures
        reachable(edges, a, a),
{
    assert(joins(edges, seq![a], a, a));
}

pub proof fn lemma_reachable_edge<T>(edges: Set<(T, T)>, a: T, b: T)
    requires
        edges.contains((a, b)),
    ensures
        reachable(edges, a, b),
{
    let walk = seq![a, b];
    assert forall|i: int| 0 <= i < walk.len() - 1 implies #[trigger] step(edges, walk, i) by {
        assert(walk[0] == a && walk[1] == b);
    }
    assert(joins(edges, walk, a, b));
}

/// Two walks that meet make one walk.
pub proof fn lemma_join_walks<T>(edges: Set<(T, T)>, first: Seq<T>, second: Seq<T>)
    requires
        is_walk(edges, first),
        is_walk(edges, second),
        first[first.len() - 1] == second[0],
    ensures
        is_walk(edges, first + second.drop_first()),
        (first + second.drop_first())[0] == first[0],
        (first + second.drop_first())[first.len() + second.len() - 2] == second[second.len() - 1],
        (first + second.drop_first()).len() == first.len() + second.len() - 1,
{
    let walk = first + second.drop_first();
    assert forall|i: int| 0 <= i < walk.len() - 1 implies #[trigger] step(edges, walk, i) by {
        if i < first.len() - 1 {
            assert(step(edges, first, i));
        } else {
            let k = i - (first.len() - 1);
            assert(step(edges, second, k));
            assert(walk[i] == second[k]);
            assert(walk[i + 1] == second[k + 1]);
        }
    }
}

pub proof fn lemma_reachable_trans<T>(edges: Set<(T, T)>, a: T, b: T, c: T)
    requires
        reachable(edges, a, b),
        reachable(edges, b, c),
    ensures
        reachable(edges, a, c),
{
    let first = choose|walk: Seq<T>| joins(edges, walk, a, b);
    let second = choose|walk: Seq<T>| joins(edges, walk, b, c);
    lemma_join_walks(edges, first, second);
    assert(joins(edges, first + second.drop_first(), a, c));
}

/// A map of nodes that carries edges to edges carries walks to walks.
pub proof fn lemma_walk_image<T, U>(
    edges: Set<(T, T)>,
    image: Set<(U, U)>,
    f: spec_fn(T) -> U,
    walk: Seq<T>,
)
    requires
        is_walk(edges, walk),
        forall|a: T, b: T| #[trigger] edges.contains((a, b)) ==> image.contains((f(a), f(b))),
    ensures
        is_walk(image, walk.map_values(f)),
{
    let mapped = walk.map_values(f);
    assert forall|i: int| 0 <= i < mapped.len() - 1 implies #[trigger] step(image, mapped, i) by {
        assert(step(edges, walk, i));
        assert(edges.contains((walk[i], walk[i + 1])));
    }
}

pub proof fn lemma_reachable_image<T, U>(
    edges: Set<(T, T)>,
    image: Set<(U, U)>,
    f: spec_fn(T) -> U,
    a: T,
    b: T,
)
    requires
        reachable(edges, a, b),
        forall|x: T, y: T| #[trigger] edges.contains((x, y)) ==> image.contains((f(x), f(y))),
    ensures
        reachable(image, f(a), f(b)),
{
    let walk = choose|walk: Seq<T>| joins(edges, walk, a, b);
    lemma_walk_image(edges, image, f, walk);
    assert(joins(image, walk.map_values(f), f(a), f(b)));
}

pub proof fn lemma_cycle_image<T, U>(
    edges: Set<(T, T)>,
    image: Set<(U, U)>,
    f: spec_fn(T) -> U,
    a: T,
)
    requires
        on_cycle(edges, a),
        forall|x: T, y: T| #[trigger] edges.contains((x, y)) ==> image.contains((f(x), f(y))),
    ensures
        on_cycle(image, f(a)),
{
    let walk = choose|walk: Seq<T>| walk.len() >= 2 && joins(edges, walk, a, a);
    lemma_walk_image(edges, image, f, walk);
    let mapped = walk.map_values(f);
    assert(mapped.len() >= 2 && joins(image, mapped, f(a), f(a)));
}

/// More edges keep what was reachable.
pub proof fn lemma_reachable_more<T>(edges: Set<(T, T)>, more: Set<(T, T)>, a: T, b: T)
    requires
        reachable(edges, a, b),
        edges.subset_of(more),
    ensures
        reachable(more, a, b),
{
    let walk = choose|walk: Seq<T>| joins(edges, walk, a, b);
    assert forall|i: int| 0 <= i < walk.len() - 1 implies #[trigger] step(more, walk, i) by {
        assert(step(edges, walk, i));
    }
    assert(joins(more, walk, a, b));
}

/// A walk read backwards is a walk when direction is ignored.
pub proof fn lemma_connected_back<T>(edges: Set<(T, T)>, a: T, b: T)
    requires
        connected(edges, a, b),
    ensures
        connected(edges, b, a),
{
    let sym = both_ways(edges);
    let walk = choose|walk: Seq<T>| joins(sym, walk, a, b);
    let back = walk.reverse();
    assert forall|i: int| 0 <= i < back.len() - 1 implies #[trigger] step(sym, back, i) by {
        let k = walk.len() - 2 - i;
        assert(step(sym, walk, k));
        assert(back[i] == walk[k + 1]);
        assert(back[i + 1] == walk[k]);
    }
    assert(joins(sym, back, b, a));
}

/// What a node reaches, it is connected to.
pub proof fn lemma_reachable_connected<T>(edges: Set<(T, T)>, a: T, b: T)
    requires
        reachable(edges, a, b),
    ensures
        connected(edges, a, b),
        connected(edges, b, a),
{
    lemma_reachable_more(edges, both_ways(edges), a, b);
    lemma_connected_back(edges, a, b);
}

/// Along a walk inside a list that `respects` the edges, positions only grow.
pub proof fn lemma_walk_climbs<T>(edges: Set<(T, T)>, order: Seq<T>, walk: Seq<T>, i: int, j: int)
    requires
        respects(edges, order),
        is_walk(edges, walk),
        walk.len() >= 2,
        forall|k: int| 0 <= k < walk.len() ==> order.contains(#[trigger] walk[k]),
        0 <= i < order.len(),
        0 <= j < order.len(),
        order[i] == walk[0],
        order[j] == walk[walk.len() - 1],
    ensures
        i < j,
    decreases walk.len(),
{
    let last = walk.len() - 1;
    assert(step(edges, walk, last - 1));
    assert(order.contains(walk[last - 1]));
    let m = choose|m: int| 0 <= m < order.len() && order[m] == walk[last - 1];
    assert(edges.contains((order[m], order[j])));
    if m >= j {
        assert(!edges.contains((order[m], order[j])));
    }
    if walk.len() > 2 {
        let shorter = walk.drop_last();
        assert forall|k: int| 0 <= k < shorter.len() - 1 implies #[trigger] step(
            edges,
            shorter,
            k,
        ) by {
            assert(step(edges, walk, k));
        }
        assert forall|k: int| 0 <= k < shorter.len() implies order.contains(
            #[trigger] shorter[k],
        ) by {
            assert(shorter[k] == walk[k]);
        }
        lemma_walk_climbs(edges, order, shorter, i, m);
    } else {
        assert(walk[0] == walk[last - 1]);
        if i >= j {
            assert(!edges.contains((order[i], order[j])));
        }
    }
}

/// The first nodes of a walk are a walk.
pub proof fn lemma_walk_prefix<T>(edges: Set<(T, T)>, walk: Seq<T>, k: int)
    requires
        is_walk(edges, walk),
        0 <= k < walk.len(),
    ensures
        joins(edges, walk.take(k + 1), walk[0], walk[k]),
{
    let first = walk.take(k + 1);
    assert forall|i: int| 0 <= i < first.len() - 1 implies #[trigger] step(edges, first, i) by {
        assert(step(edges, walk, i));
    }
}

/// Where a list without repetition holds exactly what `start` is connected to
/// and `respects` the edges, nothing that `start` is connected to lies on a cycle.
pub proof fn lemma_order_excludes_cycles<T>(edges: Set<(T, T)>, start: T, order: Seq<T>, at: T)
    requires
        forall|c: T| #[trigger] order.contains(c) <==> connected(edges, start, c),
        respects(edges, order),
        connected(edges, start, at),
    ensures
        !on_cycle(edges, at),
{
    if on_cycle(edges, at) {
        let walk = choose|walk: Seq<T>| walk.len() >= 2 && joins(edges, walk, at, at);
        assert forall|k: int| 0 <= k < walk.len() implies order.contains(#[trigger] walk[k]) by {
            lemma_walk_prefix(edges, walk, k);
            assert(reachable(edges, at, walk[k]));
            lemma_reachable_connected(edges, at, walk[k]);
            lemma_reachable_trans(both_ways(edges), start, at, walk[k]);
        }
        assert(order.contains(at));
        let i = choose|i: int| 0 <= i < order.len() && order[i] == at;
        lemma_walk_climbs(edges, order, walk, i, i);
    }
}

/// What a node reaches is what the nodes of its strongly connected component reach.
pub proof fn lemma_reach_of_component<T>(edges: Set<(T, T)>, at: T, to: T)
    ensures
        reachable(edges, at, to) <==> exists|via: T|
            #[trigger] same_cycle(edges, at, via) && reachable(edges, via, to),
{
    if reachable(edges, at, to) {
        lemma_reachable_self(edges, at);
        assert(same_cycle(edges, at, at));
    }
    if exists|via: T| #[trigger] same_cycle(edges, at, via) && reachable(edges, via, to) {
        let via = choose|via: T| #[trigger] same_cycle(edges, at, via) && reachable(edges, via, to);
        lemma_reachable_trans(edges, at, via, to);
    }
}

/// What is reached is reached by a walk that does not come back to where it began.
pub proof fn lemma_walk_without_return<T>(edges: Set<(T, T)>, walk: Seq<T>) -> (short: Seq<T>)
    requires
        is_walk(edges, walk),
    ensures
        joins(edges, short, walk[0], walk[walk.len() - 1]),
        forall|i: int| 1 <= i < short.len() ==> #[trigger] short[i] != walk[0],
    decreases walk.len(),
{
    if exists|i: int| 1 <= i < walk.len() && #[trigger] walk[i] == walk[0] {
        let i = choose|i: int| 1 <= i < walk.len() && #[trigger] walk[i] == walk[0];
        let rest = walk.skip(i);
        assert forall|k: int| 0 <= k < rest.len() - 1 implies #[trigger] step(edges, rest, k) by {
            assert(step(edges, walk, k + i));
        }
        lemma_walk_without_return(edges, rest)
    } else {
        walk
    }
}

} // verus!
