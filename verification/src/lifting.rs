//! Graphs whose nodes are numbered and carry coordinates: what the edges
//! between node indices say of the coordinates.

use crate::cell::Coord;
use crate::graph::{edge_set, swap_removed};
use crate::walks::{
    both_ways, connected, joins, lemma_cycle_image, lemma_reachable_image, on_cycle, reachable,
    step,
};
use vstd::prelude::*;

verus! {

/// The edge `link` between node indices is the edge `e` between coordinates.
pub open spec fn carries(cells: Seq<Coord>, link: (usize, usize), e: (Coord, Coord)) -> bool {
    &&& link.0 < cells.len()
    &&& link.1 < cells.len()
    &&& cells[link.0 as int] == e.0
    &&& cells[link.1 as int] == e.1
}

/// The edges between coordinates that a list of edges between node indices stands for.
pub open spec fn lifted(cells: Seq<Coord>, links: Seq<(usize, usize)>) -> Set<(Coord, Coord)> {
    Set::new(
        |e: (Coord, Coord)|
            exists|k: int| 0 <= k < links.len() && #[trigger] carries(cells, links[k], e),
    )
}

/// Every edge joins two nodes that exist.
pub open spec fn links_fit(cells: Seq<Coord>, links: Seq<(usize, usize)>) -> bool {
    forall|k: int|
        0 <= k < links.len() ==> (#[trigger] links[k]).0 < cells.len() && links[k].1 < cells.len()
}

/// No coordinate on two nodes, no two edges alike, no edge without its nodes.
pub open spec fn tidy(cells: Seq<Coord>, links: Seq<(usize, usize)>) -> bool {
    &&& cells.len() <= usize::MAX
    &&& cells.no_duplicates()
    &&& links.no_duplicates()
    &&& links_fit(cells, links)
}

/// A new node changes no edge.
pub proof fn lemma_lifted_node(cells: Seq<Coord>, links: Seq<(usize, usize)>, at: Coord)
    requires
        links_fit(cells, links),
    ensures
        lifted(cells.push(at), links) == lifted(cells, links),
        links_fit(cells.push(at), links),
{
    let more = cells.push(at);
    assert forall|e: (Coord, Coord)| lifted(more, links).contains(e) == lifted(cells, links).contains(
        e,
    ) by {
        if lifted(more, links).contains(e) {
            let k = choose|k: int| 0 <= k < links.len() && #[trigger] carries(more, links[k], e);
            assert(carries(cells, links[k], e));
        }
        if lifted(cells, links).contains(e) {
            let k = choose|k: int| 0 <= k < links.len() && #[trigger] carries(cells, links[k], e);
            assert(carries(more, links[k], e));
        }
    }
    assert(lifted(more, links) =~= lifted(cells, links));
}

/// A new edge between two nodes is a new edge between their coordinates.
pub proof fn lemma_lifted_link(cells: Seq<Coord>, links: Seq<(usize, usize)>, from: usize, to: usize)
    requires
        from < cells.len(),
        to < cells.len(),
    ensures
        lifted(cells, links.push((from, to))) == lifted(cells, links).insert(
            (cells[from as int], cells[to as int]),
        ),
{
    let more = links.push((from, to));
    let added = (cells[from as int], cells[to as int]);
    assert forall|e: (Coord, Coord)| lifted(cells, more).contains(e) == lifted(cells, links).insert(
        added,
    ).contains(e) by {
        if lifted(cells, more).contains(e) {
            let k = choose|k: int| 0 <= k < more.len() && #[trigger] carries(cells, more[k], e);
            if k < links.len() {
                assert(carries(cells, links[k], e));
            }
        }
        if lifted(cells, links).contains(e) {
            let k = choose|k: int| 0 <= k < links.len() && #[trigger] carries(cells, links[k], e);
            assert(carries(cells, more[k], e));
        }
        if e == added {
            assert(carries(cells, more[links.len() as int], e));
        }
    }
    assert(lifted(cells, more) =~= lifted(cells, links).insert(added));
}

/// An edge that is there already is there between the coordinates too.
pub proof fn lemma_lifted_has(cells: Seq<Coord>, links: Seq<(usize, usize)>, from: usize, to: usize)
    requires
        from < cells.len(),
        to < cells.len(),
        links.contains((from, to)),
    ensures
        lifted(cells, links).contains((cells[from as int], cells[to as int])),
{
    let k = choose|k: int| 0 <= k < links.len() && links[k] == (from, to);
    assert(carries(cells, links[k], (cells[from as int], cells[to as int])));
}

/// Between coordinates there is an edge only where there is one between their nodes.
pub proof fn lemma_lifted_back(cells: Seq<Coord>, links: Seq<(usize, usize)>, from: usize, to: usize)
    requires
        cells.no_duplicates(),
        from < cells.len(),
        to < cells.len(),
        lifted(cells, links).contains((cells[from as int], cells[to as int])),
    ensures
        links.contains((from, to)),
{
    let e = (cells[from as int], cells[to as int]);
    let k = choose|k: int| 0 <= k < links.len() && #[trigger] carries(cells, links[k], e);
    assert(links[k].0 == from);
    assert(links[k].1 == to);
    assert(links[k] == (from, to));
}

/// Taking an edge out takes out the edge between its coordinates, and no other.
pub proof fn lemma_lifted_removed(cells: Seq<Coord>, links: Seq<(usize, usize)>, i: int)
    requires
        tidy(cells, links),
        0 <= i < links.len(),
    ensures
        tidy(cells, swap_removed(links, i)),
        lifted(cells, swap_removed(links, i)) == lifted(cells, links).remove(
            (cells[links[i].0 as int], cells[links[i].1 as int]),
        ),
        forall|link: (usize, usize)|
            swap_removed(links, i).contains(link) <==> links.contains(link) && link != links[i],
{
    let fewer = swap_removed(links, i);
    let last = links.len() - 1;
    let gone = (cells[links[i].0 as int], cells[links[i].1 as int]);
    assert forall|k: int| 0 <= k < fewer.len() implies (#[trigger] fewer[k]).0 < cells.len()
        && fewer[k].1 < cells.len() by {
        if k == i {
            assert(fewer[k] == links[last]);
        } else {
            assert(fewer[k] == links[k]);
        }
    }
    assert forall|k: int, l: int| 0 <= k < fewer.len() && 0 <= l < fewer.len() && k != l implies fewer[k]
        != fewer[l] by {
        let ko = if k == i { last } else { k };
        let lo = if l == i { last } else { l };
        assert(fewer[k] == links[ko]);
        assert(fewer[l] == links[lo]);
    }
    assert forall|link: (usize, usize)| fewer.contains(link) <==> links.contains(link) && link
        != links[i] by {
        if fewer.contains(link) {
            let k = choose|k: int| 0 <= k < fewer.len() && fewer[k] == link;
            let ko = if k == i { last } else { k };
            assert(fewer[k] == links[ko]);
            assert(ko != i);
        }
        if links.contains(link) && link != links[i] {
            let k = choose|k: int| 0 <= k < links.len() && links[k] == link;
            if k == last {
                assert(fewer[i] == link);
            } else {
                assert(fewer[k] == link);
            }
        }
    }
    assert forall|e: (Coord, Coord)| lifted(cells, fewer).contains(e) == lifted(cells, links).remove(
        gone,
    ).contains(e) by {
        if lifted(cells, fewer).contains(e) {
            let k = choose|k: int| 0 <= k < fewer.len() && #[trigger] carries(cells, fewer[k], e);
            let ko = if k == i { last } else { k };
            assert(fewer[k] == links[ko]);
            assert(carries(cells, links[ko], e));
            if e == gone {
                assert(links[ko] == links[i]);
            }
        }
        if lifted(cells, links).contains(e) && e != gone {
            let k = choose|k: int| 0 <= k < links.len() && #[trigger] carries(cells, links[k], e);
            assert(k != i);
            if k == last {
                assert(carries(cells, fewer[i], e));
            } else {
                assert(carries(cells, fewer[k], e));
            }
        }
    }
    assert(lifted(cells, fewer) =~= lifted(cells, links).remove(gone));
}

/// The index of the node that carries `at`.
pub open spec fn node_of(cells: Seq<Coord>, at: Coord) -> usize {
    choose|v: usize| v < cells.len() && cells[v as int] == at
}

/// A coordinate that some node carries has a node.
pub proof fn lemma_node_of(cells: Seq<Coord>, at: Coord)
    requires
        cells.len() <= usize::MAX,
        cells.contains(at),
    ensures
        node_of(cells, at) < cells.len(),
        cells[node_of(cells, at) as int] == at,
{
    let i = choose|i: int| 0 <= i < cells.len() && cells[i] == at;
    let v = i as usize;
    assert(v < cells.len() && cells[v as int] == at);
}

/// What is reached over edges between nodes is a node.
pub proof fn lemma_reach_stays(edges: Set<(usize, usize)>, count: nat, from: usize, to: usize)
    requires
        forall|a: usize, b: usize| #[trigger] edges.contains((a, b)) ==> a < count && b < count,
        from < count,
        reachable(edges, from, to),
    ensures
        to < count,
{
    let walk = choose|walk: Seq<usize>| joins(edges, walk, from, to);
    if walk.len() > 1 {
        assert(step(edges, walk, walk.len() - 2));
    }
}

/// The edges of a tidy graph, read in either direction, join nodes.
pub proof fn lemma_links_join(cells: Seq<Coord>, links: Seq<(usize, usize)>)
    requires
        links_fit(cells, links),
    ensures
        forall|a: usize, b: usize| #[trigger]
            edge_set(links).contains((a, b)) ==> a < cells.len() && b < cells.len(),
        forall|a: usize, b: usize| #[trigger]
            both_ways(edge_set(links)).contains((a, b)) ==> a < cells.len() && b < cells.len(),
{
    assert forall|a: usize, b: usize| #[trigger] edge_set(links).contains((a, b)) implies a
        < cells.len() && b < cells.len() by {
        let k = choose|k: int| 0 <= k < links.len() && links[k] == (a, b);
        assert(links[k].0 < cells.len());
    }
    assert forall|a: usize, b: usize| #[trigger] both_ways(edge_set(links)).contains((a, b)) implies a
        < cells.len() && b < cells.len() by {
        if edge_set(links).contains((a, b)) {
        } else {
            assert(edge_set(links).contains((b, a)));
        }
    }
}

/// Carrying node indices to coordinates keeps edges, in one direction and in both.
pub proof fn lemma_lift_edges(cells: Seq<Coord>, links: Seq<(usize, usize)>)
    requires
        links_fit(cells, links),
    ensures
        forall|a: usize, b: usize| #[trigger]
            edge_set(links).contains((a, b)) ==> lifted(cells, links).contains(
                (cells[a as int], cells[b as int]),
            ),
        forall|a: usize, b: usize| #[trigger]
            both_ways(edge_set(links)).contains((a, b)) ==> both_ways(lifted(cells, links)).contains(
                (cells[a as int], cells[b as int]),
            ),
{
    lemma_links_join(cells, links);
    assert forall|a: usize, b: usize| #[trigger] edge_set(links).contains((a, b)) implies lifted(
        cells,
        links,
    ).contains((cells[a as int], cells[b as int])) by {
        lemma_lifted_has(cells, links, a, b);
    }
    assert forall|a: usize, b: usize| #[trigger]
        both_ways(edge_set(links)).contains((a, b)) implies both_ways(lifted(cells, links)).contains(
        (cells[a as int], cells[b as int]),
    ) by {
        if edge_set(links).contains((a, b)) {
            lemma_lifted_has(cells, links, a, b);
        } else {
            assert(edge_set(links).contains((b, a)));
            lemma_lifted_has(cells, links, b, a);
        }
    }
}

/// Carrying coordinates to node indices keeps edges, in one direction and in both.
pub proof fn lemma_lower_edges(cells: Seq<Coord>, links: Seq<(usize, usize)>)
    requires
        tidy(cells, links),
    ensures
        forall|v: usize| v < cells.len() ==> node_of(cells, #[trigger] cells[v as int]) == v,
        forall|x: Coord, y: Coord| #[trigger]
            lifted(cells, links).contains((x, y)) ==> edge_set(links).contains(
                (node_of(cells, x), node_of(cells, y)),
            ) && cells[node_of(cells, x) as int] == x && cells[node_of(cells, y) as int] == y,
        forall|x: Coord, y: Coord| #[trigger]
            both_ways(lifted(cells, links)).contains((x, y)) ==> both_ways(edge_set(links)).contains(
                (node_of(cells, x), node_of(cells, y)),
            ) && cells[node_of(cells, x) as int] == x && cells[node_of(cells, y) as int] == y,
{
    assert forall|v: usize| v < cells.len() implies node_of(cells, #[trigger] cells[v as int])
        == v by {
        let w = node_of(cells, cells[v as int]);
        assert(w < cells.len() && cells[w as int] == cells[v as int]);
    }
    assert forall|x: Coord, y: Coord| #[trigger] lifted(cells, links).contains((x, y)) implies edge_set(
        links,
    ).contains((node_of(cells, x), node_of(cells, y))) && cells[node_of(cells, x) as int] == x
        && cells[node_of(cells, y) as int] == y by {
        let k = choose|k: int| 0 <= k < links.len() && #[trigger] carries(cells, links[k], (x, y));
        assert(node_of(cells, cells[links[k].0 as int]) == links[k].0);
        assert(node_of(cells, cells[links[k].1 as int]) == links[k].1);
        assert(links[k] == (node_of(cells, x), node_of(cells, y)));
    }
    assert forall|x: Coord, y: Coord| #[trigger]
        both_ways(lifted(cells, links)).contains((x, y)) implies both_ways(edge_set(links)).contains(
        (node_of(cells, x), node_of(cells, y)),
    ) && cells[node_of(cells, x) as int] == x && cells[node_of(cells, y) as int] == y by {
        if lifted(cells, links).contains((x, y)) {
        } else {
            assert(lifted(cells, links).contains((y, x)));
        }
    }
}

/// A walk from a node leads to a node.
pub proof fn lemma_walk_ends_at_node(
    cells: Seq<Coord>,
    edges: Set<(Coord, Coord)>,
    from: Coord,
    to: Coord,
)
    requires
        forall|x: Coord, y: Coord| #[trigger] edges.contains((x, y)) ==> cells.contains(y),
        cells.contains(from),
        reachable(edges, from, to),
    ensures
        cells.contains(to),
{
    let walk = choose|walk: Seq<Coord>| joins(edges, walk, from, to);
    if walk.len() > 1 {
        assert(step(edges, walk, walk.len() - 2));
    }
}

/// What a node reaches, its coordinate reaches.
pub proof fn lemma_lift_reach(cells: Seq<Coord>, links: Seq<(usize, usize)>, from: usize, to: usize)
    requires
        tidy(cells, links),
        from < cells.len(),
    ensures
        reachable(edge_set(links), from, to) ==> to < cells.len() && reachable(
            lifted(cells, links),
            cells[from as int],
            cells[to as int],
        ),
        connected(edge_set(links), from, to) ==> to < cells.len() && connected(
            lifted(cells, links),
            cells[from as int],
            cells[to as int],
        ),
        on_cycle(edge_set(links), from) ==> on_cycle(lifted(cells, links), cells[from as int]),
{
    lemma_links_join(cells, links);
    lemma_lift_edges(cells, links);
    let f = |v: usize| cells[v as int];
    if reachable(edge_set(links), from, to) {
        lemma_reach_stays(edge_set(links), cells.len(), from, to);
        lemma_reachable_image(edge_set(links), lifted(cells, links), f, from, to);
    }
    if connected(edge_set(links), from, to) {
        lemma_reach_stays(both_ways(edge_set(links)), cells.len(), from, to);
        lemma_reachable_image(
            both_ways(edge_set(links)),
            both_ways(lifted(cells, links)),
            f,
            from,
            to,
        );
    }
    if on_cycle(edge_set(links), from) {
        lemma_cycle_image(edge_set(links), lifted(cells, links), f, from);
    }
}

/// What a coordinate reaches, its node reaches.
pub proof fn lemma_lower_reach(cells: Seq<Coord>, links: Seq<(usize, usize)>, from: usize, to: Coord)
    requires
        tidy(cells, links),
        from < cells.len(),
    ensures
        reachable(lifted(cells, links), cells[from as int], to) ==> node_of(cells, to) < cells.len()
            && cells[node_of(cells, to) as int] == to && reachable(
            edge_set(links),
            from,
            node_of(cells, to),
        ),
        connected(lifted(cells, links), cells[from as int], to) ==> node_of(cells, to) < cells.len()
            && cells[node_of(cells, to) as int] == to && connected(
            edge_set(links),
            from,
            node_of(cells, to),
        ),
        on_cycle(lifted(cells, links), cells[from as int]) ==> on_cycle(edge_set(links), from),
{
    lemma_lower_edges(cells, links);
    let g = |c: Coord| node_of(cells, c);
    let here = cells[from as int];
    assert(cells.contains(here));
    assert(node_of(cells, here) == from);
    if reachable(lifted(cells, links), here, to) {
        assert forall|x: Coord, y: Coord| #[trigger]
            lifted(cells, links).contains((x, y)) implies cells.contains(y) by {
            assert(cells[node_of(cells, y) as int] == y);
        }
        lemma_walk_ends_at_node(cells, lifted(cells, links), here, to);
        lemma_node_of(cells, to);
        lemma_reachable_image(lifted(cells, links), edge_set(links), g, here, to);
    }
    if connected(lifted(cells, links), here, to) {
        assert forall|x: Coord, y: Coord| #[trigger]
            both_ways(lifted(cells, links)).contains((x, y)) implies cells.contains(y) by {
            assert(cells[node_of(cells, y) as int] == y);
        }
        lemma_walk_ends_at_node(cells, both_ways(lifted(cells, links)), here, to);
        lemma_node_of(cells, to);
        lemma_reachable_image(
            both_ways(lifted(cells, links)),
            both_ways(edge_set(links)),
            g,
            here,
            to,
        );
    }
    if on_cycle(lifted(cells, links), here) {
        lemma_cycle_image(lifted(cells, links), edge_set(links), g, here);
    }
}

} // verus!
