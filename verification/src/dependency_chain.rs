//! The dependency graph: an edge from `u` to `v` says that the expression of
//! cell `v` reads cell `u`.

use crate::cell::Coord;
use crate::graph::{
    covered, edge_set, graph_add_node, graph_components, graph_edge_list, graph_edges,
    graph_find_edge, graph_incoming, graph_new, graph_node_count, graph_node_weight, graph_nodes,
    graph_reach, graph_remove_edge, graph_toposort, graph_update_edge, in_part,
};
use crate::lifting::{
    carries, lemma_lift_reach, lemma_lifted_back, lemma_lifted_has, lemma_lifted_link,
    lemma_lifted_node, lemma_lifted_removed, lemma_links_join, lemma_lower_reach, lemma_reach_stays,
    lifted, links_fit, node_of, tidy,
};
use crate::lists::{lemma_pushed_contains, lemma_take_contains};
use crate::walks::{
    both_ways, connected, lemma_cycle_image, lemma_order_excludes_cycles, lemma_reachable_trans,
    on_cycle, reachable, respects, same_cycle,
};
use petgraph::graph::Graph;
use petgraph::Directed;
use vstd::prelude::*;

verus! {

/// Which cells read which: a directed graph on coordinates, with at most one
/// edge from one cell to another.
pub struct DependencyGraph {
    graph: Graph<(u32, u32), (), Directed, usize>,
}

impl DependencyGraph {
    /// The coordinates of the nodes, by node index.
    pub closed spec fn cells(&self) -> Seq<Coord> {
        graph_nodes(self.graph)
    }

    /// The edges between node indices.
    pub closed spec fn links(&self) -> Seq<(usize, usize)> {
        graph_edges(self.graph)
    }

    /// The graph holds each coordinate and each edge once.
    pub closed spec fn wf(&self) -> bool {
        tidy(self.cells(), self.links())
    }

    /// The cells that are nodes of the graph.
    pub closed spec fn nodes(&self) -> Set<Coord> {
        Set::new(|c: Coord| self.cells().contains(c))
    }

    /// The edges: `(u, v)` says that `v` reads `u`.
    pub closed spec fn edges(&self) -> Set<(Coord, Coord)> {
        lifted(self.cells(), self.links())
    }

    /// A graph without nodes.
    pub fn new() -> (out: Self)
        ensures
            out.wf(),
            out.nodes() == Set::<Coord>::empty(),
            out.edges() == Set::<(Coord, Coord)>::empty(),
    {
        let out = DependencyGraph { graph: graph_new() };
        assert(out.nodes() =~= Set::<Coord>::empty());
        assert(out.edges() =~= Set::<(Coord, Coord)>::empty());
        out
    }

    /// Every edge joins two nodes.
    pub proof fn lemma_edges_join_nodes(&self, from: Coord, to: Coord)
        requires
            self.wf(),
            self.edges().contains((from, to)),
        ensures
            self.nodes().contains(from),
            self.nodes().contains(to),
    {
        let k = choose|k: int|
            0 <= k < self.links().len() && #[trigger] carries(self.cells(), self.links()[k], (from, to));
        assert(self.cells()[self.links()[k].0 as int] == from);
        assert(self.cells()[self.links()[k].1 as int] == to);
    }

    /// The index of the node that carries `at`.
    pub(crate) fn node_index(&self, at: Coord) -> (out: Option<usize>)
        requires
            self.wf(),
        ensures
            match out {
                Some(i) => i < self.cells().len() && self.cells()[i as int] == at,
                None => !self.nodes().contains(at),
            },
    {
        let count = graph_node_count(&self.graph);
        let mut i: usize = 0;
        while i < count
            invariant
                i <= count,
                count == self.cells().len(),
                forall|j: int| 0 <= j < i ==> self.cells()[j] != at,
            decreases count - i,
        {
            let here = graph_node_weight(&self.graph, i);
            if here.0 == at.0 && here.1 == at.1 {
                return Some(i);
            }
            i += 1;
        }
        None
    }

    /// The index of the node that carries `at`, which is added if it is missing.
    pub(crate) fn find_or_add_node(&mut self, at: Coord) -> (i: usize)
        requires
            old(self).wf(),
        ensures
            final(self).wf(),
            i < final(self).cells().len(),
            final(self).cells()[i as int] == at,
            final(self).nodes() == old(self).nodes().insert(at),
            final(self).edges() == old(self).edges(),
            final(self).links() == old(self).links(),
            old(self).cells().len() <= final(self).cells().len(),
            final(self).cells().take(old(self).cells().len() as int) == old(self).cells(),
    {
        match self.node_index(at) {
            Some(i) => {
                assert(self.nodes() =~= self.nodes().insert(at));
                assert(self.cells().take(self.cells().len() as int) =~= self.cells());
                i
            },
            None => {
                let ghost before = self.cells();
                proof {
                    lemma_lifted_node(before, self.links(), at);
                }
                let i = graph_add_node(&mut self.graph, at);
                assert(self.cells() == before.push(at));
                assert(self.cells().no_duplicates()) by {
                    assert forall|j: int, k: int|
                        0 <= j < self.cells().len() && 0 <= k < self.cells().len() && j
                            != k implies self.cells()[j] != self.cells()[k] by {
                        if j < before.len() {
                            assert(before.contains(before[j]));
                        }
                        if k < before.len() {
                            assert(before.contains(before[k]));
                        }
                    }
                }
                assert(self.nodes() =~= old(self).nodes().insert(at)) by {
                    assert forall|c: Coord| self.cells().contains(c) <==> before.contains(c) || c
                        == at by {
                        if self.cells().contains(c) {
                            let j = choose|j: int| 0 <= j < self.cells().len() && self.cells()[j] == c;
                            if j < before.len() {
                                assert(before[j] == c);
                            }
                        }
                        if before.contains(c) {
                            let j = choose|j: int| 0 <= j < before.len() && before[j] == c;
                            assert(self.cells()[j] == c);
                        }
                        if c == at {
                            assert(self.cells()[before.len() as int] == c);
                        }
                    }
                }
                assert(self.cells().take(before.len() as int) =~= before);
                i
            },
        }
    }

    /// Takes out the edge from node `from` to node `to`, if there is one.
    pub(crate) fn remove_link(&mut self, from: usize, to: usize)
        requires
            old(self).wf(),
            from < old(self).cells().len(),
            to < old(self).cells().len(),
        ensures
            final(self).wf(),
            final(self).cells() == old(self).cells(),
            final(self).edges() == old(self).edges().remove(
                (old(self).cells()[from as int], old(self).cells()[to as int]),
            ),
    {
        match graph_find_edge(&self.graph, from, to) {
            Some(e) => {
                proof {
                    lemma_lifted_removed(self.cells(), self.links(), e as int);
                }
                graph_remove_edge(&mut self.graph, e);
            },
            None => {
                let ghost gone = (self.cells()[from as int], self.cells()[to as int]);
                proof {
                    if self.edges().contains(gone) {
                        lemma_lifted_back(self.cells(), self.links(), from, to);
                    }
                }
                assert(self.edges() =~= self.edges().remove(gone));
            },
        }
    }

    /// Puts in an edge from node `from` to node `to`, unless there is one.
    pub(crate) fn add_link(&mut self, from: usize, to: usize)
        requires
            old(self).wf(),
            from < old(self).cells().len(),
            to < old(self).cells().len(),
        ensures
            final(self).wf(),
            final(self).cells() == old(self).cells(),
            final(self).edges() == old(self).edges().insert(
                (old(self).cells()[from as int], old(self).cells()[to as int]),
            ),
    {
        let ghost links = self.links();
        let ghost cells = self.cells();
        graph_update_edge(&mut self.graph, from, to);
        proof {
            if links.contains((from, to)) {
                lemma_lifted_has(cells, links, from, to);
                assert(self.edges() =~= old(self).edges().insert(
                    (cells[from as int], cells[to as int]),
                ));
            } else {
                lemma_lifted_link(cells, links, from, to);
                let more = links.push((from, to));
                assert forall|k: int, l: int|
                    0 <= k < more.len() && 0 <= l < more.len() && k != l implies more[k]
                    != more[l] by {
                    if k < links.len() {
                        assert(links.contains(links[k]));
                    }
                    if l < links.len() {
                        assert(links.contains(links[l]));
                    }
                }
                assert forall|k: int| 0 <= k < more.len() implies (#[trigger] more[k]).0
                    < cells.len() && more[k].1 < cells.len() by {
                    if k < links.len() {
                        assert(more[k] == links[k]);
                    }
                }
            }
        }
    }
}

/// One of the first `upto` nodes of `sources` carries `at`.
pub open spec fn listed(cells: Seq<Coord>, sources: Seq<usize>, upto: int, at: Coord) -> bool {
    exists|j: int| 0 <= j < upto && cells[#[trigger] sources[j] as int] == at
}

/// The edges after the cells `deps` have become the only ones that `target` reads.
pub open spec fn edges_with_deps(
    edges: Set<(Coord, Coord)>,
    deps: Seq<Coord>,
    target: Coord,
) -> Set<(Coord, Coord)> {
    Set::new(
        |e: (Coord, Coord)|
            if e.1 == target {
                deps.contains(e.0)
            } else {
                edges.contains(e)
            },
    )
}

/// The nodes after `target` has been made to read `deps`.
pub open spec fn nodes_with_deps(nodes: Set<Coord>, deps: Seq<Coord>, target: Coord) -> Set<Coord> {
    Set::new(|c: Coord| nodes.contains(c) || c == target || deps.contains(c))
}

/// Makes the cells of `a_vec` the ones that `b` reads: `b` and each of them
/// becomes a node if it is none, every edge into `b` goes, and an edge from
/// each of them to `b` comes. Order and repetition in `a_vec` do not matter.
pub fn update_incoming_edges(graph: &mut DependencyGraph, a_vec: Vec<(u32, u32)>, b: (u32, u32))
    requires
        old(graph).wf(),
    ensures
        final(graph).wf(),
        final(graph).nodes() == nodes_with_deps(old(graph).nodes(), a_vec@, b),
        final(graph).edges() == edges_with_deps(old(graph).edges(), a_vec@, b),
{
    let node_b = graph.find_or_add_node(b);
    let sources = graph_incoming(&graph.graph, node_b);
    let ghost cells1 = graph.cells();
    let ghost links1 = graph.links();
    let ghost edges1 = graph.edges();
    let ghost nodes1 = graph.nodes();
    assert forall|j: int| 0 <= j < sources.len() implies #[trigger] sources[j] < cells1.len() by {
        assert(sources@.contains(sources[j]));
        assert(links1.contains((sources[j], node_b)));
        let k = choose|k: int| 0 <= k < links1.len() && links1[k] == (sources[j], node_b);
        assert(links1[k].0 < cells1.len());
    }
    let mut k: usize = 0;
    while k < sources.len()
        invariant
            k <= sources.len(),
            graph.wf(),
            graph.cells() == cells1,
            node_b < cells1.len(),
            cells1[node_b as int] == b,
            forall|j: int| 0 <= j < sources.len() ==> #[trigger] sources[j] < cells1.len(),
            forall|e: (Coord, Coord)| #[trigger]
                graph.edges().contains(e) <==> edges1.contains(e) && !(e.1 == b && listed(
                    cells1,
                    sources@,
                    k as int,
                    e.0,
                )),
        decreases sources.len() - k,
    {
        let ghost before = graph.edges();
        let ghost gone = (cells1[sources[k as int] as int], b);
        let ghost was = k as int;
        graph.remove_link(sources[k], node_b);
        k += 1;
        assert forall|e: (Coord, Coord)|
            graph.edges().contains(e) <==> edges1.contains(e) && !(e.1 == b && listed(
                cells1,
                sources@,
                k as int,
                e.0,
            )) by {
            assert(graph.edges() == before.remove(gone));
            assert(before.contains(e) <==> edges1.contains(e) && !(e.1 == b && listed(
                cells1,
                sources@,
                was,
                e.0,
            )));
            if e.1 == b && listed(cells1, sources@, k as int, e.0) {
                let j = choose|j: int| 0 <= j < k && cells1[#[trigger] sources@[j] as int] == e.0;
                if j < was {
                    assert(listed(cells1, sources@, was, e.0));
                }
            }
            if e.1 == b && listed(cells1, sources@, was, e.0) {
                let j = choose|j: int| 0 <= j < was && cells1[#[trigger] sources@[j] as int] == e.0;
                assert(listed(cells1, sources@, k as int, e.0));
            }
            if e == gone {
                assert(cells1[sources@[was] as int] == e.0);
                assert(listed(cells1, sources@, k as int, e.0));
            }
        }
    }
    let ghost edges2 = graph.edges();
    let ghost before = old(graph).edges();
    assert forall|e: (Coord, Coord)| edges2.contains(e) <==> before.contains(e) && e.1 != b by {
        if edges1.contains(e) && e.1 == b {
            let m = choose|m: int| 0 <= m < links1.len() && #[trigger] carries(cells1, links1[m], e);
            assert(links1[m].1 == node_b);
            assert(links1[m] == (links1[m].0, node_b));
            assert(links1.contains((links1[m].0, node_b)));
            assert(sources@.contains(links1[m].0));
            let j = choose|j: int| 0 <= j < sources@.len() && sources@[j] == links1[m].0;
            assert(cells1[sources@[j] as int] == e.0);
            assert(listed(cells1, sources@, k as int, e.0));
        }
    }
    let mut k: usize = 0;
    while k < a_vec.len()
        invariant
            k <= a_vec.len(),
            graph.wf(),
            node_b < graph.cells().len(),
            graph.cells()[node_b as int] == b,
            forall|c: Coord| #[trigger]
                graph.nodes().contains(c) <==> nodes1.contains(c) || a_vec@.take(k as int).contains(c),
            forall|e: (Coord, Coord)| #[trigger]
                graph.edges().contains(e) <==> if e.1 == b {
                    a_vec@.take(k as int).contains(e.0)
                } else {
                    before.contains(e)
                },
        decreases a_vec.len() - k,
    {
        let ghost cells_before = graph.cells();
        let ghost done = a_vec@.take(k as int);
        let ghost next = a_vec@.take(k + 1);
        let ghost nodes_before = graph.nodes();
        let ghost edges_before = graph.edges();
        let a = a_vec[k];
        let node_a = graph.find_or_add_node(a);
        assert(graph.cells()[node_b as int] == b) by {
            assert(graph.cells().take(cells_before.len() as int)[node_b as int] == b);
        }
        graph.add_link(node_a, node_b);
        assert(graph.nodes() == nodes_before.insert(a));
        assert(graph.edges() == edges_before.insert((a, b)));
        assert(next =~= done.push(a));
        assert forall|c: Coord| next.contains(c) <==> done.contains(c) || c == a by {
            if done.contains(c) {
                let j = choose|j: int| 0 <= j < done.len() && done[j] == c;
                assert(next[j] == c);
            }
            if c == a {
                assert(next[k as int] == c);
            }
        }
        assert forall|c: Coord|
            graph.nodes().contains(c) <==> nodes1.contains(c) || next.contains(c) by {
            assert(nodes_before.contains(c) <==> nodes1.contains(c) || done.contains(c));
        }
        assert forall|e: (Coord, Coord)|
            graph.edges().contains(e) <==> if e.1 == b {
                next.contains(e.0)
            } else {
                before.contains(e)
            } by {
            assert(edges_before.contains(e) <==> if e.1 == b {
                done.contains(e.0)
            } else {
                before.contains(e)
            });
        }
        k += 1;
    }
    assert(a_vec@.take(k as int) =~= a_vec@);
    assert forall|c: Coord|
        graph.nodes().contains(c) <==> nodes_with_deps(old(graph).nodes(), a_vec@, b).contains(
            c,
        ) by {
        assert(nodes1 == old(graph).nodes().insert(b));
        assert(graph.nodes().contains(c) <==> nodes1.contains(c) || a_vec@.take(k as int).contains(c));
    }
    assert(graph.nodes() =~= nodes_with_deps(old(graph).nodes(), a_vec@, b));
    assert(graph.edges() =~= edges_with_deps(old(graph).edges(), a_vec@, b));
}

/// A graph with the nodes of `graph` and, for each of its edges, that edge and its reverse.
fn symmetric_copy(graph: &Graph<(u32, u32), (), Directed, usize>) -> (sym: Graph<
    (u32, u32),
    (),
    Directed,
    usize,
>)
    requires
        links_fit(graph_nodes(*graph), graph_edges(*graph)),
    ensures
        graph_nodes(sym) == graph_nodes(*graph),
        edge_set(graph_edges(sym)) == both_ways(edge_set(graph_edges(*graph))),
{
    let ghost cells = graph_nodes(*graph);
    let ghost links = graph_edges(*graph);
    let mut sym = graph_new();
    let count = graph_node_count(graph);
    let mut i: usize = 0;
    while i < count
        invariant
            i <= count,
            count == cells.len(),
            cells == graph_nodes(*graph),
            graph_nodes(sym) == cells.take(i as int),
            graph_edges(sym) == Seq::<(usize, usize)>::empty(),
        decreases count - i,
    {
        let at = graph_node_weight(graph, i);
        graph_add_node(&mut sym, at);
        i += 1;
        assert(cells.take(i as int) =~= cells.take(i - 1).push(at));
    }
    assert(cells.take(i as int) =~= cells);
    let list = graph_edge_list(graph);
    let mut k: usize = 0;
    while k < list.len()
        invariant
            k <= list.len(),
            list@ == links,
            links_fit(cells, links),
            graph_nodes(sym) == cells,
            forall|e: (usize, usize)| #[trigger]
                graph_edges(sym).contains(e) <==> links.take(k as int).contains(e) || links.take(
                    k as int,
                ).contains((e.1, e.0)),
        decreases list.len() - k,
    {
        let ghost was = k as int;
        let ghost before = graph_edges(sym);
        let (a, b) = list[k];
        assert(links[was] == (a, b));
        graph_update_edge(&mut sym, a, b);
        let ghost between = graph_edges(sym);
        graph_update_edge(&mut sym, b, a);
        k += 1;
        assert forall|e: (usize, usize)| #[trigger]
            graph_edges(sym).contains(e) <==> links.take(k as int).contains(e) || links.take(
                k as int,
            ).contains((e.1, e.0)) by {
            lemma_pushed_contains(before, (a, b), e);
            lemma_pushed_contains(between, (b, a), e);
            lemma_take_contains(links, was, e);
            lemma_take_contains(links, was, (e.1, e.0));
            assert(before.contains(e) <==> links.take(was).contains(e) || links.take(was).contains(
                (e.1, e.0),
            ));
        }
    }
    assert(links.take(k as int) =~= links);
    assert(edge_set(graph_edges(sym)) =~= both_ways(edge_set(links)));
    sym
}

/// A graph with one node for each item of `part`, in that order, and the edges
/// that `graph` has between them.
fn induced_copy(graph: &Graph<(u32, u32), (), Directed, usize>, part: &Vec<usize>) -> (sub: Graph<
    (u32, u32),
    (),
    Directed,
    usize,
>)
    requires
        links_fit(graph_nodes(*graph), graph_edges(*graph)),
        part@.no_duplicates(),
        forall|j: int| 0 <= j < part.len() ==> #[trigger] part[j] < graph_nodes(*graph).len(),
    ensures
        graph_nodes(sub).len() == part.len(),
        forall|j: int|
            0 <= j < part.len() ==> #[trigger] graph_nodes(sub)[j] == graph_nodes(
                *graph,
            )[part[j] as int],
        forall|p: usize, q: usize| #[trigger]
            graph_edges(sub).contains((p, q)) <==> p < part.len() && q < part.len() && graph_edges(
                *graph,
            ).contains((part[p as int], part[q as int])),
{
    let ghost cells = graph_nodes(*graph);
    let ghost links = graph_edges(*graph);
    let size = part.len();
    let count = graph_node_count(graph);
    let mut sub = graph_new();
    let mut slot: Vec<usize> = Vec::new();
    let mut i: usize = 0;
    while i < count
        invariant
            i <= count,
            slot.len() == i,
            forall|v: int| 0 <= v < i ==> #[trigger] slot[v] == size,
        decreases count - i,
    {
        slot.push(size);
        i += 1;
    }
    let mut j: usize = 0;
    while j < size
        invariant
            j <= size,
            size == part.len(),
            count == cells.len(),
            cells == graph_nodes(*graph),
            slot.len() == count,
            part@.no_duplicates(),
            forall|m: int| 0 <= m < part.len() ==> #[trigger] part[m] < count,
            graph_nodes(sub).len() == j,
            graph_edges(sub) == Seq::<(usize, usize)>::empty(),
            forall|m: int| 0 <= m < j ==> #[trigger] graph_nodes(sub)[m] == cells[part[m] as int],
            forall|m: int| 0 <= m < j ==> slot[#[trigger] part[m] as int] == m,
            forall|v: int|
                0 <= v < count ==> (#[trigger] slot[v] == size || (slot[v] < j && part[slot[v] as int]
                    == v)),
        decreases size - j,
    {
        let ghost was = j as int;
        let ghost slot_before = slot@;
        let ghost nodes_before = graph_nodes(sub);
        let old_node = part[j];
        let at = graph_node_weight(graph, old_node);
        graph_add_node(&mut sub, at);
        slot.set(old_node, j);
        j += 1;
        assert forall|m: int| 0 <= m < j implies slot[#[trigger] part[m] as int] == m by {
            if m < was {
                assert(slot_before[part[m] as int] == m);
                assert(part[m] != part[was]);
            }
        }
        assert forall|m: int| 0 <= m < j implies #[trigger] graph_nodes(sub)[m]
            == cells[part[m] as int] by {
            if m < was {
                assert(nodes_before[m] == cells[part[m] as int]);
            }
        }
        assert forall|v: int| 0 <= v < count implies (#[trigger] slot[v] == size || (slot[v] < j
            && part[slot[v] as int] == v)) by {
            if v != old_node {
                assert(slot[v] == slot_before[v]);
            }
        }
    }
    let list = graph_edge_list(graph);
    let mut k: usize = 0;
    while k < list.len()
        invariant
            k <= list.len(),
            list@ == links,
            size == part.len(),
            count == cells.len(),
            links_fit(cells, links),
            slot.len() == count,
            graph_nodes(sub).len() == size,
            forall|m: int| 0 <= m < size ==> #[trigger] graph_nodes(sub)[m] == cells[part[m] as int],
            forall|m: int| 0 <= m < size ==> slot[#[trigger] part[m] as int] == m,
            forall|m: int| 0 <= m < part.len() ==> #[trigger] part[m] < count,
            forall|v: int|
                0 <= v < count ==> (#[trigger] slot[v] == size || (slot[v] < size && part[slot[v] as int]
                    == v)),
            forall|p: usize, q: usize| #[trigger]
                graph_edges(sub).contains((p, q)) <==> p < size && q < size && links.take(
                    k as int,
                ).contains((part[p as int], part[q as int])),
        decreases list.len() - k,
    {
        let ghost was = k as int;
        let ghost before = graph_edges(sub);
        let (a, b) = list[k];
        assert(links[was] == (a, b));
        assert(a < count && b < count);
        let pa = slot[a];
        let pb = slot[b];
        if pa < size && pb < size {
            graph_update_edge(&mut sub, pa, pb);
        }
        k += 1;
        assert forall|p: usize, q: usize| #[trigger]
            graph_edges(sub).contains((p, q)) <==> p < size && q < size && links.take(
                k as int,
            ).contains((part[p as int], part[q as int])) by {
            lemma_pushed_contains(before, (pa, pb), (p, q));
            assert(before.contains((p, q)) <==> p < size && q < size && links.take(was).contains(
                (part[p as int], part[q as int]),
            ));
            if p < size && q < size {
                lemma_take_contains(links, was, (part[p as int], part[q as int]));
                if (part[p as int], part[q as int]) == (a, b) {
                    assert(slot[part[p as int] as int] == p);
                    assert(slot[part[q as int] as int] == q);
                }
            }
        }
    }
    assert(links.take(k as int) =~= links);
    sub
}

/// The index of a part that holds `v`.
fn find_part(parts: &Vec<Vec<usize>>, v: usize) -> (k: usize)
    requires
        covered(parts@, v),
    ensures
        in_part(parts@, k as int, v),
{
    let mut k: usize = 0;
    while k < parts.len()
        invariant
            k <= parts.len(),
            forall|m: int| 0 <= m < k ==> !in_part(parts@, m, v),
        decreases parts.len() - k,
    {
        let part = &parts[k];
        let mut j: usize = 0;
        while j < part.len()
            invariant
                j <= part.len(),
                k < parts.len(),
                part@ == parts@[k as int]@,
                forall|m: int| 0 <= m < j ==> part@[m] != v,
            decreases part.len() - j,
        {
            if part[j] == v {
                assert(parts@[k as int]@.contains(v));
                return k;
            }
            j += 1;
        }
        k += 1;
    }
    proof {
        let m = choose|m: int| in_part(parts@, m, v);
        assert(false);
    }
    0
}

/// One of the first `upto` nodes of `part` reaches `v`.
pub open spec fn reached_from(
    edges: Set<(usize, usize)>,
    part: Seq<usize>,
    upto: int,
    v: usize,
) -> bool {
    exists|j: int| 0 <= j < upto && reachable(edges, #[trigger] part[j], v)
}

/// The coordinates of all that is reached from the strongly connected
/// component of the node `first`, each once.
fn downstream(graph: &Graph<(u32, u32), (), Directed, usize>, first: usize) -> (out: Vec<Coord>)
    requires
        tidy(graph_nodes(*graph), graph_edges(*graph)),
        first < graph_nodes(*graph).len(),
    ensures
        out@.no_duplicates(),
        forall|c: Coord| #[trigger]
            out@.contains(c) <==> reachable(
                lifted(graph_nodes(*graph), graph_edges(*graph)),
                graph_nodes(*graph)[first as int],
                c,
            ),
{
    let ghost cells = graph_nodes(*graph);
    let ghost links = graph_edges(*graph);
    let ghost edges = edge_set(links);
    let parts = graph_components(graph);
    assert(covered(parts@, first));
    let k = find_part(&parts, first);
    let part = &parts[k];
    let count = graph_node_count(graph);
    let mut seen: Vec<bool> = Vec::new();
    let mut i: usize = 0;
    while i < count
        invariant
            i <= count,
            seen.len() == i,
            forall|v: int| 0 <= v < i ==> !#[trigger] seen[v],
        decreases count - i,
    {
        seen.push(false);
        i += 1;
    }
    let mut out: Vec<Coord> = Vec::new();
    let ghost mut picked: Seq<usize> = Seq::empty();
    proof {
        lemma_links_join(cells, links);
    }
    let mut j: usize = 0;
    while j < part.len()
        invariant
            j <= part.len(),
            k < parts.len(),
            part@ == parts@[k as int]@,
            cells == graph_nodes(*graph),
            links == graph_edges(*graph),
            edges == edge_set(links),
            tidy(cells, links),
            count == cells.len(),
            seen.len() == count,
            forall|a: usize, b: usize| #[trigger] edges.contains((a, b)) ==> a < count && b < count,
            forall|m: int, a: usize| #[trigger] in_part(parts@, m, a) ==> a < count,
            forall|v: usize|
                v < count ==> (#[trigger] seen[v as int] <==> reached_from(
                    edges,
                    part@,
                    j as int,
                    v,
                )),
            forall|v: usize| v < count ==> (#[trigger] seen[v as int] <==> picked.contains(v)),
            picked.len() == out.len(),
            picked.no_duplicates(),
            forall|t: int|
                0 <= t < picked.len() ==> #[trigger] picked[t] < count && out[t]
                    == cells[picked[t] as int],
        decreases part.len() - j,
    {
        let ghost was = j as int;
        let y = part[j];
        assert(in_part(parts@, k as int, y));
        let found = graph_reach(graph, y);
        let mut m: usize = 0;
        while m < found.len()
            invariant
                m <= found.len(),
                cells == graph_nodes(*graph),
                count == cells.len(),
                seen.len() == count,
                y < count,
                forall|a: usize, b: usize| #[trigger] edges.contains((a, b)) ==> a < count && b < count,
                forall|v: usize| #[trigger] found@.contains(v) <==> reachable(edges, y, v),
                forall|v: usize|
                    v < count ==> (#[trigger] seen[v as int] <==> reached_from(edges, part@, was, v)
                        || found@.take(m as int).contains(v)),
                forall|v: usize| v < count ==> (#[trigger] seen[v as int] <==> picked.contains(v)),
                picked.len() == out.len(),
                picked.no_duplicates(),
                forall|t: int|
                    0 <= t < picked.len() ==> #[trigger] picked[t] < count && out[t]
                    == cells[picked[t] as int],
            decreases found.len() - m,
        {
            let ghost at = m as int;
            let ghost seen_before = seen@;
            let ghost picked_before = picked;
            let ghost out_before = out@;
            let z = found[m];
            assert(found@.contains(z));
            proof {
                lemma_reach_stays(edges, count as nat, y, z);
            }
            if !seen[z] {
                seen.set(z, true);
                let here = graph_node_weight(graph, z);
                out.push(here);
                proof {
                    picked = picked.push(z);
                    assert forall|a: int, b: int|
                        0 <= a < picked.len() && 0 <= b < picked.len() && a != b implies picked[a]
                        != picked[b] by {
                        if a < picked_before.len() {
                            assert(picked_before.contains(picked_before[a]));
                        }
                        if b < picked_before.len() {
                            assert(picked_before.contains(picked_before[b]));
                        }
                    }
                    assert forall|t: int| 0 <= t < picked.len() implies #[trigger] picked[t] < count
                        && out[t] == cells[picked[t] as int] by {
                        if t < picked_before.len() {
                            assert(picked_before[t] < count);
                            assert(out_before[t] == cells[picked_before[t] as int]);
                        }
                    }
                }
            }
            m += 1;
            assert forall|v: usize| v < count implies (#[trigger] seen[v as int] <==> picked.contains(
                v,
            )) by {
                assert(seen_before[v as int] <==> picked_before.contains(v));
                lemma_pushed_contains(picked_before, z, v);
            }
            assert forall|v: usize| v < count implies (#[trigger] seen[v as int] <==> reached_from(
                edges,
                part@,
                was,
                v,
            ) || found@.take(m as int).contains(v)) by {
                assert(seen_before[v as int] <==> reached_from(edges, part@, was, v) || found@.take(
                    at,
                ).contains(v));
                lemma_take_contains(found@, at, v);
            }
        }
        j += 1;
        assert(found@.take(m as int) =~= found@);
        assert forall|v: usize| v < count implies (#[trigger] seen[v as int] <==> reached_from(
            edges,
            part@,
            j as int,
            v,
        )) by {
            if reached_from(edges, part@, j as int, v) {
                let t = choose|t: int| 0 <= t < j && reachable(edges, #[trigger] part@[t], v);
                if t < was {
                    assert(reached_from(edges, part@, was, v));
                }
            }
            if reached_from(edges, part@, was, v) {
                let t = choose|t: int| 0 <= t < was && reachable(edges, #[trigger] part@[t], v);
                assert(reached_from(edges, part@, j as int, v));
            }
            if found@.contains(v) {
                assert(reachable(edges, part@[was], v));
                assert(reached_from(edges, part@, j as int, v));
            }
        }
    }
    proof {
        assert forall|a: int, b: int|
            0 <= a < out@.len() && 0 <= b < out@.len() && a != b implies out@[a] != out@[b] by {
            assert(picked[a] != picked[b]);
            assert(picked[a] < count && out@[a] == cells[picked[a] as int]);
            assert(picked[b] < count && out@[b] == cells[picked[b] as int]);
        }
        assert(in_part(parts@, k as int, first));
        let home = choose|t: int| 0 <= t < part@.len() && part@[t] == first;
        assert forall|c: Coord| #[trigger]
            out@.contains(c) <==> reachable(lifted(cells, links), cells[first as int], c) by {
            if out@.contains(c) {
                let t = choose|t: int| 0 <= t < out@.len() && out@[t] == c;
                let v = picked[t];
                assert(picked.contains(v));
                assert(v < count && out@[t] == cells[v as int]);
                assert(seen[v as int]);
                assert(reached_from(edges, part@, j as int, v));
                let u = choose|u: int| 0 <= u < j && reachable(edges, #[trigger] part@[u], v);
                assert(part@.contains(part@[u]));
                assert(in_part(parts@, k as int, part@[u]));
                assert(same_cycle(edges, first, part@[u]));
                lemma_reachable_trans(edges, first, part@[u], v);
                lemma_lift_reach(cells, links, first, v);
            }
            if reachable(lifted(cells, links), cells[first as int], c) {
                lemma_lower_reach(cells, links, first, c);
                let v = node_of(cells, c);
                assert(reachable(edges, part@[home], v));
                assert(reached_from(edges, part@, j as int, v));
                assert(seen[v as int]);
                assert(picked.contains(v));
                let t = choose|t: int| 0 <= t < picked.len() && picked[t] == v;
                assert(picked[t] < count && out@[t] == cells[picked[t] as int]);
            }
        }
    }
    out
}

/// Why no order of evaluation was found.
#[derive(Debug, PartialEq, Eq)]
pub enum TopoError {
    /// The cell is no node of the graph.
    NodeNotFound,
    /// Some cell that the given one is connected to lies on a cycle. The list
    /// holds the cells of that cycle and all cells that depend on them.
    CycleDetected(Vec<(u32, u32)>),
}

/// `order` lists, each once, the cells that `start` is connected to when the
/// direction of edges is ignored, each cell after the cells it reads.
pub open spec fn is_plan(edges: Set<(Coord, Coord)>, start: Coord, order: Seq<Coord>) -> bool {
    &&& order.no_duplicates()
    &&& forall|c: Coord| #[trigger] order.contains(c) <==> connected(edges, start, c)
    &&& respects(edges, order)
}

/// `at` is connected to `start` and lies on a cycle, and `cells` lists, each
/// once, what `at` reaches: the cells of its strongly connected component and
/// every cell that depends on one of them.
pub open spec fn is_cycle_report(
    edges: Set<(Coord, Coord)>,
    start: Coord,
    at: Coord,
    cells: Seq<Coord>,
) -> bool {
    &&& connected(edges, start, at)
    &&& on_cycle(edges, at)
    &&& cells.no_duplicates()
    &&& forall|c: Coord| #[trigger] cells.contains(c) <==> reachable(edges, at, c)
}

/// Some cell that `start` is connected to lies on a cycle.
pub open spec fn component_has_cycle(edges: Set<(Coord, Coord)>, start: Coord) -> bool {
    exists|at: Coord| connected(edges, start, at) && on_cycle(edges, at)
}

/// The edges of `sub_links` are those that `links` has between the nodes of `part`.
pub open spec fn induced(
    part: Seq<usize>,
    links: Seq<(usize, usize)>,
    sub_links: Seq<(usize, usize)>,
) -> bool {
    forall|p: usize, q: usize| #[trigger]
        sub_links.contains((p, q)) <==> p < part.len() && q < part.len() && links.contains(
            (part[p as int], part[q as int]),
        )
}

/// `part` lists, each once, the nodes that `start` is connected to.
pub open spec fn is_component(links: Seq<(usize, usize)>, start: usize, part: Seq<usize>) -> bool {
    &&& part.no_duplicates()
    &&& forall|v: usize| #[trigger] part.contains(v) <==> connected(edge_set(links), start, v)
}

/// The nodes of a component are nodes.
proof fn lemma_component_fits(
    cells: Seq<Coord>,
    links: Seq<(usize, usize)>,
    start: usize,
    part: Seq<usize>,
)
    requires
        tidy(cells, links),
        start < cells.len(),
        is_component(links, start, part),
    ensures
        forall|j: int| 0 <= j < part.len() ==> #[trigger] part[j] < cells.len(),
{
    lemma_links_join(cells, links);
    assert forall|j: int| 0 <= j < part.len() implies #[trigger] part[j] < cells.len() by {
        assert(part.contains(part[j]));
        lemma_reach_stays(both_ways(edge_set(links)), cells.len(), start, part[j]);
    }
}

/// A topological order of the component's own graph, read as coordinates, is a plan.
proof fn lemma_sorted_component(
    cells: Seq<Coord>,
    links: Seq<(usize, usize)>,
    start: usize,
    part: Seq<usize>,
    sub_links: Seq<(usize, usize)>,
    order: Seq<usize>,
    out: Seq<Coord>,
)
    requires
        tidy(cells, links),
        start < cells.len(),
        is_component(links, start, part),
        part.len() <= usize::MAX,
        induced(part, links, sub_links),
        order.no_duplicates(),
        forall|v: usize| #[trigger] order.contains(v) <==> v < part.len(),
        respects(edge_set(sub_links), order),
        out.len() == order.len(),
        forall|t: int| 0 <= t < out.len() ==> #[trigger] out[t] == cells[part[order[t] as int] as int],
    ensures
        is_plan(lifted(cells, links), cells[start as int], out),
        !component_has_cycle(lifted(cells, links), cells[start as int]),
{
    let edges = lifted(cells, links);
    let node = cells[start as int];
    let sub_edges = edge_set(sub_links);
    lemma_component_fits(cells, links, start, part);
    assert forall|s: int, t: int| 0 <= s < out.len() && 0 <= t < out.len() && s != t implies out[s]
        != out[t] by {
        assert(order.contains(order[s]));
        assert(order.contains(order[t]));
        assert(order[s] != order[t]);
        assert(part[order[s] as int] != part[order[t] as int]);
    }
    assert forall|c: Coord| #[trigger] out.contains(c) <==> connected(edges, node, c) by {
        if out.contains(c) {
            let t = choose|t: int| 0 <= t < out.len() && out[t] == c;
            assert(order.contains(order[t]));
            let v = part[order[t] as int];
            assert(part.contains(v));
            lemma_lift_reach(cells, links, start, v);
        }
        if connected(edges, node, c) {
            lemma_lower_reach(cells, links, start, c);
            let v = node_of(cells, c);
            assert(part.contains(v));
            let p = choose|p: int| 0 <= p < part.len() && part[p] == v;
            assert(order.contains(p as usize));
            let t = choose|t: int| 0 <= t < order.len() && order[t] == p as usize;
            assert(out[t] == c);
        }
    }
    assert forall|s: int, t: int| 0 <= s <= t < out.len() implies !edges.contains(
        (#[trigger] out[t], #[trigger] out[s]),
    ) by {
        assert(order.contains(order[s]));
        assert(order.contains(order[t]));
        let a = part[order[t] as int];
        let b = part[order[s] as int];
        if edges.contains((out[t], out[s])) {
            lemma_lifted_back(cells, links, a, b);
            assert(sub_links.contains((order[t], order[s])));
            assert(sub_edges.contains((order[t], order[s])));
        }
    }
    assert(is_plan(edges, node, out));
    assert forall|at: Coord| connected(edges, node, at) implies !on_cycle(edges, at) by {
        lemma_order_excludes_cycles(edges, node, out, at);
    }
}

/// A cycle in the component's own graph is a cycle between coordinates.
proof fn lemma_cycle_in_component(
    cells: Seq<Coord>,
    links: Seq<(usize, usize)>,
    start: usize,
    part: Seq<usize>,
    sub_links: Seq<(usize, usize)>,
    at: usize,
)
    requires
        tidy(cells, links),
        start < cells.len(),
        is_component(links, start, part),
        induced(part, links, sub_links),
        at < part.len(),
        on_cycle(edge_set(sub_links), at),
    ensures
        part[at as int] < cells.len(),
        connected(lifted(cells, links), cells[start as int], cells[part[at as int] as int]),
        on_cycle(lifted(cells, links), cells[part[at as int] as int]),
{
    let first = part[at as int];
    let sub_edges = edge_set(sub_links);
    lemma_component_fits(cells, links, start, part);
    let h = |p: usize| part[p as int];
    assert forall|p: usize, q: usize| #[trigger] sub_edges.contains((p, q)) implies edge_set(
        links,
    ).contains((h(p), h(q))) by {
        assert(sub_links.contains((p, q)));
    }
    lemma_cycle_image(sub_edges, edge_set(links), h, at);
    assert(part.contains(first));
    lemma_lift_reach(cells, links, start, first);
    lemma_lift_reach(cells, links, first, first);
}

/// Plans the recomputation after a change to `node`. The cells that `node` is
/// connected to are sorted so that each comes after the cells it reads. Where
/// a cycle makes that impossible, the cells of one cycle and all that depend
/// on them are reported.
pub fn find_topology_sort_of_weakly_component(graph: &DependencyGraph, node: (u32, u32)) -> (out:
    Result<Vec<(u32, u32)>, TopoError>)
    requires
        graph.wf(),
    ensures
        out matches Ok(order) ==> {
            &&& graph.nodes().contains(node)
            &&& is_plan(graph.edges(), node, order@)
            &&& !component_has_cycle(graph.edges(), node)
        },
        out matches Err(TopoError::NodeNotFound) ==> !graph.nodes().contains(node),
        out matches Err(TopoError::CycleDetected(cells)) ==> {
            &&& graph.nodes().contains(node)
            &&& exists|at: Coord| is_cycle_report(graph.edges(), node, at, cells@)
            &&& component_has_cycle(graph.edges(), node)
        },
{
    let ghost cells = graph.cells();
    let ghost links = graph.links();
    let start = match graph.node_index(node) {
        None => {
            return Err(TopoError::NodeNotFound);
        },
        Some(i) => i,
    };
    assert(graph.nodes().contains(node)) by {
        assert(cells[start as int] == node);
    }
    let sym = symmetric_copy(&graph.graph);
    let part = graph_reach(&sym, start);
    assert(is_component(links, start, part@));
    proof {
        lemma_component_fits(cells, links, start, part@);
    }
    let sub = induced_copy(&graph.graph, &part);
    assert(induced(part@, links, graph_edges(sub)));
    match graph_toposort(&sub) {
        Ok(order) => {
            let mut out: Vec<(u32, u32)> = Vec::new();
            let mut i: usize = 0;
            while i < order.len()
                invariant
                    i <= order.len(),
                    out.len() == i,
                    cells == graph_nodes(graph.graph),
                    graph_nodes(sub).len() == part.len(),
                    forall|v: usize| #[trigger] order@.contains(v) <==> v < graph_nodes(sub).len(),
                    forall|j: int| 0 <= j < part.len() ==> #[trigger] part[j] < cells.len(),
                    forall|t: int|
                        0 <= t < i ==> #[trigger] out@[t] == cells[part@[order@[t] as int] as int],
                decreases order.len() - i,
            {
                assert(order@.contains(order[i as int]));
                let old_node = part[order[i]];
                let at = graph_node_weight(&graph.graph, old_node);
                out.push(at);
                i += 1;
            }
            proof {
                lemma_sorted_component(cells, links, start, part@, graph_edges(sub), order@, out@);
            }
            Ok(out)
        },
        Err(at) => {
            let first = part[at];
            proof {
                lemma_cycle_in_component(cells, links, start, part@, graph_edges(sub), at);
            }
            let report = downstream(&graph.graph, first);
            assert(is_cycle_report(graph.edges(), node, cells[first as int], report@));
            assert(component_has_cycle(graph.edges(), node));
            let result: Result<Vec<(u32, u32)>, TopoError> = Err(TopoError::CycleDetected(report));
            assert(result matches Err(TopoError::CycleDetected(found)) && is_cycle_report(
                graph.edges(),
                node,
                cells[first as int],
                found@,
            ));
            result
        },
    }
}

} // verus!
