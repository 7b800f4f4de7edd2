//! The directed graph of petgraph, as far as the dependency graph uses it.
//! Nodes carry coordinates and are numbered from 0 in the order in which they
//! were added; edges carry nothing.

use crate::cell::Coord;
use crate::walks::{on_cycle, reachable, respects, same_cycle};
use petgraph::algo::{kosaraju_scc, toposort};
use petgraph::graph::{EdgeIndex, Graph, NodeIndex};
use petgraph::visit::{Dfs, EdgeRef, Walker};
use petgraph::{Directed, Incoming};
use vstd::prelude::*;

verus! {

/// The graph of petgraph. Proofs know of one what `graph_nodes` and
/// `graph_edges` say.
#[verifier::external_type_specification]
#[verifier::external_body]
#[verifier::reject_recursive_types(N)]
#[verifier::reject_recursive_types(E)]
#[verifier::reject_recursive_types(Ty)]
#[verifier::reject_recursive_types(Ix)]
pub struct ExGraph<N, E, Ty, Ix>(Graph<N, E, Ty, Ix>);

/// The marker of petgraph for graphs whose edges have a direction.
#[verifier::external_type_specification]
#[verifier::external_body]
pub struct ExDirected(Directed);

/// The coordinates that the nodes of the graph carry, by node index.
pub uninterp spec fn graph_nodes(graph: Graph<(u32, u32), (), Directed, usize>) -> Seq<Coord>;

/// The source and the target node of each edge of the graph, by edge index.
pub uninterp spec fn graph_edges(graph: Graph<(u32, u32), (), Directed, usize>) -> Seq<
    (usize, usize),
>;

/// The pairs that occur in a list of edges.
pub open spec fn edge_set(links: Seq<(usize, usize)>) -> Set<(usize, usize)> {
    Set::new(|e: (usize, usize)| links.contains(e))
}

/// The list without its `i`-th item, whose place the last item takes.
pub open spec fn swap_removed<T>(items: Seq<T>, i: int) -> Seq<T> {
    items.update(i, items[items.len() - 1]).drop_last()
}

/// `v` is in the `k`-th part.
pub open spec fn in_part(parts: Seq<Vec<usize>>, k: int, v: usize) -> bool {
    0 <= k < parts.len() && parts[k]@.contains(v)
}

/// `v` is in one of the parts.
pub open spec fn covered(parts: Seq<Vec<usize>>, v: usize) -> bool {
    exists|k: int| in_part(parts, k, v)
}

/// `Graph::with_capacity(0, 0)` makes a graph without nodes or edges.
#[verifier::external_body]
pub(crate) fn graph_new() -> (graph: Graph<(u32, u32), (), Directed, usize>)
    ensures
        graph_nodes(graph) == Seq::<Coord>::empty(),
        graph_edges(graph) == Seq::<(usize, usize)>::empty(),
{
    Graph::with_capacity(0, 0)
}

/// `Graph::node_count` is the number of nodes.
#[verifier::external_body]
pub(crate) fn graph_node_count(graph: &Graph<(u32, u32), (), Directed, usize>) -> (count: usize)
    ensures
        count == graph_nodes(*graph).len(),
{
    graph.node_count()
}

/// Indexing the graph by a node index gives what that node carries. The index
/// has to be one of a node.
#[verifier::external_body]
pub(crate) fn graph_node_weight(graph: &Graph<(u32, u32), (), Directed, usize>, node: usize) -> (at:
    Coord)
    requires
        node < graph_nodes(*graph).len(),
    ensures
        at == graph_nodes(*graph)[node as int],
{
    graph[NodeIndex::new(node)]
}

/// `Graph::add_node` adds a node behind the others and returns its index; the
/// edges stay as they are. The number of nodes is one that `usize` holds.
#[verifier::external_body]
pub(crate) fn graph_add_node(graph: &mut Graph<(u32, u32), (), Directed, usize>, at: Coord) -> (node:
    usize)
    ensures
        node == graph_nodes(*old(graph)).len(),
        graph_nodes(*final(graph)) == graph_nodes(*old(graph)).push(at),
        graph_nodes(*final(graph)).len() <= usize::MAX,
        graph_edges(*final(graph)) == graph_edges(*old(graph)),
{
    graph.add_node(at).index()
}

/// `Graph::update_edge` adds an edge from `from` to `to` behind the others,
/// unless there is one already; the nodes stay as they are. Both indices have
/// to be those of nodes.
#[verifier::external_body]
pub(crate) fn graph_update_edge(
    graph: &mut Graph<(u32, u32), (), Directed, usize>,
    from: usize,
    to: usize,
)
    requires
        from < graph_nodes(*old(graph)).len(),
        to < graph_nodes(*old(graph)).len(),
    ensures
        graph_nodes(*final(graph)) == graph_nodes(*old(graph)),
        graph_edges(*final(graph)) == if graph_edges(*old(graph)).contains((from, to)) {
            graph_edges(*old(graph))
        } else {
            graph_edges(*old(graph)).push((from, to))
        },
{
    graph.update_edge(NodeIndex::new(from), NodeIndex::new(to), ());
}

/// `Graph::find_edge` gives the index of an edge from `from` to `to`, if there
/// is one.
#[verifier::external_body]
pub(crate) fn graph_find_edge(
    graph: &Graph<(u32, u32), (), Directed, usize>,
    from: usize,
    to: usize,
) -> (edge: Option<usize>)
    ensures
        match edge {
            Some(e) => e < graph_edges(*graph).len() && graph_edges(*graph)[e as int] == (from, to),
            None => !graph_edges(*graph).contains((from, to)),
        },
{
    graph.find_edge(NodeIndex::new(from), NodeIndex::new(to)).map(|e| e.index())
}

/// `Graph::remove_edge` takes the edge with the given index out; the last
/// edge takes over its index. The nodes stay as they are. The index has to be
/// one of an edge.
#[verifier::external_body]
pub(crate) fn graph_remove_edge(graph: &mut Graph<(u32, u32), (), Directed, usize>, edge: usize)
    requires
        edge < graph_edges(*old(graph)).len(),
    ensures
        graph_nodes(*final(graph)) == graph_nodes(*old(graph)),
        graph_edges(*final(graph)) == swap_removed(graph_edges(*old(graph)), edge as int),
{
    graph.remove_edge(EdgeIndex::new(edge));
}

/// `Graph::edges_directed` with `Incoming` walks the edges that end in `to`;
/// this lists their sources.
#[verifier::external_body]
pub(crate) fn graph_incoming(graph: &Graph<(u32, u32), (), Directed, usize>, to: usize) -> (sources:
    Vec<usize>)
    ensures
        forall|from: usize|
            sources@.contains(from) <==> #[trigger] graph_edges(*graph).contains((from, to)),
{
    graph.edges_directed(NodeIndex::new(to), Incoming).map(|e| e.source().index()).collect()
}

/// `Graph::edge_references` walks the edges in the order of their indices;
/// this lists the source and the target of each.
#[verifier::external_body]
pub(crate) fn graph_edge_list(graph: &Graph<(u32, u32), (), Directed, usize>) -> (links: Vec<
    (usize, usize),
>)
    ensures
        links@ == graph_edges(*graph),
{
    graph.edge_references().map(|e| (e.source().index(), e.target().index())).collect()
}

/// `toposort` lists every node once, each before its successors, where the
/// graph has no cycle; where it has one, it names a node that lies on a cycle.
/// An edge from a node to itself is a cycle.
#[verifier::external_body]
pub(crate) fn graph_toposort(graph: &Graph<(u32, u32), (), Directed, usize>) -> (sorted: Result<
    Vec<usize>,
    usize,
>)
    ensures
        match sorted {
            Ok(order) => {
                &&& order@.no_duplicates()
                &&& forall|v: usize| #[trigger] order@.contains(v) <==> v < graph_nodes(*graph).len()
                &&& respects(edge_set(graph_edges(*graph)), order@)
            },
            Err(at) => at < graph_nodes(*graph).len() && on_cycle(
                edge_set(graph_edges(*graph)),
                at,
            ),
        },
{
    match toposort(graph, None) {
        Ok(order) => Ok(order.into_iter().map(|n| n.index()).collect()),
        Err(cycle) => Err(cycle.node_id().index()),
    }
}

/// `kosaraju_scc` parts the nodes into strongly connected components: every
/// node is in a part, and two nodes of one part reach each other. It works
/// without recursion, so a long chain of nodes does not exhaust the stack.
#[verifier::external_body]
pub(crate) fn graph_components(graph: &Graph<(u32, u32), (), Directed, usize>) -> (parts: Vec<
    Vec<usize>,
>)
    ensures
        forall|v: usize| v < graph_nodes(*graph).len() ==> #[trigger] covered(parts@, v),
        forall|k: int, a: usize, b: usize|
            #[trigger] in_part(parts@, k, a) && #[trigger] in_part(parts@, k, b) ==> same_cycle(
                edge_set(graph_edges(*graph)),
                a,
                b,
            ),
        forall|k: int, a: usize| #[trigger] in_part(parts@, k, a) ==> a < graph_nodes(*graph).len(),
{
    kosaraju_scc(graph).into_iter().map(|part| part.into_iter().map(|n| n.index()).collect()).collect()
}

/// A depth-first search (`Dfs`) from `start` visits each node that `start`
/// reaches once, and no other; this lists them as they are visited. The index
/// has to be one of a node.
#[verifier::external_body]
pub(crate) fn graph_reach(graph: &Graph<(u32, u32), (), Directed, usize>, start: usize) -> (found:
    Vec<usize>)
    requires
        start < graph_nodes(*graph).len(),
    ensures
        found@.no_duplicates(),
        forall|v: usize|
            #[trigger] found@.contains(v) <==> reachable(edge_set(graph_edges(*graph)), start, v),
{
    Dfs::new(graph, NodeIndex::new(start)).iter(graph).map(|n| n.index()).collect()
}

} // verus!
