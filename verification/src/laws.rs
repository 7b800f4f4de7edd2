//! What holds of the engine whatever is set, and in whatever order.

use crate::cell::{Answer, Binding, Coord, Record, Value};
use crate::database::{cell_coord, cell_name, record_at, value_at};
use crate::dependency_chain::{component_has_cycle, is_cycle_report, is_plan};
use crate::engine::{
    bindings_for, coherent, entered, expansion, first_unreadable, lemma_coherent_same_exprs,
    lemma_entry_coherent, lemma_expansion_some, lemma_reached_has_incoming, lemma_same_bindings,
    lemma_settled_frame, marked, reads, recomputed, self_referential, set_outcome, settled, Sheet,
};
use crate::runner::{formula, variables_in, Gives};
use crate::text::{
    all_digits, all_upper, column_name, column_value, decimal_text, decimal_value, digit_index,
    is_digit, is_upper, lemma_decimal_prefix, lemma_digit_index,
};
use crate::walks::{
    both_ways, connected, joins, lemma_reach_of_component, lemma_reachable_connected,
    lemma_reachable_edge, lemma_reachable_self, lemma_reachable_trans, lemma_walk_without_return,
    on_cycle, reachable, respects, same_cycle, step,
};
use vstd::prelude::*;

verus! {

/// Evaluating the expression `source` gives one value at most under the same
/// bindings. This fails of an expression that reads the clock.
pub open spec fn functional_at(gives: Gives, source: Seq<char>) -> bool {
    forall|bindings: Seq<(Seq<char>, Binding)>, a: Value, b: Value|
        #[trigger] gives(formula(source), bindings, a) && #[trigger] gives(
            formula(source),
            bindings,
            b,
        ) ==> a == b
}

/// Evaluating gives one value at most for each expression that is stored with
/// a cell that `cell` is connected to.
pub open spec fn functional_near(
    gives: Gives,
    store: Map<Coord, Record>,
    edges: Set<(Coord, Coord)>,
    cell: Coord,
) -> bool {
    forall|c: Coord|
        connected(edges, cell, c) && (#[trigger] record_at(store, c)).expr is Some ==> functional_at(
            gives,
            record_at(store, c).expr->0,
        )
}

/// Every cell on a cycle that `cell` is connected to reaches `at`.
pub open spec fn every_cycle_reaches(edges: Set<(Coord, Coord)>, cell: Coord, at: Coord) -> bool {
    forall|a: Coord|
        connected(edges, cell, a) && #[trigger] on_cycle(edges, a) ==> reachable(edges, a, at)
}

/// The cells on cycles that `cell` is connected to all reach one another.
pub open spec fn one_cycle_at_most(edges: Set<(Coord, Coord)>, cell: Coord) -> bool {
    forall|a: Coord, b: Coord|
        connected(edges, cell, a) && #[trigger] on_cycle(edges, a) && connected(edges, cell, b)
            && #[trigger] on_cycle(edges, b) ==> reachable(edges, a, b)
}

/// Every cell of the store is settled.
pub open spec fn all_settled(gives: Gives, store: Map<Coord, Record>) -> bool {
    forall|c: Coord| #[trigger] settled(gives, store, c)
}

/// The set went through: the target names a cell and every variable names cells.
pub open spec fn accepted(target: Seq<char>, source: Seq<char>) -> bool {
    cell_coord(target) is Some && first_unreadable(variables_in(source)) is None
}

/// Setting a cell keeps the graph a record of what the stored expressions read.
pub proof fn law_set_keeps_coherence(
    gives: Gives,
    pre: Sheet,
    target: Seq<char>,
    source: Seq<char>,
    post: Sheet,
    reply: Option<Answer>,
)
    requires
        coherent(pre.store, pre.edges),
        set_outcome(gives, pre, target, source, post, reply),
    ensures
        coherent(post.store, post.edges),
        accepted(target, source) ==> coherent(
            entered(
                pre.store,
                cell_coord(target)->0,
                source,
                expansion(variables_in(source))->0,
                post.store,
            ),
            post.edges,
        ),
{
    if accepted(target, source) {
        let cell = cell_coord(target)->0;
        let deps = expansion(variables_in(source))->0;
        lemma_expansion_some(variables_in(source));
        let mid = entered(pre.store, cell, source, deps, post.store);
        let edges = post.edges;
        lemma_entry_coherent(pre.store, pre.edges, cell, source, deps, mid[cell]);
        assert(mid =~= pre.store.insert(cell, mid[cell]));
        assert(coherent(mid, edges));
        assert(post.store.dom() == mid.dom());
        assert forall|c: Coord| record_at(post.store, c).expr == record_at(mid, c).expr by {
            if post.store.contains_key(c) {
                assert(mid.contains_key(c));
            }
        }
        lemma_coherent_same_exprs(mid, edges, post.store);
    }
}

/// After a set that went through, the edges that lead to the cell come from
/// exactly the cells that its expression refers to, ranges counted cell by cell.
pub proof fn law_edges_are_references(
    gives: Gives,
    pre: Sheet,
    target: Seq<char>,
    source: Seq<char>,
    post: Sheet,
    reply: Option<Answer>,
    from: Coord,
)
    requires
        set_outcome(gives, pre, target, source, post, reply),
        accepted(target, source),
    ensures
        post.edges.contains((from, cell_coord(target)->0)) <==> expansion(
            variables_in(source),
        )->0.contains(from),
{
}

/// A cell is connected to itself, and to whatever reads a cell it is connected to.
pub proof fn lemma_connected_along(edges: Set<(Coord, Coord)>, cell: Coord, from: Coord, to: Coord)
    requires
        edges.contains((from, to)),
    ensures
        connected(edges, cell, cell),
        connected(edges, cell, from) <==> connected(edges, cell, to),
{
    lemma_reachable_self(both_ways(edges), cell);
    lemma_reachable_edge(both_ways(edges), from, to);
    lemma_reachable_edge(both_ways(edges), to, from);
    if connected(edges, cell, from) {
        lemma_reachable_trans(both_ways(edges), cell, from, to);
    }
    if connected(edges, cell, to) {
        lemma_reachable_trans(both_ways(edges), cell, to, from);
    }
}

/// While no cycle is near, setting a cell leaves every cell settled: each
/// value is one that evaluating the cell's expression against the records as
/// they now are may give.
pub proof fn law_acyclic_set_settles(
    gives: Gives,
    pre: Sheet,
    target: Seq<char>,
    source: Seq<char>,
    post: Sheet,
    reply: Option<Answer>,
)
    requires
        coherent(pre.store, pre.edges),
        all_settled(gives, pre.store),
        set_outcome(gives, pre, target, source, post, reply),
        accepted(target, source) ==> !component_has_cycle(post.edges, cell_coord(target)->0),
    ensures
        all_settled(gives, post.store),
{
    if accepted(target, source) {
        let cell = cell_coord(target)->0;
        let deps = expansion(variables_in(source))->0;
        let mid = entered(pre.store, cell, source, deps, post.store);
        let edges = post.edges;
        assert(recomputed(gives, mid, edges, cell, post.store));
        lemma_reachable_self(both_ways(edges), cell);
        assert forall|c: Coord| #[trigger] settled(gives, post.store, c) by {
            if post.store.contains_key(c) {
                assert(mid.contains_key(c));
                if connected(edges, cell, c) && mid[c].expr is Some {
                } else if mid[c].expr is Some {
                    assert(c != cell);
                    assert(pre.store.contains_key(c));
                    assert(settled(gives, pre.store, c));
                    assert forall|u: Coord| #[trigger] pre.edges.contains((u, c)) implies value_at(
                        post.store,
                        u,
                    ) == value_at(pre.store, u) by {
                        assert(edges.contains((u, c)));
                        lemma_connected_along(edges, cell, u, c);
                        assert(u != cell);
                        if post.store.contains_key(u) {
                            assert(mid.contains_key(u));
                        }
                    }
                    lemma_settled_frame(gives, pre.store, pre.edges, post.store, c);
                }
            }
        }
    }
}

/// Records that are settled over the same expressions and the same values
/// without expression are the same records, as far as an order of evaluation
/// goes, if evaluating each of these expressions gives one value at most.
pub proof fn lemma_same_fixed_point(
    gives: Gives,
    edges: Set<(Coord, Coord)>,
    order: Seq<Coord>,
    one: Map<Coord, Record>,
    other: Map<Coord, Record>,
    upto: int,
)
    requires
        forall|k: int|
            0 <= k < order.len() && record_at(one, #[trigger] order[k]).expr is Some ==> functional_at(
                gives,
                record_at(one, order[k]).expr->0,
            ),
        coherent(one, edges),
        respects(edges, order),
        forall|u: Coord, k: int|
            0 <= k < order.len() && #[trigger] edges.contains((u, order[k])) ==> order.contains(u),
        forall|k: int|
            0 <= k < order.len() ==> record_at(one, #[trigger] order[k]).expr == record_at(
                other,
                order[k],
            ).expr,
        forall|k: int|
            0 <= k < order.len() && record_at(one, #[trigger] order[k]).expr is None ==> record_at(
                one,
                order[k],
            ) == record_at(other, order[k]),
        forall|k: int|
            0 <= k < order.len() ==> settled(gives, one, #[trigger] order[k]) && settled(gives, other, order[k]),
        0 <= upto <= order.len(),
    ensures
        forall|k: int|
            0 <= k < upto ==> record_at(one, #[trigger] order[k]) == record_at(other, order[k]),
    decreases upto,
{
    if upto > 0 {
        lemma_same_fixed_point(gives, edges, order, one, other, upto - 1);
        let last = upto - 1;
        let c = order[last];
        if record_at(one, c).expr is Some {
            let source = record_at(one, c).expr->0;
            assert forall|u: Coord| #[trigger] edges.contains((u, c)) implies value_at(other, u)
                == value_at(one, u) by {
                assert(edges.contains((u, order[last])));
                assert(order.contains(u));
                let k = choose|k: int| 0 <= k < order.len() && order[k] == u;
                if k >= last {
                    assert(!edges.contains((order[k], order[last])));
                }
                assert(record_at(one, order[k]) == record_at(other, order[k]));
            }
            lemma_same_bindings(one, edges, other, c);
            assert(settled(gives, one, order[last]) && settled(gives, other, order[last]));
            let bindings = bindings_for(one, variables_in(source));
            assert(functional_at(gives, source));
            assert(gives(formula(source), bindings, record_at(one, c).value));
            assert(gives(formula(source), bindings, record_at(other, c).value));
        }
    }
}

/// What a plan lists is closed under the edges that come in.
pub proof fn lemma_plan_closed(edges: Set<(Coord, Coord)>, cell: Coord, order: Seq<Coord>)
    requires
        is_plan(edges, cell, order),
    ensures
        forall|u: Coord, k: int|
            0 <= k < order.len() && #[trigger] edges.contains((u, order[k])) ==> order.contains(u),
{
    assert forall|u: Coord, k: int|
        0 <= k < order.len() && #[trigger] edges.contains((u, order[k])) implies order.contains(u) by {
        assert(order.contains(order[k]));
        lemma_connected_along(edges, cell, u, order[k]);
    }
}

/// No cell lies on a cycle.
pub open spec fn no_cycle(edges: Set<(Coord, Coord)>) -> bool {
    forall|c: Coord| !#[trigger] on_cycle(edges, c)
}

/// The sets with the targets and sources `requests` lead from `pre` to `post`,
/// one after the other, and none of them leaves a cycle.
pub open spec fn acyclic_sequence(
    gives: Gives,
    pre: Sheet,
    requests: Seq<(Seq<char>, Seq<char>)>,
    post: Sheet,
) -> bool
    decreases requests.len(),
{
    if requests.len() == 0 {
        post == pre
    } else {
        exists|mid: Sheet, reply: Option<Answer>|
            acyclic_sequence(gives, pre, requests.drop_last(), mid) && #[trigger] set_outcome(
                gives,
                mid,
                requests.last().0,
                requests.last().1,
                post,
                reply,
            ) && no_cycle(post.edges)
    }
}

/// After any sequence of sets that leave no cycle, every cell is settled: its
/// value is one that evaluating its expression against the records as they
/// are at the end may give.
pub proof fn law_acyclic_sequence_settles(
    gives: Gives,
    pre: Sheet,
    requests: Seq<(Seq<char>, Seq<char>)>,
    post: Sheet,
)
    requires
        coherent(pre.store, pre.edges),
        all_settled(gives, pre.store),
        acyclic_sequence(gives, pre, requests, post),
    ensures
        coherent(post.store, post.edges),
        all_settled(gives, post.store),
    decreases requests.len(),
{
    if requests.len() > 0 {
        let (mid, reply) = choose|mid: Sheet, reply: Option<Answer>|
            acyclic_sequence(gives, pre, requests.drop_last(), mid) && #[trigger] set_outcome(
                gives,
                mid,
                requests.last().0,
                requests.last().1,
                post,
                reply,
            ) && no_cycle(post.edges);
        law_acyclic_sequence_settles(gives, pre, requests.drop_last(), mid);
        law_set_keeps_coherence(gives, mid, requests.last().0, requests.last().1, post, reply);
        law_acyclic_set_settles(gives, mid, requests.last().0, requests.last().1, post, reply);
    }
}

/// The values of settled cells do not depend on the order in which the cells
/// were set or evaluated: where no cycle is near `cell`, two stores that hold
/// the same expressions and the same values without expression, and whose
/// cells are settled, hold the same record for every cell that `cell` is
/// connected to. This is stated where evaluating gives one value at most for
/// each expression that is stored with one of these cells.
pub proof fn law_settled_records_agree(
    gives: Gives,
    edges: Set<(Coord, Coord)>,
    cell: Coord,
    order: Seq<Coord>,
    one: Map<Coord, Record>,
    other: Map<Coord, Record>,
    at: Coord,
)
    requires
        functional_near(gives, one, edges, cell),
        coherent(one, edges),
        is_plan(edges, cell, order),
        forall|c: Coord|
            connected(edges, cell, c) ==> (#[trigger] record_at(one, c)).expr == record_at(
                other,
                c,
            ).expr,
        forall|c: Coord|
            connected(edges, cell, c) && (#[trigger] record_at(one, c)).expr is None ==> record_at(
                one,
                c,
            ) == record_at(other, c),
        forall|c: Coord|
            connected(edges, cell, c) ==> #[trigger] settled(gives, one, c) && settled(gives, other, c),
        connected(edges, cell, at),
    ensures
        record_at(one, at) == record_at(other, at),
{
    lemma_plan_closed(edges, cell, order);
    assert forall|k: int| 0 <= k < order.len() implies {
        &&& record_at(one, #[trigger] order[k]).expr == record_at(other, order[k]).expr
        &&& record_at(one, order[k]).expr is None ==> record_at(one, order[k]) == record_at(
            other,
            order[k],
        )
        &&& settled(gives, one, order[k]) && settled(gives, other, order[k])
    } by {
        assert(order.contains(order[k]));
    }
    assert forall|k: int|
        0 <= k < order.len() && record_at(one, #[trigger] order[k]).expr is Some implies functional_at(
        gives,
        record_at(one, order[k]).expr->0,
    ) by {
        assert(order.contains(order[k]));
    }
    lemma_same_fixed_point(gives, edges, order, one, other, order.len() as int);
    assert(order.contains(at));
    let k = choose|k: int| 0 <= k < order.len() && order[k] == at;
    assert(record_at(one, order[k]) == record_at(other, order[k]));
}

/// Setting a cell to the expression it was just set to changes nothing:
/// neither a record nor an edge. This is stated where evaluating gives one
/// value at most for the expression and for each expression stored with a
/// cell that the cell is connected to, and of graphs in which the cells on
/// cycles near the cell all lie on one cycle.
pub proof fn law_reset_changes_nothing(
    gives: Gives,
    first: Sheet,
    target: Seq<char>,
    source: Seq<char>,
    second: Sheet,
    reply: Option<Answer>,
    third: Sheet,
    again: Option<Answer>,
)
    requires
        coherent(first.store, first.edges),
        functional_at(gives, source),
        accepted(target, source) ==> functional_near(
            gives,
            second.store,
            second.edges,
            cell_coord(target)->0,
        ),
        set_outcome(gives, first, target, source, second, reply),
        set_outcome(gives, second, target, source, third, again),
        accepted(target, source) ==> one_cycle_at_most(second.edges, cell_coord(target)->0),
    ensures
        third.store == second.store,
        third.edges == second.edges,
        third.nodes == second.nodes,
        again == reply,
{
    if accepted(target, source) {
        let cell = cell_coord(target)->0;
        let deps = expansion(variables_in(source))->0;
        let edges = second.edges;
        assert(third.edges =~= second.edges);
        assert(third.nodes =~= second.nodes);
        law_set_keeps_coherence(gives, first, target, source, second, reply);
        law_set_keeps_coherence(gives, second, target, source, third, again);
        let mid1 = entered(first.store, cell, source, deps, second.store);
        let mid2 = entered(second.store, cell, source, deps, third.store);
        let one = second.store;
        let other = third.store;
        assert(mid1.contains_key(cell) && mid2.contains_key(cell));
        assert(one.dom() == mid1.dom() && other.dom() == mid2.dom());
        assert(one.contains_key(cell));
        assert(mid2.dom() =~= one.dom());
        assert(one[cell].expr == mid1[cell].expr);
        assert(other[cell].expr == mid2[cell].expr);
        if deps.len() == 0 {
            assert(value_at(one, cell) == value_at(other, cell));
        }
        lemma_reachable_self(both_ways(edges), cell);
        if component_has_cycle(edges, cell) {
            let at1 = choose|at: Coord|
                connected(edges, cell, at) && on_cycle(edges, at) && #[trigger] marked(
                    mid1,
                    edges,
                    at,
                    one,
                );
            let at2 = choose|at: Coord|
                connected(edges, cell, at) && on_cycle(edges, at) && #[trigger] marked(
                    mid2,
                    edges,
                    at,
                    other,
                );
            assert(reachable(edges, at1, at2) && reachable(edges, at2, at1));
            assert forall|c: Coord| one.contains_key(c) implies #[trigger] other[c] == one[c] by {
                if reachable(edges, at1, c) {
                    lemma_reachable_trans(edges, at2, at1, c);
                }
                if reachable(edges, at2, c) {
                    lemma_reachable_trans(edges, at1, at2, c);
                }
                assert(other.contains_key(c));
                assert(mid1.contains_key(c));
            }
            assert(other =~= one);
        } else {
            let order = choose|order: Seq<Coord>| is_plan(edges, cell, order);
            assert(recomputed(gives, mid1, edges, cell, one));
            assert(recomputed(gives, mid2, edges, cell, other));
            lemma_plan_closed(edges, cell, order);
            assert forall|c: Coord| record_at(one, c).expr == record_at(other, c).expr by {
                if one.contains_key(c) {
                    assert(other.contains_key(c));
                    assert(mid1.contains_key(c));
                }
            }
            assert forall|c: Coord| record_at(one, c).expr is None implies record_at(one, c)
                == record_at(other, c) by {
                if one.contains_key(c) {
                    assert(other.contains_key(c));
                    assert(mid1.contains_key(c));
                }
            }
            assert forall|k: int| 0 <= k < order.len() implies settled(gives, one, #[trigger] order[k])
                && settled(gives, other, order[k]) by {
                let c = order[k];
                assert(order.contains(c));
                if one.contains_key(c) {
                    assert(other.contains_key(c));
                    assert(mid1.contains_key(c));
                }
            }
            assert forall|k: int|
                0 <= k < order.len() && record_at(one, #[trigger] order[k]).expr is Some implies functional_at(
                gives,
                record_at(one, order[k]).expr->0,
            ) by {
                assert(order.contains(order[k]));
            }
            assert forall|c: Coord| one.contains_key(c) implies #[trigger] other[c] == one[c] by {
                assert(other.contains_key(c));
                assert(mid1.contains_key(c));
                if connected(edges, cell, c) {
                    assert(order.contains(c));
                    let k = choose|k: int| 0 <= k < order.len() && order[k] == c;
                    lemma_same_fixed_point(gives, edges, order, one, other, order.len() as int);
                    assert(record_at(one, order[k]) == record_at(other, order[k]));
                }
            }
            assert(other =~= one);
        }
    }
}

/// After a set that leaves a cycle near the cell, a cell that every such
/// cycle reaches holds the error about self-reference that names it. So do the
/// cells of a cycle where there is one cycle only, and all that depend on them.
pub proof fn law_cycle_is_marked(
    gives: Gives,
    pre: Sheet,
    target: Seq<char>,
    source: Seq<char>,
    post: Sheet,
    reply: Option<Answer>,
    at: Coord,
)
    requires
        coherent(pre.store, pre.edges),
        set_outcome(gives, pre, target, source, post, reply),
        accepted(target, source),
        component_has_cycle(post.edges, cell_coord(target)->0),
        every_cycle_reaches(post.edges, cell_coord(target)->0, at),
    ensures
        post.store.contains_key(at),
        post.store[at].value == Value::Error(self_referential(at)),
{
    let cell = cell_coord(target)->0;
    let deps = expansion(variables_in(source))->0;
    let mid = entered(pre.store, cell, source, deps, post.store);
    let edges = post.edges;
    law_set_keeps_coherence(gives, pre, target, source, post, reply);
    let from = choose|from: Coord|
        connected(edges, cell, from) && on_cycle(edges, from) && #[trigger] marked(
            mid,
            edges,
            from,
            post.store,
        );
    assert(reachable(edges, from, at));
    let before = lemma_reached_has_incoming(edges, from, at);
    assert(reads(record_at(mid, at).expr, before));
    assert(mid.contains_key(at));
    assert(post.store.contains_key(at));
}

/// After a set that leaves no cycle near the cell, every cell that the cell
/// reached before is evaluated anew: it is settled, whatever it held. So a
/// cell that was marked because of a cycle through the cell recovers once the
/// cycle is gone.
pub proof fn law_cycle_recovery(
    gives: Gives,
    pre: Sheet,
    target: Seq<char>,
    source: Seq<char>,
    post: Sheet,
    reply: Option<Answer>,
    at: Coord,
)
    requires
        set_outcome(gives, pre, target, source, post, reply),
        accepted(target, source),
        !component_has_cycle(post.edges, cell_coord(target)->0),
        reachable(pre.edges, cell_coord(target)->0, at),
    ensures
        connected(post.edges, cell_coord(target)->0, at),
        settled(gives, post.store, at),
{
    let cell = cell_coord(target)->0;
    let deps = expansion(variables_in(source))->0;
    let mid = entered(pre.store, cell, source, deps, post.store);
    let edges = post.edges;
    let walk = choose|walk: Seq<Coord>| joins(pre.edges, walk, cell, at);
    let short = lemma_walk_without_return(pre.edges, walk);
    assert forall|i: int| 0 <= i < short.len() - 1 implies #[trigger] step(edges, short, i) by {
        assert(step(pre.edges, short, i));
        assert(short[i + 1] != cell);
    }
    assert(joins(edges, short, cell, at));
    lemma_reachable_connected(edges, cell, at);
    assert(recomputed(gives, mid, edges, cell, post.store));
    if post.store.contains_key(at) {
        assert(mid.contains_key(at));
    }
}

/// A report of a cycle lists the cells of one strongly connected component
/// and every cell that depends on one of them, and no other cell.
pub proof fn law_report_is_component_and_dependents(
    edges: Set<(Coord, Coord)>,
    start: Coord,
    at: Coord,
    cells: Seq<Coord>,
    cell: Coord,
)
    requires
        is_cycle_report(edges, start, at, cells),
    ensures
        cells.contains(cell) <==> exists|via: Coord|
            #[trigger] same_cycle(edges, at, via) && reachable(edges, via, cell),
{
    lemma_reach_of_component(edges, at, cell);
}

/// Nothing is unsettled where nothing is stored, and no edge is missing.
pub proof fn law_blank_sheet_is_settled(gives: Gives)
    ensures
        all_settled(gives, Map::<Coord, Record>::empty()),
        coherent(Map::<Coord, Record>::empty(), Set::<(Coord, Coord)>::empty()),
{
}

/// The letters of a column are letters, and they write the column's number.
pub proof fn lemma_column_name(n: nat)
    ensures
        column_name(n).len() >= 1,
        all_upper(column_name(n)),
        column_value(column_name(n)) == n + 1,
    decreases n,
{
    let name = column_name(n);
    if n < 26 {
        let letter = ('A' as u32 + n) as char;
        assert(letter as u32 == 'A' as u32 + n);
        assert(name.drop_last() =~= Seq::<char>::empty());
        assert(name.last() == letter);
        assert(column_value(name.drop_last()) == 0);
        assert(column_value(name) == column_value(name.drop_last()) * 26 + (name.last() as u32
            - 'A' as u32 + 1));
    } else {
        let head = column_name((n / 26 - 1) as nat);
        let letter = ('A' as u32 + n % 26) as char;
        assert(letter as u32 == 'A' as u32 + n % 26);
        lemma_column_name((n / 26 - 1) as nat);
        assert(name.drop_last() =~= head);
        assert(name.last() == letter);
        assert(column_value(name) == column_value(name.drop_last()) * 26 + (name.last() as u32
            - 'A' as u32 + 1));
        assert forall|i: int| 0 <= i < name.len() implies is_upper(#[trigger] name[i]) by {
            if i < head.len() {
                assert(name[i] == head[i]);
            }
        }
    }
}

/// The digits of a number are digits, and they write the number.
pub proof fn lemma_decimal_text(n: nat)
    ensures
        decimal_text(n).len() >= 1,
        all_digits(decimal_text(n)),
        decimal_value(decimal_text(n)) == n,
    decreases n,
{
    let text = decimal_text(n);
    if n < 10 {
        let digit = ('0' as u32 + n) as char;
        assert(digit as u32 == '0' as u32 + n);
        assert(text.drop_last() =~= Seq::<char>::empty());
        assert(text.last() == digit);
        assert(decimal_value(text.drop_last()) == 0);
        assert(decimal_value(text) == decimal_value(text.drop_last()) * 10 + (text.last() as u32
            - '0' as u32));
    } else {
        let head = decimal_text(n / 10);
        let digit = ('0' as u32 + n % 10) as char;
        assert(digit as u32 == '0' as u32 + n % 10);
        lemma_decimal_text(n / 10);
        assert(text.drop_last() =~= head);
        assert(text.last() == digit);
        assert(decimal_value(text) == decimal_value(text.drop_last()) * 10 + (text.last() as u32
            - '0' as u32));
        assert forall|i: int| 0 <= i < text.len() implies is_digit(#[trigger] text[i]) by {
            if i < head.len() {
                assert(text[i] == head[i]);
            }
        }
    }
}

/// The name of a cell names that cell. The last column that a coordinate can
/// hold is left out: its number is no `u32`, so its name is no identifier.
pub proof fn law_name_names_the_cell(at: Coord)
    requires
        at.0 < u32::MAX,
    ensures
        cell_coord(cell_name(at)) == Some(at),
{
    let letters = column_name(at.0 as nat);
    let digits = decimal_text(at.1 as nat);
    let name = cell_name(at);
    lemma_column_name(at.0 as nat);
    lemma_decimal_text(at.1 as nat);
    let k = letters.len() as int;
    assert forall|j: int| 0 <= j < k implies !is_digit(#[trigger] name[j]) by {
        assert(name[j] == letters[j]);
        assert(is_upper(letters[j]));
    }
    assert(name[k] == digits[0]);
    assert(is_digit(digits[0]));
    lemma_digit_index(name, k);
    assert(name.take(k) =~= letters);
    assert(name.skip(k) =~= digits);
}

/// Letters write the column whose name they are.
pub proof fn lemma_column_value(letters: Seq<char>)
    requires
        letters.len() >= 1,
        all_upper(letters),
    ensures
        column_value(letters) >= 1,
        column_name((column_value(letters) - 1) as nat) == letters,
    decreases letters.len(),
{
    let head = letters.drop_last();
    let last = letters.last();
    assert(is_upper(letters[letters.len() - 1]));
    let digit = (last as u32 - 'A' as u32) as nat;
    assert(('A' as u32 + digit) as char == last);
    assert(column_value(letters) == column_value(head) * 26 + digit + 1);
    if head.len() == 0 {
        assert(column_value(head) == 0);
        assert(column_name(digit) =~= letters);
    } else {
        assert forall|i: int| 0 <= i < head.len() implies is_upper(#[trigger] head[i]) by {
            assert(head[i] == letters[i]);
        }
        lemma_column_value(head);
        let n = (column_value(letters) - 1) as nat;
        assert(n / 26 == column_value(head) && n % 26 == digit);
        assert(column_name(n) =~= letters);
    }
}

/// Digits that do not begin with a needless zero write the number whose
/// digits they are.
pub proof fn lemma_decimal_value(digits: Seq<char>)
    requires
        digits.len() >= 1,
        all_digits(digits),
        digits.len() == 1 || digits[0] != '0',
    ensures
        decimal_text(decimal_value(digits)) == digits,
    decreases digits.len(),
{
    let head = digits.drop_last();
    let last = digits.last();
    assert(is_digit(digits[digits.len() - 1]));
    let digit = (last as u32 - '0' as u32) as nat;
    assert(('0' as u32 + digit) as char == last);
    assert(decimal_value(digits) == decimal_value(head) * 10 + digit);
    if head.len() == 0 {
        assert(decimal_value(head) == 0);
        assert(decimal_text(digit) =~= digits);
    } else {
        assert forall|i: int| 0 <= i < head.len() implies is_digit(#[trigger] head[i]) by {
            assert(head[i] == digits[i]);
        }
        assert(head[0] == digits[0]);
        lemma_decimal_value(head);
        lemma_decimal_prefix(head, 1);
        let first = head.take(1);
        assert(is_digit(head[0]));
        assert(first.drop_last() =~= Seq::<char>::empty());
        assert(decimal_value(first.drop_last()) == 0);
        assert(decimal_value(first) == decimal_value(first.drop_last()) * 10 + (first.last() as u32
            - '0' as u32));
        assert(decimal_value(head) >= 1);
        let n = decimal_value(digits);
        assert(n / 10 == decimal_value(head) && n % 10 == digit);
        assert(decimal_text(n) =~= digits);
    }
}

/// The row of the identifier is written without a needless zero in front.
pub open spec fn canonical(id: Seq<char>) -> bool {
    let row = id.skip(digit_index(id) as int);
    row.len() == 1 || row[0] != '0'
}

/// An identifier whose row is written without a needless zero is the name of
/// the cell that it names.
pub proof fn law_canonical_id_is_the_name(id: Seq<char>, at: Coord)
    requires
        cell_coord(id) == Some(at),
        canonical(id),
    ensures
        cell_name(at) == id,
{
    let k = digit_index(id) as int;
    let letters = id.take(k);
    let digits = id.skip(k);
    lemma_column_value(letters);
    lemma_decimal_value(digits);
    assert(letters + digits =~= id);
}

/// A cell without an expression keeps its record while other cells are set.
pub proof fn law_plain_cells_stay(
    gives: Gives,
    pre: Sheet,
    target: Seq<char>,
    source: Seq<char>,
    post: Sheet,
    reply: Option<Answer>,
    at: Coord,
)
    requires
        coherent(pre.store, pre.edges),
        set_outcome(gives, pre, target, source, post, reply),
        cell_coord(target) != Some(at),
        record_at(pre.store, at).expr is None,
    ensures
        record_at(post.store, at) == record_at(pre.store, at),
{
    if accepted(target, source) {
        let cell = cell_coord(target)->0;
        let deps = expansion(variables_in(source))->0;
        let mid = entered(pre.store, cell, source, deps, post.store);
        let edges = post.edges;
        law_set_keeps_coherence(gives, pre, target, source, post, reply);
        assert(record_at(mid, at) == record_at(pre.store, at));
        if component_has_cycle(edges, cell) {
            let from = choose|from: Coord|
                connected(edges, cell, from) && on_cycle(edges, from) && #[trigger] marked(
                    mid,
                    edges,
                    from,
                    post.store,
                );
            if reachable(edges, from, at) {
                let before = lemma_reached_has_incoming(edges, from, at);
                assert(reads(record_at(mid, at).expr, before));
            }
        }
        if post.store.contains_key(at) {
            assert(mid.contains_key(at));
        }
    }
}

} // verus!
