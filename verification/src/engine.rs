//! The evaluation engine: what setting a cell does to the records and to the
//! dependency graph. The engine evaluates no expression itself: it says which
//! value it needs next, and goes on once it is handed that value.

use crate::cell::{Answer, Argument, Binding, CellRef, Content, Coord, Record, Reply, Value};
use crate::database::{
    argument_for, cell_coord, cell_name, column_cells, database_get_value, database_insert,
    get_cell_argument, matrix_at, parse_to_indices, pos_to_cell_id, record_at, rectangle,
    rectangle_upto, referenced_cells, row_cells, split_cell_id, value_at, values_at, CellStore,
    Records, StoreReader,
};
use crate::dependency_chain::{
    component_has_cycle, edges_with_deps, find_topology_sort_of_weakly_component,
    is_cycle_report, is_plan, nodes_with_deps, update_incoming_edges, DependencyGraph, TopoError,
};
use crate::lists::{lemma_concat_contains, lemma_take_contains};
use crate::runner::{bound, expression_variables, formula, formula_of, texts, variables_in, Gives};
use crate::text::char_index;
use crate::walks::{
    both_ways, connected, joins, lemma_reachable_self, on_cycle, reachable, step,
};
use vstd::prelude::*;
use vstd::string::StringExecFns;

verus! {

/// The cells of a column are those of its rows.
pub proof fn lemma_column_contains(col: u32, lo: int, hi: int, at: Coord)
    requires
        0 <= lo,
        hi <= u32::MAX + 1,
    ensures
        column_cells(col, lo, hi).contains(at) <==> at.0 == col && lo <= at.1 < hi,
{
    let cells = column_cells(col, lo, hi);
    if cells.contains(at) {
        let i = choose|i: int| 0 <= i < cells.len() && cells[i] == at;
    }
    if at.0 == col && lo <= at.1 < hi {
        assert(cells[at.1 - lo] == at);
    }
}

/// The cells of a row are those of its columns.
pub proof fn lemma_row_contains(row: u32, lo: int, hi: int, at: Coord)
    requires
        0 <= lo,
        hi <= u32::MAX + 1,
    ensures
        row_cells(row, lo, hi).contains(at) <==> at.1 == row && lo <= at.0 < hi,
{
    let cells = row_cells(row, lo, hi);
    if cells.contains(at) {
        let i = choose|i: int| 0 <= i < cells.len() && cells[i] == at;
    }
    if at.1 == row && lo <= at.0 < hi {
        assert(cells[at.0 - lo] == at);
    }
}

pub proof fn lemma_rectangle_upto_contains(a: Coord, b: Coord, cols: nat, at: Coord)
    requires
        a.0 + cols <= u32::MAX + 1,
    ensures
        rectangle_upto(a, b, cols).contains(at) <==> a.0 <= at.0 < a.0 + cols && a.1 <= at.1 <= b.1,
    decreases cols,
{
    if cols > 0 {
        let head = rectangle_upto(a, b, (cols - 1) as nat);
        let last = column_cells((a.0 + cols - 1) as u32, a.1 as int, b.1 + 1);
        lemma_rectangle_upto_contains(a, b, (cols - 1) as nat, at);
        lemma_column_contains((a.0 + cols - 1) as u32, a.1 as int, b.1 + 1, at);
        lemma_concat_contains(head, last, at);
    }
}

/// A rectangle holds the cells between its corners, and no others.
pub proof fn lemma_rectangle_contains(a: Coord, b: Coord, at: Coord)
    ensures
        rectangle(a, b).contains(at) <==> a.0 <= at.0 <= b.0 && a.1 <= at.1 <= b.1,
{
    if b.0 >= a.0 {
        lemma_rectangle_upto_contains(a, b, (b.0 - a.0 + 1) as nat, at);
    } else {
        lemma_rectangle_upto_contains(a, b, 0, at);
    }
}

/// The cells that the variables `vars` refer to, in order; `None` where one of
/// them names no cells.
pub open spec fn expansion(vars: Seq<Seq<char>>) -> Option<Seq<Coord>>
    decreases vars.len(),
{
    if vars.len() == 0 {
        Some(Seq::empty())
    } else {
        match (expansion(vars.drop_last()), referenced_cells(vars.last())) {
            (Some(head), Some(cells)) => Some(head + cells),
            _ => None,
        }
    }
}

/// The first of the variables `vars` that names no cells.
pub open spec fn first_unreadable(vars: Seq<Seq<char>>) -> Option<Seq<char>>
    decreases vars.len(),
{
    if vars.len() == 0 {
        None
    } else {
        match first_unreadable(vars.drop_last()) {
            Some(var) => Some(var),
            None => if referenced_cells(vars.last()) is None {
                Some(vars.last())
            } else {
                None
            },
        }
    }
}

/// The bindings with which an expression with the variables `vars` is
/// evaluated against `store`: one for each variable that is bound to something.
pub open spec fn bindings_for(store: Map<Coord, Record>, vars: Seq<Seq<char>>) -> Seq<
    (Seq<char>, Binding),
>
    decreases vars.len(),
{
    if vars.len() == 0 {
        Seq::empty()
    } else {
        let head = bindings_for(store, vars.drop_last());
        match argument_for(store, vars.last()) {
            Some(binding) => head.push((vars.last(), binding)),
            None => head,
        }
    }
}

/// Every variable either names cells or none of them does so in vain: the
/// expansion is there exactly when no variable is unreadable.
pub proof fn lemma_expansion_some(vars: Seq<Seq<char>>)
    ensures
        expansion(vars) is Some <==> first_unreadable(vars) is None,
    decreases vars.len(),
{
    if vars.len() > 0 {
        lemma_expansion_some(vars.drop_last());
    }
}

/// The cells of each variable are among the cells of all of them.
pub proof fn lemma_expansion_holds(vars: Seq<Seq<char>>, k: int, at: Coord)
    requires
        expansion(vars) is Some,
        0 <= k < vars.len(),
        referenced_cells(vars[k]) is Some,
        referenced_cells(vars[k])->0.contains(at),
    ensures
        expansion(vars)->0.contains(at),
    decreases vars.len(),
{
    let head = expansion(vars.drop_last())->0;
    let cells = referenced_cells(vars.last())->0;
    lemma_concat_contains(head, cells, at);
    if k < vars.len() - 1 {
        assert(vars.drop_last()[k] == vars[k]);
        lemma_expansion_holds(vars.drop_last(), k, at);
    }
}

/// Every variable of an expansion names cells.
pub proof fn lemma_expansion_each(vars: Seq<Seq<char>>, k: int)
    requires
        expansion(vars) is Some,
        0 <= k < vars.len(),
    ensures
        referenced_cells(vars[k]) is Some,
    decreases vars.len(),
{
    if k < vars.len() - 1 {
        assert(vars.drop_last()[k] == vars[k]);
        lemma_expansion_each(vars.drop_last(), k);
    }
}

/// What a variable is bound to depends on the values of the cells it refers to only.
pub proof fn lemma_argument_frame(one: Map<Coord, Record>, other: Map<Coord, Record>, token: Seq<char>)
    requires
        referenced_cells(token) is Some ==> forall|at: Coord|
            referenced_cells(token)->0.contains(at) ==> value_at(one, at) == value_at(other, at),
    ensures
        argument_for(one, token) == argument_for(other, token),
{
    let k = char_index(token, '_') as int;
    if k == token.len() {
        match cell_coord(token) {
            Some(c) => {
                assert(referenced_cells(token)->0 == seq![c]);
                assert(seq![c][0] == c);
                assert(seq![c].contains(c));
            },
            None => {},
        }
    } else {
        let rest = token.skip(k + 1);
        if char_index(rest, '_') == rest.len() {
            match (cell_coord(token.take(k)), cell_coord(rest)) {
                (Some(a), Some(b)) => {
                    assert(referenced_cells(token)->0 == rectangle(a, b));
                    assert forall|at: Coord|
                        a.0 <= at.0 <= b.0 && a.1 <= at.1 <= b.1 implies value_at(one, at)
                        == value_at(other, at) by {
                        lemma_rectangle_contains(a, b, at);
                    }
                    if a.0 == b.0 {
                        let cells = column_cells(a.0, a.1 as int, b.1 + 1);
                        assert forall|i: int| 0 <= i < cells.len() implies value_at(one, cells[i])
                            == value_at(other, cells[i]) by {
                            lemma_column_contains(a.0, a.1 as int, b.1 + 1, cells[i]);
                        }
                        assert(values_at(one, cells) =~= values_at(other, cells));
                    } else if a.1 == b.1 {
                        let cells = row_cells(a.1, a.0 as int, b.0 + 1);
                        assert forall|i: int| 0 <= i < cells.len() implies value_at(one, cells[i])
                            == value_at(other, cells[i]) by {
                            lemma_row_contains(a.1, a.0 as int, b.0 + 1, cells[i]);
                        }
                        assert(values_at(one, cells) =~= values_at(other, cells));
                    } else {
                        assert forall|j: int| 0 <= j < matrix_at(one, a, b).len() implies matrix_at(
                            one,
                            a,
                            b,
                        )[j] == matrix_at(other, a, b)[j] by {
                            let cells = column_cells((a.0 + j) as u32, a.1 as int, b.1 + 1);
                            assert forall|i: int| 0 <= i < cells.len() implies value_at(
                                one,
                                cells[i],
                            ) == value_at(other, cells[i]) by {
                                lemma_column_contains(
                                    (a.0 + j) as u32,
                                    a.1 as int,
                                    b.1 + 1,
                                    cells[i],
                                );
                            }
                            assert(values_at(one, cells) =~= values_at(other, cells));
                        }
                        assert(matrix_at(one, a, b) =~= matrix_at(other, a, b));
                    }
                },
                _ => {},
            }
        }
    }
}

/// The bindings of an expression depend on the values of the cells that its
/// variables refer to only.
pub proof fn lemma_bindings_frame(
    one: Map<Coord, Record>,
    other: Map<Coord, Record>,
    vars: Seq<Seq<char>>,
)
    requires
        forall|k: int, at: Coord|
            0 <= k < vars.len() && referenced_cells(#[trigger] vars[k]) is Some && referenced_cells(
                vars[k],
            )->0.contains(at) ==> #[trigger] value_at(one, at) == value_at(other, at),
    ensures
        bindings_for(one, vars) == bindings_for(other, vars),
    decreases vars.len(),
{
    if vars.len() > 0 {
        let head = vars.drop_last();
        assert forall|k: int, at: Coord|
            0 <= k < head.len() && referenced_cells(#[trigger] head[k]) is Some && referenced_cells(
                head[k],
            )->0.contains(at) implies #[trigger] value_at(one, at) == value_at(other, at) by {
            assert(head[k] == vars[k]);
        }
        lemma_bindings_frame(one, other, head);
        let last = vars.last();
        assert(last == vars[vars.len() - 1]);
        lemma_argument_frame(one, other, last);
    }
}

/// The expression, if there is one, refers to the cell at `at`.
pub open spec fn reads(expr: Option<Seq<char>>, at: Coord) -> bool {
    match expr {
        Some(source) => expansion(variables_in(source)) is Some && expansion(
            variables_in(source),
        )->0.contains(at),
        None => false,
    }
}

/// The expression `source` refers to a cell at least, and each of its
/// variables names cells.
pub open spec fn reads_cells(source: Seq<char>) -> bool {
    expansion(variables_in(source)) is Some && expansion(variables_in(source))->0.len() > 0
}

/// The graph records which cells the stored expressions read: an edge leads
/// from `u` to `v` exactly when the expression of `v` refers to `u`. An
/// expression is stored with a cell only if it refers to a cell.
pub open spec fn coherent(store: Map<Coord, Record>, edges: Set<(Coord, Coord)>) -> bool {
    &&& forall|u: Coord, v: Coord|
        #![trigger edges.contains((u, v))]
        #![trigger reads(record_at(store, v).expr, u)]
        edges.contains((u, v)) <==> reads(record_at(store, v).expr, u)
    &&& forall|c: Coord|
        (#[trigger] record_at(store, c)).expr is Some ==> reads_cells(record_at(store, c).expr->0)
}

/// The value of the cell at `at` is one that evaluating its expression
/// against `store` may give. A cell without an expression is settled.
pub open spec fn settled(gives: Gives, store: Map<Coord, Record>, at: Coord) -> bool {
    match record_at(store, at).expr {
        Some(source) => gives(
            formula(source),
            bindings_for(store, variables_in(source)),
            record_at(store, at).value,
        ),
        None => true,
    }
}

/// A cell stays settled while its record and the values it reads stay.
pub proof fn lemma_settled_frame(
    gives: Gives,
    store: Map<Coord, Record>,
    edges: Set<(Coord, Coord)>,
    after: Map<Coord, Record>,
    at: Coord,
)
    requires
        coherent(store, edges),
        settled(gives, store, at),
        record_at(after, at) == record_at(store, at),
        forall|u: Coord| #[trigger] edges.contains((u, at)) ==> value_at(after, u) == value_at(store, u),
    ensures
        settled(gives, after, at),
{
    lemma_same_bindings(store, edges, after, at);
}

/// The bindings of a cell's expression stay while the values it reads stay.
pub proof fn lemma_same_bindings(
    store: Map<Coord, Record>,
    edges: Set<(Coord, Coord)>,
    after: Map<Coord, Record>,
    at: Coord,
)
    requires
        coherent(store, edges),
        forall|u: Coord| #[trigger] edges.contains((u, at)) ==> value_at(after, u) == value_at(store, u),
    ensures
        record_at(store, at).expr is Some ==> bindings_for(
            after,
            variables_in(record_at(store, at).expr->0),
        ) == bindings_for(store, variables_in(record_at(store, at).expr->0)),
{
    if record_at(store, at).expr is Some {
        let source = record_at(store, at).expr->0;
        let vars = variables_in(source);
        assert forall|k: int, u: Coord|
            0 <= k < vars.len() && referenced_cells(#[trigger] vars[k]) is Some && referenced_cells(
                vars[k],
            )->0.contains(u) implies #[trigger] value_at(after, u) == value_at(store, u) by {
            lemma_expansion_holds(vars, k, u);
            assert(reads(record_at(store, at).expr, u));
            assert(edges.contains((u, at)));
        }
        lemma_bindings_frame(after, store, vars);
    }
}

/// Records with the same expressions fit the same graph.
pub proof fn lemma_coherent_same_exprs(
    store: Map<Coord, Record>,
    edges: Set<(Coord, Coord)>,
    after: Map<Coord, Record>,
)
    requires
        coherent(store, edges),
        forall|c: Coord| (#[trigger] record_at(after, c)).expr == record_at(store, c).expr,
    ensures
        coherent(after, edges),
{
    assert forall|u: Coord, v: Coord|
        #![trigger edges.contains((u, v))]
        #![trigger reads(record_at(after, v).expr, u)]
        edges.contains((u, v)) <==> reads(record_at(after, v).expr, u) by {
        assert(record_at(after, v).expr == record_at(store, v).expr);
        assert(edges.contains((u, v)) <==> reads(record_at(store, v).expr, u));
    }
    assert forall|c: Coord| (#[trigger] record_at(after, c)).expr is Some implies reads_cells(
        record_at(after, c).expr->0,
    ) by {
        assert(record_at(after, c).expr == record_at(store, c).expr);
    }
}

/// A variable that is unreadable among the first of a list is so in the whole list.
pub proof fn lemma_unreadable_prefix(vars: Seq<Seq<char>>, k: int)
    requires
        0 <= k <= vars.len(),
        first_unreadable(vars.take(k)) is Some,
    ensures
        first_unreadable(vars) == first_unreadable(vars.take(k)),
    decreases vars.len() - k,
{
    if k < vars.len() {
        assert(vars.take(k + 1).drop_last() =~= vars.take(k));
        lemma_unreadable_prefix(vars, k + 1);
    } else {
        assert(vars.take(k) =~= vars);
    }
}

/// The cells that the variables refer to, or the first variable that names none.
fn expand_variables(vars: &Vec<String>) -> (out: Result<Vec<(u32, u32)>, String>)
    ensures
        match out {
            Ok(cells) => expansion(texts(vars@)) == Some(cells@),
            Err(var) => first_unreadable(texts(vars@)) == Some(var@),
        },
{
    let ghost names = texts(vars@);
    let mut deps: Vec<(u32, u32)> = Vec::new();
    let mut i: usize = 0;
    while i < vars.len()
        invariant
            i <= vars.len(),
            names == texts(vars@),
            expansion(names.take(i as int)) == Some(deps@),
        decreases vars.len() - i,
    {
        let ghost head = names.take(i as int);
        let ghost next = names.take(i + 1);
        assert(next.drop_last() =~= head);
        assert(next.last() == vars@[i as int]@);
        match parse_to_indices(vars[i].as_str()) {
            Some(mut cells) => {
                deps.append(&mut cells);
            },
            None => {
                proof {
                    lemma_expansion_some(head);
                    assert(first_unreadable(next) == Some(vars@[i as int]@));
                    lemma_unreadable_prefix(names, i + 1);
                }
                return Err(vars[i].clone());
            },
        }
        i += 1;
    }
    assert(names.take(i as int) =~= names);
    Ok(deps)
}

/// The bindings with which an expression with the variables `vars` is evaluated.
fn bind_variables(store: &CellStore, vars: &Vec<String>) -> (out: Vec<(String, Argument)>)
    ensures
        bound(out@) == bindings_for(store@, texts(vars@)),
{
    let ghost names = texts(vars@);
    let mut out: Vec<(String, Argument)> = Vec::new();
    let mut i: usize = 0;
    assert(bound(out@) =~= bindings_for(store@, names.take(0)));
    while i < vars.len()
        invariant
            i <= vars.len(),
            names == texts(vars@),
            bound(out@) == bindings_for(store@, names.take(i as int)),
        decreases vars.len() - i,
    {
        let ghost head = names.take(i as int);
        let ghost next = names.take(i + 1);
        let ghost before = out@;
        assert(next.drop_last() =~= head);
        assert(next.last() == vars@[i as int]@);
        match get_cell_argument(store, vars[i].as_str()) {
            Some(argument) => {
                let name = vars[i].clone();
                out.push((name, argument));
                assert(bound(out@) =~= bound(before).push((vars@[i as int]@, argument@)));
            },
            None => {},
        }
        i += 1;
    }
    assert(names.take(i as int) =~= names);
    out
}

/// The message that rejects `key`.
pub open spec fn invalid_key(key: Seq<char>) -> Seq<char> {
    "Invalid Key Provided: "@ + key
}

/// The message that a cell on a cycle, or one that depends on such a cell, holds.
pub open spec fn self_referential(at: Coord) -> Seq<char> {
    "Cell "@ + cell_name(at) + " is self-referential"@
}

/// The reply that rejects `key`.
pub fn invalid_key_reply(key: &str) -> (out: Reply)
    ensures
        out@ == Answer::Error(invalid_key(key@)),
{
    let mut message = String::from_str("Invalid Key Provided: ");
    message.append(key);
    Reply::Error(message)
}

/// The value that marks the cell at `at` as self-referential.
pub fn self_referential_value(at: &(u32, u32)) -> (out: Content)
    ensures
        out@ == Value::Error(self_referential(*at)),
{
    let mut message = String::from_str("Cell ");
    let name = pos_to_cell_id(at);
    message.append(name.as_str());
    message.append(" is self-referential");
    Content::Error(message)
}

/// Gives each of `cells` its error about self-reference and keeps its expression.
fn mark_cycle(store: &mut CellStore, cells: &Vec<(u32, u32)>)
    requires
        forall|i: int| 0 <= i < cells.len() ==> old(store)@.contains_key(#[trigger] cells[i]),
    ensures
        final(store)@.dom() == old(store)@.dom(),
        forall|c: Coord| #[trigger]
            final(store)@.contains_key(c) ==> final(store)@[c] == if cells@.contains(c) {
                Record { value: Value::Error(self_referential(c)), expr: old(store)@[c].expr }
            } else {
                old(store)@[c]
            },
{
    let mut i: usize = 0;
    while i < cells.len()
        invariant
            i <= cells.len(),
            store@.dom() == old(store)@.dom(),
            forall|j: int| 0 <= j < cells.len() ==> old(store)@.contains_key(#[trigger] cells[j]),
            forall|c: Coord| #[trigger]
                store@.contains_key(c) ==> store@[c] == if cells@.take(i as int).contains(c) {
                    Record { value: Value::Error(self_referential(c)), expr: old(store)@[c].expr }
                } else {
                    old(store)@[c]
                },
        decreases cells.len() - i,
    {
        let ghost was = i as int;
        let ghost before = store@;
        let cell = cells[i];
        let record = database_get_value(store, &cell);
        let value = self_referential_value(&cell);
        database_insert(store, cell, CellRef::new(value, record.dependency));
        i += 1;
        assert(store@.dom() =~= old(store)@.dom());
        assert forall|c: Coord| #[trigger] store@.contains_key(c) implies store@[c] == if cells@.take(
            i as int,
        ).contains(c) {
            Record { value: Value::Error(self_referential(c)), expr: old(store)@[c].expr }
        } else {
            old(store)@[c]
        } by {
            lemma_take_contains(cells@, was, c);
            assert(before.contains_key(c));
            assert(before.contains_key(cell));
            if c == cell {
                assert(record@ == before[cell]);
            }
        }
    }
    assert(cells@.take(i as int) =~= cells@);
}

/// A cell that a cell on a cycle reaches has an edge coming in.
pub proof fn lemma_reached_has_incoming(edges: Set<(Coord, Coord)>, at: Coord, to: Coord) -> (from:
    Coord)
    requires
        on_cycle(edges, at),
        reachable(edges, at, to),
    ensures
        edges.contains((from, to)),
{
    let walk = choose|walk: Seq<Coord>| joins(edges, walk, at, to);
    if walk.len() >= 2 {
        assert(step(edges, walk, walk.len() - 2));
        walk[walk.len() - 2]
    } else {
        let round = choose|round: Seq<Coord>| round.len() >= 2 && joins(edges, round, at, at);
        assert(step(edges, round, round.len() - 2));
        round[round.len() - 2]
    }
}

/// The records, the nodes and the edges of an engine.
pub struct Sheet {
    pub store: Map<Coord, Record>,
    pub nodes: Set<Coord>,
    pub edges: Set<(Coord, Coord)>,
}

/// The records right after the new record of `cell` went in, before anything
/// was recomputed: an expression that refers to no cell is evaluated at once
/// and not kept; any other is kept, and the cell is empty for the moment.
pub open spec fn entered(
    before: Map<Coord, Record>,
    cell: Coord,
    source: Seq<char>,
    deps: Seq<Coord>,
    after: Map<Coord, Record>,
) -> Map<Coord, Record> {
    if deps.len() == 0 {
        before.insert(cell, Record { value: value_at(after, cell), expr: None })
    } else {
        before.insert(cell, Record { value: Value::Empty, expr: Some(source) })
    }
}

/// Every cell that `cell` is connected to and that has an expression was
/// evaluated anew and is settled; its expression stays. Every other record
/// stays as it was.
pub open spec fn recomputed(
    gives: Gives,
    mid: Map<Coord, Record>,
    edges: Set<(Coord, Coord)>,
    cell: Coord,
    after: Map<Coord, Record>,
) -> bool {
    &&& after.dom() == mid.dom()
    &&& forall|c: Coord| #[trigger]
        after.contains_key(c) ==> if connected(edges, cell, c) && mid[c].expr is Some {
            after[c].expr == mid[c].expr && settled(gives, after, c)
        } else {
            after[c] == mid[c]
        }
}

/// Every cell that `at` reaches holds its error about self-reference and keeps
/// its expression. Every other record stays as it was.
pub open spec fn marked(
    mid: Map<Coord, Record>,
    edges: Set<(Coord, Coord)>,
    at: Coord,
    after: Map<Coord, Record>,
) -> bool {
    &&& after.dom() == mid.dom()
    &&& forall|c: Coord| #[trigger]
        after.contains_key(c) ==> after[c] == if reachable(edges, at, c) {
            Record { value: Value::Error(self_referential(c)), expr: mid[c].expr }
        } else {
            mid[c]
        }
}

/// What the recomputation after a change to `cell` makes of the records
/// `mid`: where some cell that `cell` is connected to lies on a cycle, one
/// such cell and all that it reaches are marked; else there is an order in
/// which to evaluate, and all that `cell` is connected to is recomputed.
pub open spec fn refreshed(
    gives: Gives,
    mid: Map<Coord, Record>,
    edges: Set<(Coord, Coord)>,
    cell: Coord,
    after: Map<Coord, Record>,
) -> bool {
    if component_has_cycle(edges, cell) {
        exists|at: Coord|
            connected(edges, cell, at) && on_cycle(edges, at) && #[trigger] marked(mid, edges, at, after)
    } else {
        (exists|order: Seq<Coord>| is_plan(edges, cell, order)) && recomputed(
            gives,
            mid,
            edges,
            cell,
            after,
        )
    }
}

/// What setting the cell named `target` to the expression `source` does,
/// where evaluating gives what `gives` says.
pub open spec fn set_outcome(
    gives: Gives,
    pre: Sheet,
    target: Seq<char>,
    source: Seq<char>,
    post: Sheet,
    reply: Option<Answer>,
) -> bool {
    match cell_coord(target) {
        None => post == pre && reply == Some(Answer::Error(invalid_key(target))),
        Some(cell) => match first_unreadable(variables_in(source)) {
            Some(var) => post == pre && reply == Some(Answer::Error(invalid_key(var))),
            None => {
                let deps = expansion(variables_in(source))->0;
                &&& reply is None
                &&& post.nodes == nodes_with_deps(pre.nodes, deps, cell)
                &&& post.edges == edges_with_deps(pre.edges, deps, cell)
                &&& deps.len() == 0 ==> gives(
                    formula(source),
                    Seq::empty(),
                    value_at(post.store, cell),
                )
                &&& refreshed(
                    gives,
                    entered(pre.store, cell, source, deps, post.store),
                    post.edges,
                    cell,
                    post.store,
                )
            },
        },
    }
}

/// The new record of `cell` and its new edges fit together.
pub proof fn lemma_entry_coherent(
    store: Map<Coord, Record>,
    edges: Set<(Coord, Coord)>,
    cell: Coord,
    source: Seq<char>,
    deps: Seq<Coord>,
    record: Record,
)
    requires
        coherent(store, edges),
        expansion(variables_in(source)) == Some(deps),
        record.expr == if deps.len() == 0 {
            None::<Seq<char>>
        } else {
            Some(source)
        },
    ensures
        coherent(store.insert(cell, record), edges_with_deps(edges, deps, cell)),
{
    let after = store.insert(cell, record);
    let links = edges_with_deps(edges, deps, cell);
    assert forall|u: Coord, v: Coord|
        #![trigger links.contains((u, v))]
        #![trigger reads(record_at(after, v).expr, u)]
        links.contains((u, v)) <==> reads(record_at(after, v).expr, u) by {
        if v == cell {
            if deps.len() == 0 {
                if deps.contains(u) {
                    let i = choose|i: int| 0 <= i < deps.len() && deps[i] == u;
                }
            }
        } else {
            assert(record_at(after, v) == record_at(store, v));
            assert(edges.contains((u, v)) <==> reads(record_at(store, v).expr, u));
        }
    }
    assert forall|c: Coord| (#[trigger] record_at(after, c)).expr is Some implies reads_cells(
        record_at(after, c).expr->0,
    ) by {
        if c != cell {
            assert(record_at(after, c) == record_at(store, c));
        }
    }
}

/// What a reply is, if there is one.
pub open spec fn answer_of(reply: Option<Reply>) -> Option<Answer> {
    match reply {
        Some(r) => Some(r@),
        None => None,
    }
}

/// What was asked to be evaluated, with which bindings, and what came back.
pub type Entry = (Seq<char>, Seq<(Seq<char>, Binding)>, Value);

/// What evaluating gave, by the record `log` of it.
pub open spec fn logged(log: Seq<Entry>) -> Gives {
    |text: Seq<char>, bindings: Seq<(Seq<char>, Binding)>, value: Value|
        log.contains((text, bindings, value))
}

/// Whatever `small` gives, `large` gives too.
pub open spec fn within(small: Gives, large: Gives) -> bool {
    forall|text: Seq<char>, bindings: Seq<(Seq<char>, Binding)>, value: Value|
        #[trigger] small(text, bindings, value) ==> large(text, bindings, value)
}

/// A longer record gives what a shorter one gave.
pub proof fn lemma_logged_grows(log: Seq<Entry>, entry: Entry)
    ensures
        within(logged(log), logged(log.push(entry))),
        logged(log.push(entry))(entry.0, entry.1, entry.2),
{
    let more = log.push(entry);
    assert forall|text: Seq<char>, bindings: Seq<(Seq<char>, Binding)>, value: Value|
        #[trigger] logged(log)(text, bindings, value) implies logged(more)(text, bindings, value) by {
        let i = choose|i: int| 0 <= i < log.len() && log[i] == (text, bindings, value);
        assert(more[i] == (text, bindings, value));
    }
    assert(more[log.len() as int] == entry);
}

/// What is settled stays settled where evaluating gives more.
pub proof fn lemma_settled_grows(small: Gives, large: Gives, store: Map<Coord, Record>, at: Coord)
    requires
        within(small, large),
        settled(small, store, at),
    ensures
        settled(large, store, at),
{
}

/// What a set does, it does where evaluating gives more.
pub proof fn lemma_outcome_grows(
    small: Gives,
    large: Gives,
    pre: Sheet,
    target: Seq<char>,
    source: Seq<char>,
    post: Sheet,
    reply: Option<Answer>,
)
    requires
        within(small, large),
        set_outcome(small, pre, target, source, post, reply),
    ensures
        set_outcome(large, pre, target, source, post, reply),
{
    if cell_coord(target) is Some && first_unreadable(variables_in(source)) is None {
        let cell = cell_coord(target)->0;
        let deps = expansion(variables_in(source))->0;
        let mid = entered(pre.store, cell, source, deps, post.store);
        if !component_has_cycle(post.edges, cell) {
            assert forall|c: Coord| #[trigger]
                post.store.contains_key(c) implies if connected(post.edges, cell, c)
                && mid[c].expr is Some {
                post.store[c].expr == mid[c].expr && settled(large, post.store, c)
            } else {
                post.store[c] == mid[c]
            } by {
                if connected(post.edges, cell, c) && mid[c].expr is Some {
                    lemma_settled_grows(small, large, post.store, c);
                }
            }
        }
    }
}

/// What the engine has in hand while a set is under way.
pub struct Work {
    /// The sheet as it was when the set began.
    pub pre: Sheet,
    /// The name of the cell that is set.
    pub target: Seq<char>,
    /// The expression that it is set to.
    pub source: Seq<char>,
    /// What was evaluated for this set so far.
    pub log: Seq<Entry>,
    /// What is asked to be evaluated now.
    pub request: (Seq<char>, Seq<(Seq<char>, Binding)>),
    /// The records right after the new record went in.
    pub mid: Map<Coord, Record>,
}

/// The set went through, and `w.mid` is what the records were right after
/// the new record of `cell` went in.
pub open spec fn entered_well(w: Work, cell: Coord, deps: Seq<Coord>) -> bool {
    &&& cell_coord(w.target) == Some(cell)
    &&& first_unreadable(variables_in(w.source)) is None
    &&& expansion(variables_in(w.source)) == Some(deps)
    &&& w.mid.contains_key(cell)
    &&& w.mid == w.pre.store.insert(cell, w.mid[cell])
    &&& w.mid[cell].expr == if deps.len() == 0 {
        None::<Seq<char>>
    } else {
        Some(w.source)
    }
    &&& deps.len() == 0 ==> w.log.contains((formula(w.source), Seq::empty(), w.mid[cell].value))
    &&& deps.len() > 0 ==> w.mid[cell].value == Value::Empty
}

/// The recomputation is under way: the first `next` cells of `order` are
/// done, the others are as they were.
pub open spec fn underway(w: Work, sheet: Sheet, order: Seq<Coord>, next: int) -> bool {
    let cell = cell_coord(w.target)->0;
    let deps = expansion(variables_in(w.source))->0;
    &&& entered_well(w, cell, deps)
    &&& sheet.nodes == nodes_with_deps(w.pre.nodes, deps, cell)
    &&& sheet.edges == edges_with_deps(w.pre.edges, deps, cell)
    &&& !component_has_cycle(sheet.edges, cell)
    &&& is_plan(sheet.edges, cell, order)
    &&& 0 <= next <= order.len()
    &&& sheet.store.dom() == w.mid.dom()
    &&& coherent(sheet.store, sheet.edges)
    &&& forall|c: Coord| #[trigger] sheet.store.contains_key(c) ==> sheet.store[c].expr == w.mid[c].expr
    &&& forall|c: Coord| #[trigger]
        sheet.store.contains_key(c) && !(order.take(next).contains(c) && w.mid[c].expr is Some)
            ==> sheet.store[c] == w.mid[c]
    &&& forall|j: int| 0 <= j < next ==> settled(logged(w.log), sheet.store, #[trigger] order[j])
}

/// The value of the cell `order[next]`, whose expression is `expr`, is asked for.
pub open spec fn awaiting(
    w: Work,
    store: Map<Coord, Record>,
    order: Seq<Coord>,
    next: int,
    expr: Seq<char>,
) -> bool {
    &&& 0 <= next < order.len()
    &&& record_at(store, order[next]).expr == Some(expr)
    &&& w.request == (formula(expr), bindings_for(store, variables_in(expr)))
}

/// A cell without an expression is done as it is.
proof fn lemma_underway_skip(w: Work, sheet: Sheet, order: Seq<Coord>, next: int)
    requires
        underway(w, sheet, order, next),
        next < order.len(),
        record_at(sheet.store, order[next]).expr is None,
    ensures
        underway(w, sheet, order, next + 1),
{
    assert forall|c: Coord| #[trigger]
        sheet.store.contains_key(c) && !(order.take(next + 1).contains(c) && w.mid[c].expr is Some)
        implies sheet.store[c] == w.mid[c] by {
        lemma_take_contains(order, next, c);
    }
    assert forall|j: int| 0 <= j < next + 1 implies settled(
        logged(w.log),
        sheet.store,
        #[trigger] order[j],
    ) by {}
}

/// The value that came back for the cell `order[next]` is stored, and the
/// cell is done.
proof fn lemma_underway_step(
    w: Work,
    sheet: Sheet,
    order: Seq<Coord>,
    next: int,
    expr: Seq<char>,
    value: Value,
) -> (out: (Work, Sheet))
    requires
        underway(w, sheet, order, next),
        awaiting(w, sheet.store, order, next, expr),
    ensures
        out.0 == (Work { log: w.log.push((w.request.0, w.request.1, value)), ..w }),
        out.1 == (Sheet {
            store: sheet.store.insert(order[next], Record { value, expr: Some(expr) }),
            ..sheet
        }),
        underway(out.0, out.1, order, next + 1),
{
    let entry = (w.request.0, w.request.1, value);
    let more = Work { log: w.log.push(entry), ..w };
    let cell = order[next];
    let before = sheet.store;
    let after = before.insert(cell, Record { value, expr: Some(expr) });
    let edges = sheet.edges;
    let then = Sheet { store: after, ..sheet };
    lemma_logged_grows(w.log, entry);
    assert(before.contains_key(cell));
    assert(after.dom() =~= before.dom());
    assert forall|c: Coord| (#[trigger] record_at(after, c)).expr == record_at(before, c).expr by {}
    lemma_coherent_same_exprs(before, edges, after);
    assert forall|u: Coord| #[trigger] edges.contains((u, cell)) implies value_at(after, u)
        == value_at(before, u) by {
        assert(!edges.contains((order[next], order[next])));
    }
    lemma_same_bindings(before, edges, after, cell);
    assert(settled(logged(more.log), after, cell));
    assert forall|j: int| 0 <= j < next + 1 implies settled(
        logged(more.log),
        after,
        #[trigger] order[j],
    ) by {
        if j < next {
            let other = order[j];
            assert(other != cell);
            assert(settled(logged(w.log), before, other));
            lemma_settled_grows(logged(w.log), logged(more.log), before, other);
            assert forall|u: Coord| #[trigger] edges.contains((u, other)) implies value_at(after, u)
                == value_at(before, u) by {
                assert(!edges.contains((order[next], order[j])));
            }
            lemma_settled_frame(logged(more.log), before, edges, after, other);
        }
    }
    assert forall|c: Coord| #[trigger]
        after.contains_key(c) && !(order.take(next + 1).contains(c) && more.mid[c].expr is Some)
        implies after[c] == more.mid[c] by {
        lemma_take_contains(order, next, c);
        assert(before.contains_key(c));
    }
    assert forall|c: Coord| #[trigger] after.contains_key(c) implies after[c].expr
        == more.mid[c].expr by {
        assert(before.contains_key(c));
    }
    assert(more.log.contains(entry));
    if expansion(variables_in(w.source))->0.len() == 0 {
        let first = (formula(w.source), Seq::<(Seq<char>, Binding)>::empty(), w.mid[cell_coord(w.target)->0].value);
        assert(logged(w.log)(first.0, first.1, first.2));
        assert(logged(more.log)(first.0, first.1, first.2));
    }
    (more, then)
}

/// Once every cell of the order is done, the set is done.
proof fn lemma_underway_done(w: Work, sheet: Sheet, order: Seq<Coord>)
    requires
        underway(w, sheet, order, order.len() as int),
    ensures
        set_outcome(logged(w.log), w.pre, w.target, w.source, sheet, None),
        coherent(sheet.store, sheet.edges),
{
    let cell = cell_coord(w.target)->0;
    let deps = expansion(variables_in(w.source))->0;
    let store = sheet.store;
    let edges = sheet.edges;
    assert(order.take(order.len() as int) =~= order);
    assert(store.contains_key(cell));
    lemma_reachable_self(both_ways(edges), cell);
    assert(order.contains(cell));
    if deps.len() == 0 {
        assert(store[cell] == w.mid[cell]);
    }
    assert(entered(w.pre.store, cell, w.source, deps, store) =~= w.mid);
    assert forall|c: Coord| #[trigger] store.contains_key(c) implies if connected(edges, cell, c)
        && w.mid[c].expr is Some {
        store[c].expr == w.mid[c].expr && settled(logged(w.log), store, c)
    } else {
        store[c] == w.mid[c]
    } by {
        if connected(edges, cell, c) {
            assert(order.contains(c));
            let j = choose|j: int| 0 <= j < order.len() && order[j] == c;
            assert(settled(logged(w.log), store, order[j]));
        } else {
            assert(!order.contains(c));
        }
    }
    assert(recomputed(logged(w.log), w.mid, edges, cell, store));
    if deps.len() == 0 {
        assert(logged(w.log)(formula(w.source), Seq::empty(), value_at(store, cell)));
    }
}

/// What the engine asks for next.
#[derive(Debug, PartialEq, Eq)]
pub enum Step {
    /// Evaluate the expression `source` with its variables bound as
    /// `bindings` says, and hand the value to `Engine::resume`.
    Evaluate { source: String, bindings: Vec<(String, Argument)> },
    /// The set is done; this is the reply, if there is one.
    Done(Option<Reply>),
}

/// Where the engine stands.
#[derive(Clone, Copy)]
enum Phase {
    /// No set is under way.
    Idle,
    /// The value of an expression that refers to no cell is asked for.
    Literal,
    /// The value of a cell that is recomputed is asked for.
    Formula,
}

/// The evaluation engine: the one writer of the cell records and of the
/// dependency graph. It evaluates nothing itself: where a set needs the value
/// of an expression, the engine says which, and goes on once it is handed the
/// value.
pub struct Engine {
    store: CellStore,
    graph: DependencyGraph,
    phase: Phase,
    /// The cell that is set, while the value of its expression is asked for.
    cell: (u32, u32),
    /// The expression whose value is asked for.
    text: String,
    /// The order in which the cells are recomputed, and the place in it of
    /// the cell whose value is asked for.
    order: Vec<(u32, u32)>,
    next: usize,
    work: Ghost<Work>,
}

impl View for Engine {
    type V = Sheet;

    closed spec fn view(&self) -> Sheet {
        Sheet { store: self.store@, nodes: self.graph.nodes(), edges: self.graph.edges() }
    }
}

impl Engine {
    /// The graph is in order and records which cells the stored expressions
    /// read, and what is under way is as far as it says.
    pub closed spec fn wf(&self) -> bool {
        &&& self.graph.wf()
        &&& match self.phase {
            Phase::Idle => coherent(self.store@, self.graph.edges()),
            Phase::Literal => {
                let w = self.work@;
                &&& self@ == w.pre
                &&& coherent(self.store@, self.graph.edges())
                &&& cell_coord(w.target) == Some(self.cell)
                &&& self.text@ == w.source
                &&& first_unreadable(variables_in(w.source)) is None
                &&& expansion(variables_in(w.source)) == Some(Seq::<Coord>::empty())
                &&& w.log == Seq::<Entry>::empty()
                &&& w.request == (formula(w.source), Seq::<(Seq<char>, Binding)>::empty())
            },
            Phase::Formula => {
                &&& underway(self.work@, self@, self.order@, self.next as int)
                &&& awaiting(self.work@, self.store@, self.order@, self.next as int, self.text@)
            },
        }
    }

    /// No set is under way.
    pub closed spec fn idle(&self) -> bool {
        self.phase is Idle
    }

    /// The sheet as it was when the set that is under way began.
    pub closed spec fn began(&self) -> Sheet {
        self.work@.pre
    }

    /// The name of the cell and the expression of the set that is under way.
    pub closed spec fn goal(&self) -> (Seq<char>, Seq<char>) {
        (self.work@.target, self.work@.source)
    }

    /// What was evaluated for the set that is under way, in order.
    pub closed spec fn log(&self) -> Seq<Entry> {
        self.work@.log
    }

    /// The text and the bindings of the expression whose value is asked for.
    pub closed spec fn asked(&self) -> (Seq<char>, Seq<(Seq<char>, Binding)>) {
        self.work@.request
    }

    /// What is asked for is the value of the expression that is set, if it
    /// refers to no cell, under no bindings; else the value of the expression
    /// of some cell, under the bindings that the records as they are give.
    pub proof fn lemma_asked(&self)
        requires
            self.wf(),
            !self.idle(),
        ensures
            self.asked() == (formula(self.goal().1), Seq::<(Seq<char>, Binding)>::empty())
                || exists|at: Coord| #[trigger]
                record_at(self@.store, at).expr is Some && self.asked() == (
                    formula(record_at(self@.store, at).expr->0),
                    bindings_for(self@.store, variables_in(record_at(self@.store, at).expr->0)),
                ),
    {
        if self.phase is Formula {
            let at = self.order@[self.next as int];
            assert(record_at(self@.store, at).expr is Some);
        }
    }

    /// In an engine that is in order and has no set under way, the graph
    /// records what the stored expressions read.
    pub proof fn lemma_wf(&self)
        requires
            self.wf(),
            self.idle(),
        ensures
            coherent(self@.store, self@.edges),
    {
    }

    /// An engine without records, nodes or edges.
    pub fn new() -> (out: Self)
        ensures
            out.wf(),
            out.idle(),
            out@.store == Map::<Coord, Record>::empty(),
            out@.nodes == Set::<Coord>::empty(),
            out@.edges == Set::<(Coord, Coord)>::empty(),
    {
        let ghost nothing = Sheet { store: Map::empty(), nodes: Set::empty(), edges: Set::empty() };
        Engine {
            store: CellStore::new(),
            graph: DependencyGraph::new(),
            phase: Phase::Idle,
            cell: (0, 0),
            text: String::new(),
            order: Vec::new(),
            next: 0,
            work: Ghost(
                Work {
                    pre: nothing,
                    target: Seq::empty(),
                    source: Seq::empty(),
                    log: Seq::empty(),
                    request: (Seq::empty(), Seq::empty()),
                    mid: Map::empty(),
                },
            ),
        }
    }

    /// A handle for reading the records while the engine goes on writing.
    pub fn reader(&self) -> StoreReader {
        self.store.reader()
    }

    /// The record of the cell at `at`.
    pub fn record(&self, at: &(u32, u32)) -> (out: CellRef)
        ensures
            out@ == record_at(self@.store, *at),
    {
        database_get_value(&self.store, at)
    }

    /// Goes on with the recomputation from the place `self.next`: passes over
    /// the cells without expression, and asks for the value of the first cell
    /// with one; where none is left, the set is done.
    fn advance(&mut self) -> (out: Step)
        requires
            old(self).graph.wf(),
            underway(old(self).work@, old(self)@, old(self).order@, old(self).next as int),
        ensures
            final(self).wf(),
            final(self).began() == old(self).began(),
            final(self).goal() == old(self).goal(),
            final(self).log() == old(self).log(),
            match out {
                Step::Done(reply) => {
                    &&& reply is None
                    &&& final(self).idle()
                    &&& set_outcome(
                        logged(old(self).log()),
                        old(self).began(),
                        old(self).goal().0,
                        old(self).goal().1,
                        final(self)@,
                        None,
                    )
                },
                Step::Evaluate { source, bindings } => {
                    &&& !final(self).idle()
                    &&& final(self).asked() == (source@, bound(bindings@))
                },
            },
    {
        let mut i: usize = self.next;
        while i < self.order.len()
            invariant
                *self == *old(self),
                self.graph.wf(),
                underway(self.work@, self@, self.order@, i as int),
            decreases self.order.len() - i,
        {
            let at = self.order[i];
            let record = database_get_value(&self.store, &at);
            match record.dependency {
                Some(expr) => {
                    let vars = expression_variables(expr.as_str());
                    let bindings = bind_variables(&self.store, &vars);
                    let source = formula_of(expr.as_str());
                    let ghost w = self.work@;
                    self.next = i;
                    self.text = expr;
                    self.phase = Phase::Formula;
                    self.work = Ghost(Work { request: (source@, bound(bindings@)), ..w });
                    assert(underway(self.work@, self@, self.order@, i as int));
                    return Step::Evaluate { source, bindings };
                },
                None => {
                    proof {
                        lemma_underway_skip(self.work@, self@, self.order@, i as int);
                    }
                },
            }
            i += 1;
        }
        proof {
            lemma_underway_done(self.work@, self@, self.order@);
        }
        self.phase = Phase::Idle;
        Step::Done(None)
    }

    /// Puts the new record of `cell` in, makes the graph show what the cell
    /// reads, and plans: where a cycle is near, its cells and all that depends
    /// on them are marked and the set is done; else the recomputation begins.
    fn commit(&mut self, cell: (u32, u32), record: CellRef, deps: Vec<(u32, u32)>, Ghost(w): Ghost<Work>) -> (out:
        Step)
        requires
            old(self).graph.wf(),
            coherent(old(self)@.store, old(self)@.edges),
            w.pre == old(self)@,
            cell_coord(w.target) == Some(cell),
            first_unreadable(variables_in(w.source)) is None,
            expansion(variables_in(w.source)) == Some(deps@),
            record@.expr == if deps@.len() == 0 {
                None::<Seq<char>>
            } else {
                Some(w.source)
            },
            deps@.len() == 0 ==> w.log.contains((formula(w.source), Seq::empty(), record@.value)),
            deps@.len() > 0 ==> record@.value == Value::Empty,
        ensures
            final(self).wf(),
            final(self).began() == w.pre,
            final(self).goal() == (w.target, w.source),
            final(self).log() == w.log,
            match out {
                Step::Done(reply) => {
                    &&& reply is None
                    &&& final(self).idle()
                    &&& set_outcome(logged(w.log), w.pre, w.target, w.source, final(self)@, None)
                },
                Step::Evaluate { source, bindings } => {
                    &&& !final(self).idle()
                    &&& final(self).asked() == (source@, bound(bindings@))
                },
            },
    {
        let ghost pre = w.pre;
        let ghost cells = deps@;
        let ghost entry = record@;
        database_insert(&mut self.store, cell, record);
        update_incoming_edges(&mut self.graph, deps, cell);
        let ghost mid = self.store@;
        let ghost edges = self.graph.edges();
        let ghost now = Work { mid, ..w };
        self.work = Ghost(now);
        proof {
            lemma_entry_coherent(pre.store, pre.edges, cell, w.source, cells, entry);
            assert(self.graph.nodes().contains(cell));
            assert(mid[cell] == entry);
        }
        match find_topology_sort_of_weakly_component(&self.graph, cell) {
            Ok(order) => {
                self.order = order;
                self.next = 0;
                proof {
                    assert(entered_well(now, cell, cells));
                    assert(self.order@.take(0) =~= Seq::<Coord>::empty());
                    assert(underway(now, self@, self.order@, 0));
                }
                self.advance()
            },
            Err(TopoError::CycleDetected(report)) => {
                let ghost at = choose|at: Coord| is_cycle_report(edges, cell, at, report@);
                proof {
                    assert forall|i: int| 0 <= i < report.len() implies mid.contains_key(
                        #[trigger] report[i],
                    ) by {
                        assert(report@.contains(report[i]));
                        let from = lemma_reached_has_incoming(edges, at, report[i]);
                        assert(reads(record_at(mid, report[i]).expr, from));
                    }
                }
                mark_cycle(&mut self.store, &report);
                self.phase = Phase::Idle;
                proof {
                    let after = self.store@;
                    if cells.len() == 0 {
                        if reachable(edges, at, cell) {
                            let from = lemma_reached_has_incoming(edges, at, cell);
                            assert(cells.contains(from));
                        }
                        assert(!report@.contains(cell));
                        assert(logged(w.log)(formula(w.source), Seq::empty(), value_at(after, cell)));
                    }
                    assert(after.contains_key(cell));
                    assert(entered(pre.store, cell, w.source, cells, after) =~= mid);
                    assert(marked(mid, edges, at, after));
                    assert forall|c: Coord| (#[trigger] record_at(after, c)).expr == record_at(
                        mid,
                        c,
                    ).expr by {
                        if after.contains_key(c) {
                        }
                    }
                    lemma_coherent_same_exprs(mid, edges, after);
                }
                Step::Done(None)
            },
            Err(TopoError::NodeNotFound) => {
                assert(false);
                Step::Done(None)
            },
        }
    }

    /// Begins to set the cell named `target` to the expression `source`.
    /// Where `target` or a variable of `source` names no cell, the set is done
    /// with an error for reply, and nothing has changed. Else the engine
    /// stores the expression, makes the graph show what it reads, and
    /// recomputes what depends on it, asking for each value that it needs.
    pub fn set(&mut self, target: &str, source: &str) -> (out: Step)
        requires
            old(self).wf(),
            old(self).idle(),
        ensures
            final(self).wf(),
            match out {
                Step::Done(reply) => {
                    &&& final(self).idle()
                    &&& set_outcome(
                        logged(Seq::empty()),
                        old(self)@,
                        target@,
                        source@,
                        final(self)@,
                        answer_of(reply),
                    )
                },
                Step::Evaluate { source: text, bindings } => {
                    &&& cell_coord(target@) is Some
                    &&& first_unreadable(variables_in(source@)) is None
                    &&& !final(self).idle()
                    &&& final(self).began() == old(self)@
                    &&& final(self).goal() == (target@, source@)
                    &&& final(self).log() == Seq::<Entry>::empty()
                    &&& final(self).asked() == (text@, bound(bindings@))
                },
            },
    {
        let cell = match split_cell_id(target) {
            Some(cell) => cell,
            None => {
                return Step::Done(Some(invalid_key_reply(target)));
            },
        };
        let vars = expression_variables(source);
        let deps = match expand_variables(&vars) {
            Ok(deps) => deps,
            Err(var) => {
                return Step::Done(Some(invalid_key_reply(var.as_str())));
            },
        };
        proof {
            lemma_expansion_some(variables_in(source@));
        }
        let text = formula_of(source);
        let ghost w = Work {
            pre: self@,
            target: target@,
            source: source@,
            log: Seq::empty(),
            request: (text@, Seq::empty()),
            mid: self.store@,
        };
        if deps.len() == 0 {
            let bindings: Vec<(String, Argument)> = Vec::new();
            assert(bound(bindings@) =~= Seq::empty());
            assert(deps@ =~= Seq::<Coord>::empty());
            self.cell = cell;
            self.text = source.to_owned();
            self.phase = Phase::Literal;
            self.work = Ghost(w);
            Step::Evaluate { source: text, bindings }
        } else {
            let record = CellRef::new(Content::Empty, Some(source.to_owned()));
            self.commit(cell, record, deps, Ghost(w))
        }
    }

    /// Goes on with the set that is under way, with `value` for the value
    /// that was asked for: stores it, and asks for the next or is done. Once
    /// the set is done, what it has done is what `set_outcome` says of a set
    /// for which evaluating gave what the engine was handed.
    pub fn resume(&mut self, value: Content) -> (out: Step)
        requires
            old(self).wf(),
            !old(self).idle(),
        ensures
            final(self).wf(),
            final(self).began() == old(self).began(),
            final(self).goal() == old(self).goal(),
            final(self).log() == old(self).log().push(
                (old(self).asked().0, old(self).asked().1, value@),
            ),
            match out {
                Step::Done(reply) => {
                    &&& reply is None
                    &&& final(self).idle()
                    &&& set_outcome(
                        logged(final(self).log()),
                        old(self).began(),
                        old(self).goal().0,
                        old(self).goal().1,
                        final(self)@,
                        None,
                    )
                },
                Step::Evaluate { source: text, bindings } => {
                    &&& !final(self).idle()
                    &&& final(self).asked() == (text@, bound(bindings@))
                },
            },
    {
        let ghost w = self.work@;
        let ghost entry = (w.request.0, w.request.1, value@);
        match self.phase {
            Phase::Literal => {
                let ghost now = Work { log: w.log.push(entry), ..w };
                proof {
                    assert(now.log[0] == entry);
                }
                let cell = self.cell;
                let record = CellRef::new(value, None);
                let deps: Vec<(u32, u32)> = Vec::new();
                assert(deps@ =~= Seq::<Coord>::empty());
                self.commit(cell, record, deps, Ghost(now))
            },
            Phase::Formula => {
                let at = self.order[self.next];
                let expr = self.text.clone();
                let ghost stepped = lemma_underway_step(
                    w,
                    self@,
                    self.order@,
                    self.next as int,
                    self.text@,
                    value@,
                );
                database_insert(&mut self.store, at, CellRef::new(value, Some(expr)));
                let size = self.order.len();
                assert(self.next < size);
                self.next = self.next + 1;
                self.work = Ghost(stepped.0);
                assert(self@ == stepped.1);
                self.advance()
            },
            Phase::Idle => {
                assert(false);
                Step::Done(None)
            },
        }
    }
}

impl Records for Engine {
    /// The engine reads what it has stored.
    open spec fn may_read(&self, at: Coord, record: Record) -> bool {
        record == record_at(self@.store, at)
    }

    fn read(&self, key: &(u32, u32)) -> (out: CellRef) {
        self.record(key)
    }
}

/// A request to set a cell: the name of the cell, then the expression.
pub struct Transaction {
    request: Vec<String>,
}

impl Transaction {
    #[verifier::type_invariant]
    spec fn holds_both(&self) -> bool {
        self.request@.len() == 2
    }

    /// The name of the cell to set.
    pub closed spec fn target(&self) -> Seq<char> {
        self.request@[0]@
    }

    /// The expression to set it to.
    pub closed spec fn source(&self) -> Seq<char> {
        self.request@[1]@
    }

    /// A request from the name of a cell and an expression, in this order.
    pub fn new(request: Vec<String>) -> (out: Self)
        requires
            request@.len() == 2,
        ensures
            out.target() == request@[0]@,
            out.source() == request@[1]@,
    {
        Transaction { request }
    }

    /// The name of the cell, then the expression.
    pub fn request(&self) -> (out: &Vec<String>)
        ensures
            out@.len() == 2,
            out@[0]@ == self.target(),
            out@[1]@ == self.source(),
    {
        proof {
            use_type_invariant(self);
        }
        &self.request
    }
}

/// Begins to carry out a request: the set that it asks for.
pub fn execute_transaction(engine: &mut Engine, transaction: &Transaction) -> (out: Step)
    requires
        old(engine).wf(),
        old(engine).idle(),
    ensures
        final(engine).wf(),
        match out {
            Step::Done(reply) => {
                &&& final(engine).idle()
                &&& set_outcome(
                    logged(Seq::empty()),
                    old(engine)@,
                    transaction.target(),
                    transaction.source(),
                    final(engine)@,
                    answer_of(reply),
                )
            },
            Step::Evaluate { source: text, bindings } => {
                &&& cell_coord(transaction.target()) is Some
                &&& first_unreadable(variables_in(transaction.source())) is None
                &&& !final(engine).idle()
                &&& final(engine).began() == old(engine)@
                &&& final(engine).goal() == (transaction.target(), transaction.source())
                &&& final(engine).log() == Seq::<Entry>::empty()
                &&& final(engine).asked() == (text@, bound(bindings@))
            },
        },
{
    proof {
        use_type_invariant(transaction);
    }
    engine.set(transaction.request[0].as_str(), transaction.request[1].as_str())
}

} // verus!
