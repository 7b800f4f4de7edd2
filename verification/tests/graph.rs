use rsheet::dependency_chain::{
    find_topology_sort_of_weakly_component, update_incoming_edges, DependencyGraph, TopoError,
};

fn cell(n: u32) -> (u32, u32) {
    (n, n)
}

fn cells(ns: &[u32]) -> Vec<(u32, u32)> {
    ns.iter().map(|n| cell(*n)).collect()
}

fn sorted(mut list: Vec<(u32, u32)>) -> Vec<(u32, u32)> {
    list.sort();
    list
}

fn before(order: &[(u32, u32)], a: u32, b: u32) -> bool {
    let pa = order.iter().position(|c| *c == cell(a)).unwrap();
    let pb = order.iter().position(|c| *c == cell(b)).unwrap();
    pa < pb
}

fn diamond() -> DependencyGraph {
    // 1 -> 4 -> 5    6 -> 7
    // 1 -> 2 -> 4    8 -> 7
    // 2 -> 3 -> 5
    // 4 -> 3
    let mut graph = DependencyGraph::new();
    update_incoming_edges(&mut graph, cells(&[1, 2]), cell(4));
    update_incoming_edges(&mut graph, cells(&[1]), cell(2));
    update_incoming_edges(&mut graph, cells(&[3, 4]), cell(5));
    update_incoming_edges(&mut graph, cells(&[2, 4]), cell(3));
    update_incoming_edges(&mut graph, cells(&[6, 8]), cell(7));
    graph
}

#[test]
fn unknown_cell_is_reported() {
    let graph = DependencyGraph::new();
    assert_eq!(
        find_topology_sort_of_weakly_component(&graph, (1, 1)),
        Err(TopoError::NodeNotFound)
    );
    let graph = diamond();
    assert_eq!(
        find_topology_sort_of_weakly_component(&graph, (9, 9)),
        Err(TopoError::NodeNotFound)
    );
}

#[test]
fn lone_cell_is_its_own_plan() {
    let mut graph = DependencyGraph::new();
    update_incoming_edges(&mut graph, vec![], (0, 1));
    assert_eq!(
        find_topology_sort_of_weakly_component(&graph, (0, 1)),
        Ok(vec![(0, 1)])
    );
}

#[test]
fn plan_covers_the_component_in_order() {
    let graph = diamond();
    let order = find_topology_sort_of_weakly_component(&graph, cell(2)).unwrap();
    assert_eq!(sorted(order.clone()), cells(&[1, 2, 3, 4, 5]));
    assert!(before(&order, 1, 4));
    assert!(before(&order, 2, 4));
    assert!(before(&order, 1, 2));
    assert!(before(&order, 3, 5));
    assert!(before(&order, 4, 5));
    assert!(before(&order, 2, 3));
    assert!(before(&order, 4, 3));
}

#[test]
fn plan_is_the_same_from_every_cell_of_the_component() {
    let graph = diamond();
    for start in [1, 2, 3, 4, 5] {
        let order = find_topology_sort_of_weakly_component(&graph, cell(start)).unwrap();
        assert_eq!(sorted(order), cells(&[1, 2, 3, 4, 5]));
    }
    for start in [6, 7, 8] {
        let order = find_topology_sort_of_weakly_component(&graph, cell(start)).unwrap();
        assert_eq!(sorted(order.clone()), cells(&[6, 7, 8]));
        assert!(before(&order, 6, 7));
        assert!(before(&order, 8, 7));
    }
}

#[test]
fn plan_grows_with_the_component() {
    let mut graph = diamond();
    update_incoming_edges(&mut graph, cells(&[5]), cell(9));
    let order = find_topology_sort_of_weakly_component(&graph, cell(2)).unwrap();
    assert_eq!(sorted(order.clone()), cells(&[1, 2, 3, 4, 5, 9]));
    assert!(before(&order, 5, 9));
}

#[test]
fn new_dependencies_replace_the_old() {
    let mut graph = diamond();
    update_incoming_edges(&mut graph, cells(&[5]), cell(9));
    update_incoming_edges(&mut graph, vec![], cell(3));
    let order = find_topology_sort_of_weakly_component(&graph, cell(2)).unwrap();
    assert_eq!(sorted(order.clone()), cells(&[1, 2, 3, 4, 5, 9]));
    assert!(before(&order, 3, 5));
    let mut graph = DependencyGraph::new();
    update_incoming_edges(&mut graph, cells(&[1, 2, 3]), cell(4));
    update_incoming_edges(&mut graph, cells(&[5]), cell(4));
    let order = find_topology_sort_of_weakly_component(&graph, cell(4)).unwrap();
    assert_eq!(order, cells(&[5, 4]));
    for alone in [1, 2, 3] {
        assert_eq!(
            find_topology_sort_of_weakly_component(&graph, cell(alone)),
            Ok(vec![cell(alone)])
        );
    }
}

#[test]
fn every_incoming_edge_goes() {
    let mut graph = DependencyGraph::new();
    update_incoming_edges(&mut graph, cells(&[10, 11]), cell(20));
    update_incoming_edges(&mut graph, cells(&[1, 2, 3, 4, 5, 6]), cell(7));
    update_incoming_edges(&mut graph, cells(&[10, 11]), cell(21));
    update_incoming_edges(&mut graph, vec![], cell(7));
    assert_eq!(
        find_topology_sort_of_weakly_component(&graph, cell(7)),
        Ok(vec![cell(7)])
    );
    let order = find_topology_sort_of_weakly_component(&graph, cell(20)).unwrap();
    assert_eq!(sorted(order), cells(&[10, 11, 20, 21]));
}

#[test]
fn repeated_dependencies_count_once() {
    let mut graph = DependencyGraph::new();
    update_incoming_edges(&mut graph, cells(&[1, 1, 2, 1]), cell(3));
    let order = find_topology_sort_of_weakly_component(&graph, cell(3)).unwrap();
    assert_eq!(sorted(order.clone()), cells(&[1, 2, 3]));
    assert!(before(&order, 1, 3));
    assert!(before(&order, 2, 3));
    update_incoming_edges(&mut graph, cells(&[2]), cell(3));
    let order = find_topology_sort_of_weakly_component(&graph, cell(3)).unwrap();
    assert_eq!(order, cells(&[2, 3]));
}

#[test]
fn same_dependencies_twice_change_nothing() {
    let mut graph = diamond();
    let first = find_topology_sort_of_weakly_component(&graph, cell(2)).unwrap();
    update_incoming_edges(&mut graph, cells(&[3, 4]), cell(5));
    update_incoming_edges(&mut graph, cells(&[4, 3]), cell(5));
    let second = find_topology_sort_of_weakly_component(&graph, cell(2)).unwrap();
    assert_eq!(sorted(first), sorted(second.clone()));
    assert!(before(&second, 3, 5));
    assert!(before(&second, 4, 5));
}

#[test]
fn self_reference_is_a_cycle() {
    let mut graph = DependencyGraph::new();
    update_incoming_edges(&mut graph, cells(&[1]), cell(1));
    assert_eq!(
        find_topology_sort_of_weakly_component(&graph, cell(1)),
        Err(TopoError::CycleDetected(vec![cell(1)]))
    );
}

#[test]
fn cycle_report_holds_the_cycle_and_what_depends_on_it() {
    // 3 -> 5 -> 9,  5 -> 1,  1 -> 4 -> 5,  1 -> 2 -> 4
    let mut graph = diamond();
    update_incoming_edges(&mut graph, cells(&[5]), cell(9));
    update_incoming_edges(&mut graph, vec![], cell(3));
    update_incoming_edges(&mut graph, cells(&[5]), cell(1));
    for start in [1, 2, 3, 4, 5, 9] {
        match find_topology_sort_of_weakly_component(&graph, cell(start)) {
            Err(TopoError::CycleDetected(report)) => {
                assert_eq!(sorted(report), cells(&[1, 2, 4, 5, 9]));
            }
            other => panic!("no cycle was found: {:?}", other),
        }
    }
    let order = find_topology_sort_of_weakly_component(&graph, cell(7)).unwrap();
    assert_eq!(sorted(order), cells(&[6, 7, 8]));
}

#[test]
fn broken_cycle_can_be_planned_again() {
    let mut graph = diamond();
    update_incoming_edges(&mut graph, cells(&[5]), cell(9));
    update_incoming_edges(&mut graph, vec![], cell(3));
    update_incoming_edges(&mut graph, cells(&[5]), cell(1));
    update_incoming_edges(&mut graph, cells(&[3]), cell(5));
    let order = find_topology_sort_of_weakly_component(&graph, cell(2)).unwrap();
    assert_eq!(sorted(order.clone()), cells(&[1, 2, 3, 4, 5, 9]));
    assert!(before(&order, 3, 5));
    assert!(before(&order, 5, 9));
    assert!(before(&order, 5, 1));
    assert!(before(&order, 1, 2));
    assert!(before(&order, 1, 4));
    assert!(before(&order, 2, 4));
}

#[test]
fn cycle_upstream_reaches_downstream_only() {
    // 1 <-> 2, 2 -> 3, 4 -> 3
    let mut graph = DependencyGraph::new();
    update_incoming_edges(&mut graph, cells(&[2]), cell(1));
    update_incoming_edges(&mut graph, cells(&[1]), cell(2));
    update_incoming_edges(&mut graph, cells(&[2, 4]), cell(3));
    match find_topology_sort_of_weakly_component(&graph, cell(4)) {
        Err(TopoError::CycleDetected(report)) => {
            assert_eq!(sorted(report), cells(&[1, 2, 3]));
        }
        other => panic!("no cycle was found: {:?}", other),
    }
}

#[test]
fn many_cells_in_a_chain() {
    let mut graph = DependencyGraph::new();
    for n in 1..200u32 {
        update_incoming_edges(&mut graph, cells(&[n - 1]), cell(n));
    }
    let order = find_topology_sort_of_weakly_component(&graph, cell(100)).unwrap();
    let expected: Vec<u32> = (0..200).collect();
    assert_eq!(order, cells(&expected));
}
