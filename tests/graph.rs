use circuit_tikz::component::ComponentStructure;
use circuit_tikz::graph::{add_to_graph, remove_from_graph, AddToGraph, CircuitGraph, RemoveFromGraph};
use circuit_tikz::position::Position;

fn pos(x: isize, y: isize) -> Position {
    Position { x, y }
}

#[test]
fn interning_is_idempotent() {
    let mut g = CircuitGraph::new();
    let a = g.get_index_or_add(pos(0, 0));
    let b = g.get_index_or_add(pos(32, 0));
    let a2 = g.get_index_or_add(pos(0, 0));
    let b2 = g.get_index_or_add(pos(32, 0));
    assert_eq!((a, b), (0, 1));
    assert_eq!(a, a2);
    assert_eq!(b, b2);
    assert_eq!(g.node_count(), 2);
    assert_eq!(g.get_pos(1), Some(pos(32, 0)));
    assert_eq!(g.get_pos(2), None);
    assert_eq!(g.node_position(0), pos(0, 0));
}

#[test]
fn nodes_and_edges_get_fresh_indices() {
    let mut g = CircuitGraph::default();
    let n0 = g.add_node(pos(1, 1));
    let n1 = g.add_node(pos(2, 2));
    assert_eq!((n0, n1), (0, 1));
    let e0 = g.add_edge(0, 1, 10);
    let e1 = g.add_edge(1, 0, 11);
    let e2 = g.add_edge(1, 1, 12);
    assert_eq!((e0, e1, e2), (0, 1, 2));
    assert_eq!(g.edge_count(), 3);
    assert_eq!(g.edge(1), (1, 0, 11));
    assert_eq!(g.edge(2), (1, 1, 12));
}

#[test]
fn removing_an_edge_moves_the_last_one_into_its_place() {
    let mut g = CircuitGraph::new();
    g.add_node(pos(0, 0));
    g.add_node(pos(1, 0));
    g.add_node(pos(2, 0));
    g.add_edge(0, 1, 7);
    g.add_edge(1, 2, 8);
    g.add_edge(0, 2, 9);
    g.remove_edge_by_component(7);
    assert_eq!(g.edge_count(), 2);
    assert_eq!(g.edge(0), (0, 2, 9));
    assert_eq!(g.edge(1), (1, 2, 8));
    assert_eq!(g.node_count(), 3);
}

#[test]
fn removing_a_missing_component_changes_nothing() {
    let mut g = CircuitGraph::new();
    add_to_graph(&mut g, AddToGraph(ComponentStructure::To(pos(0, 0), pos(32, 0)), 1));
    remove_from_graph(&mut g, RemoveFromGraph(99));
    assert_eq!(g.edge_count(), 1);
    assert_eq!(g.edge(0), (0, 1, 1));
}

#[test]
fn adding_components_interns_their_points() {
    let mut g = CircuitGraph::new();
    add_to_graph(&mut g, AddToGraph(ComponentStructure::To(pos(0, 0), pos(32, 0)), 1));
    add_to_graph(&mut g, AddToGraph(ComponentStructure::To(pos(32, 0), pos(0, 0)), 2));
    add_to_graph(&mut g, AddToGraph(ComponentStructure::Node(pos(32, 0)), 3));
    assert_eq!(g.node_count(), 2);
    assert_eq!(g.edge(0), (0, 1, 1));
    assert_eq!(g.edge(1), (1, 0, 2));
    assert_eq!(g.edge(2), (1, 1, 3));
}

#[test]
fn incident_edges_are_seen_from_the_node() {
    let mut g = CircuitGraph::new();
    add_to_graph(&mut g, AddToGraph(ComponentStructure::To(pos(0, 0), pos(32, 0)), 1));
    add_to_graph(&mut g, AddToGraph(ComponentStructure::To(pos(32, 0), pos(64, 0)), 2));
    add_to_graph(&mut g, AddToGraph(ComponentStructure::Node(pos(32, 0)), 3));
    add_to_graph(&mut g, AddToGraph(ComponentStructure::Node(pos(64, 0)), 4));
    let mut inc = g.incident_edges(1);
    inc.sort();
    assert_eq!(inc, vec![(0, 1, 0, 1), (1, 1, 2, 2), (2, 1, 1, 3)]);
    let inc0 = g.incident_edges(0);
    assert_eq!(inc0, vec![(0, 0, 1, 1)]);
}
