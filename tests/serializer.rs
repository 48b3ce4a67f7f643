use circuit_tikz::component::{
    update_component_label, ComponentLabel, ComponentMetadata, ComponentStructure, Info,
    TikzComponent,
};
use circuit_tikz::coordinate::PositionLabels;
use circuit_tikz::graph::{add_to_graph, AddToGraph, CircuitGraph};
use circuit_tikz::label_cache::update_child_label;
use circuit_tikz::position::Position;
use circuit_tikz::serialize::serialize_circuit;

fn pos(x: isize, y: isize) -> Position {
    Position { x, y }
}

fn meta(id: u64, kind: TikzComponent, structure: ComponentStructure) -> ComponentMetadata {
    ComponentMetadata { id, kind, info: Info::default(), structure }
}

fn unnamed(n: usize) -> Vec<ComponentLabel> {
    (0..n).map(|_| ComponentLabel { label: String::new() }).collect()
}

fn build(comps: &[ComponentMetadata]) -> CircuitGraph {
    let mut g = CircuitGraph::new();
    for c in comps {
        add_to_graph(&mut g, AddToGraph(c.structure, c.id));
    }
    g
}

#[test]
fn single_ground_node() {
    let comps = vec![meta(1, TikzComponent::Ground, ComponentStructure::Node(pos(160, 0)))];
    let g = build(&comps);
    let text = serialize_circuit(&g, &PositionLabels::new(), &comps, &unnamed(1));
    assert_eq!(text, "\\draw\n (0, 0) node[ground]{}\n;");
}

#[test]
fn two_nodes_sharing_a_point() {
    let comps = vec![
        meta(1, TikzComponent::Ground, ComponentStructure::Node(pos(160, 0))),
        meta(2, TikzComponent::Dot, ComponentStructure::Node(pos(160, 0))),
    ];
    let g = build(&comps);
    let text = serialize_circuit(&g, &PositionLabels::new(), &comps, &unnamed(2));
    assert_eq!(text.matches("node[").count(), 2);
    assert_eq!(text.matches("(0, 0)").count(), 1);
    assert_eq!(text, "\\draw\n (0, 0) node[ground]{}\n  node[circ]{}\n;");
}

#[test]
fn empty_graph() {
    let g = CircuitGraph::new();
    let text = serialize_circuit(&g, &PositionLabels::new(), &Vec::new(), &Vec::new());
    assert_eq!(text, "\\draw\n;");
}

#[test]
fn chain_hides_the_repeated_start() {
    let comps = vec![
        meta(1, TikzComponent::Resistor, ComponentStructure::To(pos(160, 0), pos(224, 0))),
        meta(2, TikzComponent::Capacitor, ComponentStructure::To(pos(224, 0), pos(224, 64))),
    ];
    let g = build(&comps);
    let text = serialize_circuit(&g, &PositionLabels::new(), &comps, &unnamed(2));
    assert_eq!(text, "\\draw\n (0, 0) to[R] ++(2, 0)\n  to[C] ++(0, 2)\n;");
}

#[test]
fn bare_wire_uses_the_short_form() {
    let mut comps = vec![meta(1, TikzComponent::Line, ComponentStructure::To(pos(160, 0), pos(192, 0)))];
    let g = build(&comps);
    let text = serialize_circuit(&g, &PositionLabels::new(), &comps, &unnamed(1));
    assert_eq!(text, "\\draw\n (0, 0) -- ++(1, 0)\n;");
    comps[0].info = Info::default().with_label("w".to_string());
    let text = serialize_circuit(&g, &PositionLabels::new(), &comps, &unnamed(1));
    assert_eq!(text, "\\draw\n (0, 0) to[short, label=w] ++(1, 0)\n;");
}

#[test]
fn three_way_junction_mints_one_anchor() {
    let comps = vec![
        meta(1, TikzComponent::Resistor, ComponentStructure::To(pos(0, 0), pos(32, 0))),
        meta(2, TikzComponent::Capacitor, ComponentStructure::To(pos(32, 0), pos(32, 32))),
        meta(3, TikzComponent::Inductor, ComponentStructure::To(pos(32, 0), pos(64, 0))),
    ];
    let g = build(&comps);
    let text = serialize_circuit(&g, &PositionLabels::new(), &comps, &unnamed(3));
    assert_eq!(
        text,
        "\\draw\n (-5, 0) to[R] ++(1, 0) coordinate (A1)\n  to[C] ++(0, 1)\n (A1) to[cute inductor] ++(1, 0)\n;"
    );
    assert_eq!(text.matches("coordinate").count(), 1);
    assert!(!text.contains("A2"));
}

#[test]
fn every_edge_is_written_once() {
    let comps = vec![
        meta(1, TikzComponent::Resistor, ComponentStructure::To(pos(0, 0), pos(32, 0))),
        meta(2, TikzComponent::Capacitor, ComponentStructure::To(pos(32, 0), pos(32, 32))),
        meta(3, TikzComponent::Inductor, ComponentStructure::To(pos(32, 32), pos(0, 0))),
        meta(4, TikzComponent::VSource, ComponentStructure::To(pos(0, 0), pos(32, 0))),
        meta(5, TikzComponent::Ground, ComponentStructure::Node(pos(0, 0))),
        meta(6, TikzComponent::Diode, ComponentStructure::To(pos(96, 96), pos(128, 96))),
    ];
    let g = build(&comps);
    let text = serialize_circuit(&g, &PositionLabels::new(), &comps, &unnamed(6));
    let body: Vec<&str> = text.lines().filter(|l| l.starts_with(' ')).collect();
    assert_eq!(body.len(), 6);
    for kind in ["to[R]", "to[C]", "to[cute inductor]", "to[V]", "node[ground]", "to[D]"] {
        assert_eq!(text.matches(kind).count(), 1, "{kind} in {text}");
    }
    assert!(text.ends_with(";"));
}

#[test]
fn gate_terminals_name_points() {
    let comps = vec![
        meta(1, TikzComponent::AndGate, ComponentStructure::Node(pos(224, 0))),
        meta(2, TikzComponent::Resistor, ComponentStructure::To(pos(160, 16), pos(192, 16))),
    ];
    let names = update_component_label(&comps);
    let cache = update_child_label(&comps, &names);
    assert_eq!(cache.len(), 3);
    let (p, l) = cache.entry(0);
    assert_eq!((p, l.as_str()), (pos(192, 16), "AND1.in 1"));
    let g = build(&comps);
    let text = serialize_circuit(&g, &cache, &comps, &names);
    assert_eq!(
        text,
        "\\draw\n (2, 0) node[and port] (AND1) {}\n (0, 0.5) to[R] (AND1.in 1)\n;"
    );
}

#[test]
fn terminal_collision_last_wins() {
    let comps = vec![
        meta(1, TikzComponent::NotGate, ComponentStructure::Node(pos(0, 0))),
        meta(2, TikzComponent::NotGate, ComponentStructure::Node(pos(32, 0))),
    ];
    let names = update_component_label(&comps);
    let cache = update_child_label(&comps, &names);
    // NOT1.out at (16, 0) and NOT2.in at (16, -16); NOT1.in at (-16, -16)
    assert_eq!(cache.len(), 4);
    assert_eq!(cache.lookup(&pos(16, 0)).map(|i| cache.entry(i).1.clone()), Some("NOT1.out".to_string()));
    let mut both = PositionLabels::new();
    both.insert(pos(1, 1), "first".to_string());
    both.insert(pos(1, 1), "second".to_string());
    assert_eq!(both.entry(0).1, "second");
}
