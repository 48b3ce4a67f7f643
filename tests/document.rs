use circuit_tikz::component::{ComponentStructure, Info, TikzComponent, UpdateLabel};
use circuit_tikz::document::{delete_component, remove_all, update_label, CircuitDocument, RemoveAll};
use circuit_tikz::position::Position;

fn pos(x: isize, y: isize) -> Position {
    Position { x, y }
}

#[test]
fn new_document_is_empty() {
    let d = CircuitDocument::new();
    assert_eq!(d.text_ref(), "\\draw\n;");
    assert!(d.components_ref().is_empty());
}

#[test]
fn adding_writes_the_drawing() {
    let mut d = CircuitDocument::new();
    assert!(d.add_component(7, TikzComponent::Resistor, Info::default(), ComponentStructure::To(pos(160, 0), pos(192, 0))));
    assert_eq!(d.text_ref(), "\\draw\n (0, 0) to[R] ++(1, 0)\n;");
    assert!(d.add_component(8, TikzComponent::Ground, Info::default(), ComponentStructure::Node(pos(192, 0))));
    assert_eq!(d.text_ref(), "\\draw\n (0, 0) to[R] ++(1, 0)\n  node[ground] (E2) {}\n;");
    assert_eq!(d.graph().edge_count(), 2);
}

#[test]
fn taken_id_or_far_point_is_refused() {
    let mut d = CircuitDocument::new();
    assert!(d.add_component(1, TikzComponent::Dot, Info::default(), ComponentStructure::Node(pos(0, 0))));
    let before = d.text_ref().clone();
    assert!(!d.add_component(1, TikzComponent::Ground, Info::default(), ComponentStructure::Node(pos(32, 0))));
    assert!(!d.add_component(2, TikzComponent::Ground, Info::default(), ComponentStructure::Node(pos(isize::MAX, 0))));
    assert_eq!(d.text_ref(), &before);
    assert_eq!(d.components_ref().len(), 1);
}

#[test]
fn deleting_a_missing_component_keeps_the_text() {
    let mut d = CircuitDocument::new();
    d.add_component(1, TikzComponent::Resistor, Info::default(), ComponentStructure::To(pos(160, 0), pos(192, 0)));
    let before = d.text_ref().clone();
    delete_component(&mut d, 42);
    assert_eq!(d.text_ref(), &before);
    assert_eq!(d.components_ref().len(), 1);
}

#[test]
fn deleting_a_component_drops_its_line() {
    let mut d = CircuitDocument::new();
    d.add_component(1, TikzComponent::Resistor, Info::default(), ComponentStructure::To(pos(160, 0), pos(192, 0)));
    d.add_component(2, TikzComponent::Capacitor, Info::default(), ComponentStructure::To(pos(192, 0), pos(224, 0)));
    delete_component(&mut d, 1);
    assert_eq!(d.components_ref().len(), 1);
    assert_eq!(d.text_ref(), "\\draw\n (1, 0) to[C] ++(1, 0)\n;");
}

#[test]
fn label_update_reaches_the_text() {
    let mut d = CircuitDocument::new();
    d.add_component(1, TikzComponent::Resistor, Info::default(), ComponentStructure::To(pos(160, 0), pos(192, 0)));
    assert!(update_label(&mut d, 1, UpdateLabel::new("R_1".to_string())));
    assert_eq!(d.text_ref(), "\\draw\n (0, 0) to[R, label=R_1] ++(1, 0)\n;");
    assert!(!update_label(&mut d, 2, UpdateLabel::new("x".to_string())));
    let info = Info { label: "R_1".to_string(), scale: "2".to_string() };
    assert!(d.set_info(1, info));
    assert_eq!(d.text_ref(), "\\draw\n (0, 0) to[R, label=R_1, scale=2] ++(1, 0)\n;");
}

#[test]
fn remove_all_empties_the_drawing() {
    let mut d = CircuitDocument::new();
    d.add_component(1, TikzComponent::Resistor, Info::default(), ComponentStructure::To(pos(160, 0), pos(192, 0)));
    d.add_component(2, TikzComponent::Ground, Info::default(), ComponentStructure::Node(pos(192, 0)));
    remove_all(&mut d, RemoveAll);
    assert_eq!(d.text_ref(), "\\draw\n;");
    assert_eq!(d.graph().edge_count(), 0);
    assert_eq!(d.graph().node_count(), 2);
}
