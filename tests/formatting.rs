use circuit_tikz::component::{
    change_current_component, KeyAction,
    component_terminals, format_type, update_component_label, ComponentLabel, ComponentMetadata,
    ComponentStructure, Info, MouseMode, TikzComponent, UpdateLabel, cancel_action,
};
use circuit_tikz::placement::draw_initial_component;
use circuit_tikz::position::Position;
use circuit_tikz::text::{decimal_string, scaled_string};

fn meta(id: u64, kind: TikzComponent) -> ComponentMetadata {
    ComponentMetadata {
        id,
        kind,
        info: Info::default(),
        structure: ComponentStructure::Node(Position { x: 0, y: 0 }),
    }
}

#[test]
fn decimal_text() {
    assert_eq!(decimal_string(0), "0");
    assert_eq!(decimal_string(7), "7");
    assert_eq!(decimal_string(1234), "1234");
}

#[test]
fn scaled_text_matches_float_display() {
    assert_eq!(scaled_string(0), "0");
    assert_eq!(scaled_string(32), "1");
    assert_eq!(scaled_string(16), "0.5");
    assert_eq!(scaled_string(-160), "-5");
    assert_eq!(scaled_string(1), "0.03125");
    assert_eq!(scaled_string(-48), "-1.5");
    assert_eq!(scaled_string(40), "1.25");
    for n in [-1000i128, -33, -1, 3, 17, 31, 100, 999] {
        assert_eq!(scaled_string(n), format!("{}", n as f32 * 0.03125));
    }
}

#[test]
fn tikz_coords_offset() {
    assert_eq!(Position { x: 160, y: 0 }.tikz_coords(), (0, 0));
    assert_eq!(Position { x: 0, y: 32 }.tikz_coords(), (-160, 32));
    assert_eq!(Position::default(), Position { x: 0, y: 0 });
}

#[test]
fn component_kinds() {
    assert!(TikzComponent::Ground.is_single());
    assert!(TikzComponent::AndGate.is_single());
    assert!(TikzComponent::AndGate.is_gate());
    assert!(!TikzComponent::Resistor.is_single());
    assert!(!TikzComponent::AmpOp.is_gate());
    assert_eq!(TikzComponent::Inductor.tikz_type(), "cute inductor");
    assert_eq!(TikzComponent::Line.tikz_type(), "short");
    assert_eq!(TikzComponent::Transistor.tikz_type(), "npn");
    assert_eq!(TikzComponent::Dot.display_name(), "Ponto");
    assert_eq!(TikzComponent::ISource.display_name(), "C");
}

#[test]
fn info_annotation_text() {
    let mut info = Info::default();
    assert_eq!(info.scale, "1");
    assert_eq!(info.get_component_info(), "");
    let labelled = info.with_label("R_1".to_string());
    assert_eq!(labelled.get_component_info(), ", label=R_1");
    let mut labelled = labelled;
    let scaled = labelled.with_scale("2".to_string());
    assert_eq!(scaled.label, "R_1");
    assert_eq!(scaled.get_component_info(), ", label=R_1, scale=2");
    assert_eq!(labelled.label, "R_1");
    assert_eq!(labelled.scale, "1");
    let only_scale = Info::default().with_scale("0.5".to_string());
    assert_eq!(only_scale.get_component_info(), ", scale=0.5");
    let from = Info::from_label(&"x".to_string());
    assert_eq!(from.label, "x");
    assert_eq!(from.scale, "1");
}

#[test]
fn node_names() {
    let named = ComponentLabel { label: "AND1".to_string() };
    assert_eq!(named.get_label(), " (AND1) ");
    let unnamed = ComponentLabel { label: String::new() };
    assert_eq!(unnamed.get_label(), "");
}

#[test]
fn component_names_count_per_prefix() {
    let comps = vec![
        meta(1, TikzComponent::AndGate),
        meta(2, TikzComponent::Resistor),
        meta(3, TikzComponent::AndGate),
        meta(4, TikzComponent::Ground),
        meta(5, TikzComponent::OrGate),
        meta(6, TikzComponent::AmpOp),
        meta(7, TikzComponent::Transformer),
        meta(8, TikzComponent::Transistor),
    ];
    let names: Vec<String> = update_component_label(&comps).into_iter().map(|l| l.label).collect();
    assert_eq!(names, vec!["AND1", "E1", "AND2", "E2", "OR1", "AOP1", "T1", "S1"]);
    assert_eq!(format_type(TikzComponent::XorGate), "XOR");
    assert_eq!(format_type(TikzComponent::Capacitor), "E");
}

#[test]
fn terminal_tables() {
    let and = component_terminals(TikzComponent::AndGate);
    let got: Vec<(isize, isize, &str)> = and.iter().map(|t| (t.dx, t.dy, t.suffix)).collect();
    assert_eq!(got, vec![(-32, 16, ".in 1"), (-32, -16, ".in 2"), (32, 0, ".out")]);
    let not: Vec<(isize, isize, &str)> =
        component_terminals(TikzComponent::NotGate).iter().map(|t| (t.dx, t.dy, t.suffix)).collect();
    assert_eq!(not, vec![(-16, -16, ".in"), (16, 0, ".out")]);
    let amp: Vec<(isize, isize, &str)> =
        component_terminals(TikzComponent::AmpOp).iter().map(|t| (t.dx, t.dy, t.suffix)).collect();
    assert_eq!(amp, vec![(-32, 16, ".-"), (-32, -16, ".+"), (48, 0, ".out")]);
    assert!(component_terminals(TikzComponent::Resistor).is_empty());
}

#[test]
fn small_events() {
    let u = UpdateLabel::new("V_in".to_string());
    assert_eq!(u.label, "V_in");
    assert_eq!(MouseMode::default(), MouseMode::SelectAndCreate);
    let mut selected = Some(4u64);
    cancel_action(&mut selected);
    assert_eq!(selected, None);
}

#[test]
fn shortcut_keys() {
    assert_eq!(change_current_component('r', false), KeyAction::Select(TikzComponent::Resistor));
    assert_eq!(change_current_component('g', false), KeyAction::Select(TikzComponent::Ground));
    assert_eq!(change_current_component('w', false), KeyAction::Select(TikzComponent::Line));
    assert_eq!(change_current_component('q', false), KeyAction::Exit);
    assert_eq!(change_current_component('`', false), KeyAction::RemoveAll);
    assert_eq!(change_current_component('x', false), KeyAction::Ignore);
    assert_eq!(change_current_component('q', true), KeyAction::Ignore);
}

#[test]
fn clicks_place_components() {
    let mut first = None;
    let a = Position { x: 0, y: 0 };
    let b = Position { x: 32, y: 0 };
    assert!(draw_initial_component(&mut first, TikzComponent::Resistor, a).is_none());
    assert_eq!(first, Some(a));
    match draw_initial_component(&mut first, TikzComponent::Resistor, b) {
        Some(ComponentStructure::To(p, q)) => assert_eq!((p, q), (a, b)),
        other => panic!("unexpected {other:?}"),
    }
    assert_eq!(first, None);
    assert!(draw_initial_component(&mut first, TikzComponent::Capacitor, a).is_none());
    assert!(draw_initial_component(&mut first, TikzComponent::Capacitor, a).is_none());
    assert_eq!(first, None);
    match draw_initial_component(&mut first, TikzComponent::Ground, b) {
        Some(ComponentStructure::Node(p)) => assert_eq!(p, b),
        other => panic!("unexpected {other:?}"),
    }
}
