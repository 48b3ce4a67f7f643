//! What the core knows of a placed component: its type, its free-form
//! annotation, its name in the document and where it is attached.
use vstd::prelude::*;

use crate::position::Position;
use crate::text::{decimal, decimal_string};

verus! {

/// The kinds of symbol that can be placed.
#[derive(Debug, Clone, Copy, PartialEq, Eq, Hash, Structural)]
pub enum TikzComponent {
    AndGate,
    OrGate,
    XorGate,
    NotGate,
    Dot,
    Resistor,
    Capacitor,
    Inductor,
    Ground,
    VSource,
    ISource,
    Line,
    AmpOp,
    Transistor,
    Diode,
    Transformer,
}

pub open spec fn is_gate_kind(k: TikzComponent) -> bool {
    k is AndGate || k is OrGate || k is XorGate || k is NotGate
}

/// Symbols placed at one point (drawn as a node) rather than between two.
pub open spec fn is_single_kind(k: TikzComponent) -> bool {
    k is Ground || k is Dot || k is AmpOp || k is Transistor || k is Transformer || is_gate_kind(k)
}

/// The symbol's name in the markup.
pub open spec fn tikz_type_text(k: TikzComponent) -> Seq<char> {
    match k {
        TikzComponent::Resistor => "R"@,
        TikzComponent::Capacitor => "C"@,
        TikzComponent::Inductor => "cute inductor"@,
        TikzComponent::VSource => "V"@,
        TikzComponent::ISource => "I"@,
        TikzComponent::Line => "short"@,
        TikzComponent::Dot => "circ"@,
        TikzComponent::Ground => "ground"@,
        TikzComponent::AndGate => "and port"@,
        TikzComponent::OrGate => "or port"@,
        TikzComponent::XorGate => "xor port"@,
        TikzComponent::NotGate => "not port"@,
        TikzComponent::AmpOp => "op amp"@,
        TikzComponent::Transistor => "npn"@,
        TikzComponent::Diode => "D"@,
        TikzComponent::Transformer => "transformer"@,
    }
}

/// The name shown for the symbol in the editor.
pub open spec fn display_name_text(k: TikzComponent) -> Seq<char> {
    match k {
        TikzComponent::Dot => "Ponto"@,
        TikzComponent::Line => "Linha"@,
        TikzComponent::Resistor => "Resistor"@,
        TikzComponent::Capacitor => "Capacitor"@,
        TikzComponent::Inductor => "Indutor"@,
        TikzComponent::Ground => "Terra"@,
        TikzComponent::VSource => "V"@,
        TikzComponent::ISource => "C"@,
        TikzComponent::AndGate => "And"@,
        TikzComponent::OrGate => "Or"@,
        TikzComponent::XorGate => "Xor"@,
        TikzComponent::NotGate => "Not"@,
        TikzComponent::AmpOp => "AmpOp"@,
        TikzComponent::Transistor => "Transistor"@,
        TikzComponent::Diode => "Diodo"@,
        TikzComponent::Transformer => "Trafo"@,
    }
}

impl TikzComponent {
    pub fn is_single(&self) -> (r: bool)
        ensures
            r == is_single_kind(*self),
    {
        match self {
            TikzComponent::Ground | TikzComponent::Dot | TikzComponent::AmpOp
            | TikzComponent::Transistor | TikzComponent::Transformer => true,
            _ => self.is_gate(),
        }
    }

    pub fn is_gate(&self) -> (r: bool)
        ensures
            r == is_gate_kind(*self),
    {
        match self {
            TikzComponent::AndGate | TikzComponent::OrGate | TikzComponent::XorGate
            | TikzComponent::NotGate => true,
            _ => false,
        }
    }

    pub fn tikz_type(&self) -> (r: &'static str)
        ensures
            r@ == tikz_type_text(*self),
    {
        match self {
            TikzComponent::Resistor => "R",
            TikzComponent::Capacitor => "C",
            TikzComponent::Inductor => "cute inductor",
            TikzComponent::VSource => "V",
            TikzComponent::ISource => "I",
            TikzComponent::Line => "short",
            TikzComponent::Dot => "circ",
            TikzComponent::Ground => "ground",
            TikzComponent::AndGate => "and port",
            TikzComponent::OrGate => "or port",
            TikzComponent::XorGate => "xor port",
            TikzComponent::NotGate => "not port",
            TikzComponent::AmpOp => "op amp",
            TikzComponent::Transistor => "npn",
            TikzComponent::Diode => "D",
            TikzComponent::Transformer => "transformer",
        }
    }

    pub fn display_name(&self) -> (r: &'static str)
        ensures
            r@ == display_name_text(*self),
    {
        match self {
            TikzComponent::Dot => "Ponto",
            TikzComponent::Line => "Linha",
            TikzComponent::Resistor => "Resistor",
            TikzComponent::Capacitor => "Capacitor",
            TikzComponent::Inductor => "Indutor",
            TikzComponent::Ground => "Terra",
            TikzComponent::VSource => "V",
            TikzComponent::ISource => "C",
            TikzComponent::AndGate => "And",
            TikzComponent::OrGate => "Or",
            TikzComponent::XorGate => "Xor",
            TikzComponent::NotGate => "Not",
            TikzComponent::AmpOp => "AmpOp",
            TikzComponent::Transistor => "Transistor",
            TikzComponent::Diode => "Diodo",
            TikzComponent::Transformer => "Trafo",
        }
    }
}

/// The free-form annotation of a component: a label printed beside the
/// symbol and a scale factor, both as the user typed them.
pub struct Info {
    pub label: String,
    pub scale: String,
}

/// The annotation text placed after the symbol's type inside `[...]`:
/// `, label=<label>` when the label is not empty, then `, scale=<scale>`
/// when the scale is not `1`.
pub open spec fn info_text(label: Seq<char>, scale: Seq<char>) -> Seq<char> {
    (if label.len() > 0 {
        ", label="@ + label
    } else {
        Seq::empty()
    }) + (if scale != "1"@ {
        ", scale="@ + scale
    } else {
        Seq::empty()
    })
}

impl Default for Info {
    fn default() -> (r: Self)
        ensures
            r.label@ == Seq::<char>::empty(),
            r.scale@ == "1"@,
    {
        Info { label: String::new(), scale: String::from_str("1") }
    }
}

impl Info {
    /// The annotation with `label` and the default scale.
    pub fn from_label(label: &String) -> (r: Self)
        ensures
            r.label@ == label@,
            r.scale@ == "1"@,
    {
        Info { label: label.clone(), scale: String::from_str("1") }
    }

    /// A copy of this annotation with another scale.
    pub fn with_scale(&mut self, scale: String) -> (r: Self)
        ensures
            *final(self) == *old(self),
            r.label@ == old(self).label@,
            r.scale@ == scale@,
    {
        Info { label: self.label.clone(), scale }
    }

    /// A copy of this annotation with another label.
    pub fn with_label(&mut self, label: String) -> (r: Self)
        ensures
            *final(self) == *old(self),
            r.label@ == label@,
            r.scale@ == old(self).scale@,
    {
        Info { label, scale: self.scale.clone() }
    }

    /// The text that goes after the type inside the brackets.
    pub fn get_component_info(&self) -> (r: String)
        ensures
            r@ == info_text(self.label@, self.scale@),
    {
        let mut r = String::new();
        if self.label.unicode_len() > 0 {
            r.append(", label=");
            r.append(self.label.as_str());
        }
        let one = String::from_str("1");
        if self.scale != one {
            r.append(", scale=");
            r.append(self.scale.as_str());
        }
        r
    }
}


/// The name a component is known by in the document (`AND1`, `E3`).
pub struct ComponentLabel {
    pub label: String,
}

/// How a named node is declared after its brackets: ` (<name>) `, or
/// nothing when the name is empty.
pub open spec fn name_text(label: Seq<char>) -> Seq<char> {
    if label.len() > 0 {
        " ("@ + label + ") "@
    } else {
        Seq::empty()
    }
}

impl ComponentLabel {
    pub fn get_label(&self) -> (r: String)
        ensures
            r@ == name_text(self.label@),
    {
        if self.label.unicode_len() > 0 {
            let mut r = String::from_str(" (");
            r.append(self.label.as_str());
            r.append(") ");
            r
        } else {
            String::new()
        }
    }
}

/// Kinds that share a naming prefix are counted together.
pub open spec fn label_group(k: TikzComponent) -> nat {
    match k {
        TikzComponent::AndGate => 0,
        TikzComponent::OrGate => 1,
        TikzComponent::XorGate => 2,
        TikzComponent::NotGate => 3,
        TikzComponent::AmpOp => 4,
        TikzComponent::Transformer => 5,
        TikzComponent::Transistor => 6,
        _ => 7,
    }
}

/// The prefix of a component's name.
pub open spec fn type_prefix(k: TikzComponent) -> Seq<char> {
    match k {
        TikzComponent::AndGate => "AND"@,
        TikzComponent::OrGate => "OR"@,
        TikzComponent::XorGate => "XOR"@,
        TikzComponent::NotGate => "NOT"@,
        TikzComponent::AmpOp => "AOP"@,
        TikzComponent::Transformer => "T"@,
        TikzComponent::Transistor => "S"@,
        _ => "E"@,
    }
}

/// How many of `kinds` are in group `g`.
pub open spec fn group_count(kinds: Seq<TikzComponent>, g: nat) -> nat
    decreases kinds.len(),
{
    if kinds.len() == 0 {
        0
    } else {
        group_count(kinds.drop_last(), g) + if label_group(kinds.last()) == g {
            1nat
        } else {
            0nat
        }
    }
}

/// The name of the `i`-th component: its prefix, then how many components
/// of its group come up to and including it.
pub open spec fn component_name(kinds: Seq<TikzComponent>, i: int) -> Seq<char> {
    type_prefix(kinds[i]) + decimal(group_count(kinds.take(i + 1), label_group(kinds[i])))
}

fn label_group_of(k: TikzComponent) -> (r: u8)
    ensures
        r as nat == label_group(k),
{
    match k {
        TikzComponent::AndGate => 0,
        TikzComponent::OrGate => 1,
        TikzComponent::XorGate => 2,
        TikzComponent::NotGate => 3,
        TikzComponent::AmpOp => 4,
        TikzComponent::Transformer => 5,
        TikzComponent::Transistor => 6,
        _ => 7,
    }
}

pub fn format_type(k: TikzComponent) -> (r: &'static str)
    ensures
        r@ == type_prefix(k),
{
    match k {
        TikzComponent::AndGate => "AND",
        TikzComponent::OrGate => "OR",
        TikzComponent::XorGate => "XOR",
        TikzComponent::NotGate => "NOT",
        TikzComponent::AmpOp => "AOP",
        TikzComponent::Transformer => "T",
        TikzComponent::Transistor => "S",
        _ => "E",
    }
}

/// Where a component is attached: one point, or the two ends it joins.
#[derive(Debug, Clone, Copy)]
pub enum ComponentStructure {
    Node(Position),
    To(Position, Position),
}

/// The point a component is placed by: its only point, or its first end.
pub open spec fn anchor_of(s: ComponentStructure) -> Position {
    match s {
        ComponentStructure::Node(p) => p,
        ComponentStructure::To(a, _) => a,
    }
}

/// Everything the core reads of one placed component.
pub struct ComponentMetadata {
    /// The component's identity; graph edges carry it.
    pub id: u64,
    pub kind: TikzComponent,
    pub info: Info,
    pub structure: ComponentStructure,
}

pub open spec fn kinds_of(components: Seq<ComponentMetadata>) -> Seq<TikzComponent> {
    components.map_values(|c: ComponentMetadata| c.kind)
}

/// Names every component in order: `AND1`, `AND2`, `OR1`, `E1`, ... Kinds
/// without a prefix of their own are all named `E<n>`.
pub fn update_component_label(components: &Vec<ComponentMetadata>) -> (r: Vec<ComponentLabel>)
    ensures
        r@.len() == components@.len(),
        forall|i: int|
            0 <= i < r@.len() ==> #[trigger] r@[i].label@ == component_name(
                kinds_of(components@),
                i,
            ),
{
    let ghost kinds = kinds_of(components@);
    let mut r: Vec<ComponentLabel> = Vec::new();
    let n = components.len();
    for i in 0..n
        invariant
            n == components@.len(),
            kinds == kinds_of(components@),
            r@.len() == i,
            forall|j: int| 0 <= j < i ==> #[trigger] r@[j].label@ == component_name(kinds, j),
    {
        let kind = components[i].kind;
        let g = label_group_of(kind);
        let mut count: u64 = 0;
        for j in 0..i + 1
            invariant
                n == components@.len(),
                kinds == kinds_of(components@),
                i < n,
                g as nat == label_group(kinds[i as int]),
                count as nat == group_count(kinds.take(j as int), g as nat),
                count <= j,
        {
            assert(kinds.take(j + 1).drop_last() =~= kinds.take(j as int));
            if label_group_of(components[j].kind) == g {
                count = count + 1;
            }
        }
        let mut name = String::from_str(format_type(kind));
        let digits = decimal_string(count as u128);
        name.append(digits.as_str());
        r.push(ComponentLabel { label: name });
    }
    r
}

/// A named connection point of a device, relative to the device's anchor.
pub struct Terminal {
    pub dx: isize,
    pub dy: isize,
    pub suffix: &'static str,
}

/// The named terminals of each kind, as (dx, dy, suffix), in grid units.
pub open spec fn terminal_table(k: TikzComponent) -> Seq<(int, int, Seq<char>)> {
    match k {
        TikzComponent::AndGate | TikzComponent::OrGate | TikzComponent::XorGate => seq![
            (-32, 16, ".in 1"@),
            (-32, -16, ".in 2"@),
            (32, 0, ".out"@),
        ],
        TikzComponent::NotGate => seq![(-16, -16, ".in"@), (16, 0, ".out"@)],
        TikzComponent::AmpOp => seq![(-32, 16, ".-"@), (-32, -16, ".+"@), (48, 0, ".out"@)],
        _ => seq![],
    }
}

pub fn component_terminals(k: TikzComponent) -> (r: Vec<Terminal>)
    ensures
        r@.len() == terminal_table(k).len(),
        forall|i: int|
            0 <= i < r@.len() ==> (#[trigger] r@[i]).dx == terminal_table(k)[i].0 && r@[i].dy
                == terminal_table(k)[i].1 && r@[i].suffix@ == terminal_table(k)[i].2,
{
    match k {
        TikzComponent::AndGate | TikzComponent::OrGate | TikzComponent::XorGate => vec![
            Terminal { dx: -32, dy: 16, suffix: ".in 1" },
            Terminal { dx: -32, dy: -16, suffix: ".in 2" },
            Terminal { dx: 32, dy: 0, suffix: ".out" },
        ],
        TikzComponent::NotGate => vec![
            Terminal { dx: -16, dy: -16, suffix: ".in" },
            Terminal { dx: 16, dy: 0, suffix: ".out" },
        ],
        TikzComponent::AmpOp => vec![
            Terminal { dx: -32, dy: 16, suffix: ".-" },
            Terminal { dx: -32, dy: -16, suffix: ".+" },
            Terminal { dx: 48, dy: 0, suffix: ".out" },
        ],
        _ => Vec::new(),
    }
}

/// A request to replace a component's annotation label.
pub struct UpdateLabel {
    pub label: String,
}

impl UpdateLabel {
    pub fn new(label: String) -> (r: Self)
        ensures
            r.label@ == label@,
    {
        UpdateLabel { label }
    }
}

/// What a click on the grid does.
#[derive(Debug, Clone, Copy, PartialEq, Eq, Hash, Structural)]
pub enum MouseMode {
    SelectAndCreate,
    Pan,
    Create,
}

impl Default for MouseMode {
    fn default() -> (r: Self)
        ensures
            r == MouseMode::SelectAndCreate,
    {
        MouseMode::SelectAndCreate
    }
}

/// What a key press asks of the editor.
#[derive(Debug, Clone, Copy, PartialEq, Eq, Structural)]
pub enum KeyAction {
    Exit,
    RemoveAll,
    Select(TikzComponent),
    Ignore,
}

/// The editor's shortcuts: `q` quits, `` ` `` deletes everything, and a
/// letter picks the symbol to place; keys go to a text field instead while
/// one has the focus.
pub open spec fn key_action(key: char, input_focused: bool) -> KeyAction {
    if input_focused {
        KeyAction::Ignore
    } else if key == 'q' {
        KeyAction::Exit
    } else if key == '`' {
        KeyAction::RemoveAll
    } else if key == 'w' {
        KeyAction::Select(TikzComponent::Line)
    } else if key == 'r' {
        KeyAction::Select(TikzComponent::Resistor)
    } else if key == 'c' {
        KeyAction::Select(TikzComponent::Capacitor)
    } else if key == 'l' {
        KeyAction::Select(TikzComponent::Inductor)
    } else if key == 'v' {
        KeyAction::Select(TikzComponent::VSource)
    } else if key == 'i' {
        KeyAction::Select(TikzComponent::ISource)
    } else if key == 'p' {
        KeyAction::Select(TikzComponent::Dot)
    } else if key == 'g' {
        KeyAction::Select(TikzComponent::Ground)
    } else {
        KeyAction::Ignore
    }
}

pub fn change_current_component(key: char, input_focused: bool) -> (r: KeyAction)
    ensures
        r == key_action(key, input_focused),
{
    if input_focused {
        return KeyAction::Ignore;
    }
    match key {
        'q' => KeyAction::Exit,
        '`' => KeyAction::RemoveAll,
        'w' => KeyAction::Select(TikzComponent::Line),
        'r' => KeyAction::Select(TikzComponent::Resistor),
        'c' => KeyAction::Select(TikzComponent::Capacitor),
        'l' => KeyAction::Select(TikzComponent::Inductor),
        'v' => KeyAction::Select(TikzComponent::VSource),
        'i' => KeyAction::Select(TikzComponent::ISource),
        'p' => KeyAction::Select(TikzComponent::Dot),
        'g' => KeyAction::Select(TikzComponent::Ground),
        _ => KeyAction::Ignore,
    }
}

/// Drops the current selection, if any.
pub fn cancel_action(selected: &mut Option<u64>)
    ensures
        *final(selected) == None::<u64>,
{
    *selected = None;
}

} // verus!
