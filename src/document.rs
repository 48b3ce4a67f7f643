//! The schematic as the editor holds it: the placed components, their
//! connection graph, and the drawing text, written anew after every edit.
use vstd::prelude::*;

use crate::component::{
    anchor_of, component_name, kinds_of, update_component_label, ComponentLabel,
    ComponentMetadata, ComponentStructure, Info, TikzComponent, UpdateLabel,
};
use crate::graph::{
    add_to_graph, added, is_first_edge_of, remove_component, remove_from_graph, AddToGraph,
    CircuitGraph, RemoveFromGraph,
};
use crate::label_cache::{all_device_labels, recorded, update_child_label};
use crate::position::{in_grid, Position};
use crate::serialize::{
    components_distinct, has_meta, lines, rendered, serialize_circuit, valid_traversal, Step,
};

verus! {

/// A request to delete every component.
pub struct RemoveAll;

/// The names the components get, in order.
pub open spec fn names_of(components: Seq<ComponentMetadata>) -> Seq<Seq<char>> {
    Seq::new(components.len(), |i: int| component_name(kinds_of(components), i))
}

/// The terminal labels of the components.
pub open spec fn cache_of(components: Seq<ComponentMetadata>) -> Seq<(Position, Seq<char>)> {
    recorded(all_device_labels(components, names_of(components), components.len()))
}

/// `text` is what a pass over this graph writes.
pub open spec fn text_of_pass(
    nodes: Seq<Position>,
    edges: Seq<(nat, nat, u64)>,
    components: Seq<ComponentMetadata>,
    text: Seq<char>,
) -> bool {
    exists|steps: Seq<Step>|
        valid_traversal(nodes, edges, steps) && text == rendered(
            nodes,
            cache_of(components),
            components,
            names_of(components),
            steps,
        )
}

pub open spec fn ids_distinct(components: Seq<ComponentMetadata>) -> bool {
    forall|i: int, j: int|
        0 <= i < components.len() && 0 <= j < components.len() && i != j ==> (
        #[trigger] components[i]).id != (#[trigger] components[j]).id
}

/// Both points of a structure lie within the grid.
pub open spec fn structure_in_grid(s: ComponentStructure) -> bool {
    match s {
        ComponentStructure::Node(p) => in_grid(p),
        ComponentStructure::To(a, b) => in_grid(a) && in_grid(b),
    }
}

pub struct CircuitDocument {
    graph: CircuitGraph,
    components: Vec<ComponentMetadata>,
    text: String,
}

impl CircuitDocument {
    pub closed spec fn nodes(&self) -> Seq<Position> {
        self.graph.nodes()
    }

    pub closed spec fn edges(&self) -> Seq<(nat, nat, u64)> {
        self.graph.edges()
    }

    pub closed spec fn components(&self) -> Seq<ComponentMetadata> {
        self.components@
    }

    pub closed spec fn text(&self) -> Seq<char> {
        self.text@
    }

    pub closed spec fn graph_wf(&self) -> bool {
        self.graph.wf()
    }

    /// Everything but the text: the graph is well formed, component ids are
    /// unique, every edge belongs to a component, and components lie within
    /// the grid.
    pub open spec fn parts_wf(&self) -> bool {
        &&& self.graph_wf()
        &&& ids_distinct(self.components())
        &&& components_distinct(self.edges())
        &&& forall|e: int|
            0 <= e < self.edges().len() ==> has_meta(self.components(), (#[trigger] self.edges()[e]).2)
        &&& forall|i: int|
            0 <= i < self.components().len() ==> structure_in_grid(
                (#[trigger] self.components()[i]).structure,
            )
    }

    /// The text is always the drawing of the current schematic.
    pub open spec fn wf(&self) -> bool {
        &&& self.parts_wf()
        &&& text_of_pass(self.nodes(), self.edges(), self.components(), self.text())
    }

    pub fn new() -> (r: Self)
        ensures
            r.wf(),
            r.components() == Seq::<ComponentMetadata>::empty(),
            r.edges() == Seq::<(nat, nat, u64)>::empty(),
            r.nodes() == Seq::<Position>::empty(),
            r.text() == "\\draw\n;"@,
    {
        let mut d = CircuitDocument {
            graph: CircuitGraph::new(),
            components: Vec::new(),
            text: String::new(),
        };
        d.refresh();
        proof {
            lemma_empty_text(d.nodes(), d.edges(), d.components(), d.text());
        }
        d
    }

    /// The drawing text.
    pub fn text_ref(&self) -> (r: &String)
        ensures
            r@ == self.text(),
    {
        &self.text
    }

    pub fn graph(&self) -> (r: &CircuitGraph)
        ensures
            r.nodes() == self.nodes(),
            r.edges() == self.edges(),
    {
        &self.graph
    }

    pub fn components_ref(&self) -> (r: &Vec<ComponentMetadata>)
        ensures
            r@ == self.components(),
    {
        &self.components
    }

    /// Where component `id` is stored, if it is.
    pub fn position_of(&self, id: u64) -> (r: Option<usize>)
        ensures
            match r {
                Some(i) => i < self.components().len() && self.components()[i as int].id == id,
                None => !has_meta(self.components(), id),
            },
    {
        let n = self.components.len();
        for i in 0..n
            invariant
                n == self.components@.len(),
                forall|j: int| 0 <= j < i ==> (#[trigger] self.components@[j]).id != id,
        {
            if self.components[i].id == id {
                return Some(i);
            }
        }
        None
    }

    /// Names the components, rebuilds the terminal labels and writes the
    /// drawing anew.
    fn refresh(&mut self)
        requires
            old(self).parts_wf(),
        ensures
            final(self).wf(),
            final(self).nodes() == old(self).nodes(),
            final(self).edges() == old(self).edges(),
            final(self).components() == old(self).components(),
    {
        let names = update_component_label(&self.components);
        let ghost nm = names@.map_values(|l: ComponentLabel| l.label@);
        assert(nm =~= names_of(self.components@));
        proof {
            assert forall|i: int| 0 <= i < self.components@.len() implies in_grid(
                anchor_of((#[trigger] self.components@[i]).structure),
            ) by {
                assert(structure_in_grid(self.components()[i].structure));
            }
        }
        let cache = update_child_label(&self.components, &names);
        self.text = serialize_circuit(&self.graph, &cache, &self.components, &names);
    }

    /// Places a component: records it and connects its points in the graph.
    /// Refused, leaving everything as it was, when `id` is taken or a point
    /// lies outside the grid.
    pub fn add_component(
        &mut self,
        id: u64,
        kind: TikzComponent,
        info: Info,
        structure: ComponentStructure,
    ) -> (r: bool)
        requires
            old(self).wf(),
        ensures
            final(self).wf(),
            r == (!has_meta(old(self).components(), id) && structure_in_grid(structure)),
            !r ==> *final(self) == *old(self),
            r ==> final(self).components() == old(self).components().push(
                ComponentMetadata { id, kind, info, structure },
            ),
            r ==> (final(self).nodes(), final(self).edges()) == added(
                old(self).nodes(),
                old(self).edges(),
                structure,
                id,
            ),
    {
        if self.position_of(id).is_some() {
            return false;
        }
        let fits = match structure {
            ComponentStructure::Node(p) => p.in_grid(),
            ComponentStructure::To(a, b) => a.in_grid() && b.in_grid(),
        };
        if !fits {
            return false;
        }
        let ghost old_comps = self.components@;
        let ghost old_edges = self.graph.edges();
        self.components.push(ComponentMetadata { id, kind, info, structure });
        add_to_graph(&mut self.graph, AddToGraph(structure, id));
        proof {
            let comps = self.components@;
            let edges = self.graph.edges();
            assert(edges.len() == old_edges.len() + 1);
            assert(edges[old_edges.len() as int].2 == id);
            assert forall|e: int| 0 <= e < old_edges.len() implies #[trigger] edges[e] == old_edges[e] by {}
            assert forall|e: int| 0 <= e < edges.len() implies has_meta(comps, (#[trigger] edges[e]).2) by {
                if e < old_edges.len() {
                    let k = choose|k: int| 0 <= k < old_comps.len() && (#[trigger] old_comps[k]).id == old_edges[e].2;
                    assert(comps[k] == old_comps[k]);
                } else {
                    assert(comps[old_comps.len() as int].id == id);
                }
            }
            assert forall|a: int, b: int| 0 <= a < edges.len() && 0 <= b < edges.len() && a != b implies (#[trigger] edges[a]).2 != (#[trigger] edges[b]).2 by {
                if a == old_edges.len() as int {
                    assert(has_meta(old_comps, old_edges[b].2));
                } else if b == old_edges.len() as int {
                    assert(has_meta(old_comps, old_edges[a].2));
                }
            }
            assert forall|i: int, j: int| 0 <= i < comps.len() && 0 <= j < comps.len() && i != j implies (#[trigger] comps[i]).id != (#[trigger] comps[j]).id by {
                if i < old_comps.len() && j < old_comps.len() {
                    assert(comps[i] == old_comps[i] && comps[j] == old_comps[j]);
                } else if i < old_comps.len() {
                    assert(comps[i] == old_comps[i]);
                } else if j < old_comps.len() {
                    assert(comps[j] == old_comps[j]);
                }
            }
            assert forall|i: int| 0 <= i < comps.len() implies structure_in_grid((#[trigger] comps[i]).structure) by {
                if i < old_comps.len() {
                    assert(comps[i] == old_comps[i]);
                }
            }
        }
        self.refresh();
        true
    }
}

/// Deletes component `id` and its edge. A component that is not there
/// changes nothing, the text included.
pub fn delete_component(doc: &mut CircuitDocument, id: u64)
    requires
        old(doc).wf(),
    ensures
        final(doc).wf(),
        !has_meta(old(doc).components(), id) ==> *final(doc) == *old(doc),
        has_meta(old(doc).components(), id) ==> {
            &&& final(doc).components() == old(doc).components().remove(
                component_index(old(doc).components(), id),
            )
            &&& final(doc).edges() == remove_component(old(doc).edges(), id)
            &&& final(doc).nodes() == old(doc).nodes()
        },
{
    let i = match doc.position_of(id) {
        Some(i) => i,
        None => {
            return;
        },
    };
    let ghost old_comps = doc.components@;
    let ghost old_edges = doc.graph.edges();
    proof {
        let c = component_index(old_comps, id);
        assert(old_comps[c].id == id);
        assert(c == i);
    }
    doc.components.remove(i);
    remove_from_graph(&mut doc.graph, RemoveFromGraph(id));
    proof {
        let comps = doc.components@;
        let edges = doc.graph.edges();
        // every remaining edge is an old edge other than the removed one
        if exists|k: int| is_first_edge_of(old_edges, id, k) {
            let k = choose|k: int| is_first_edge_of(old_edges, id, k);
            let last = old_edges.len() - 1;
            assert forall|e: int| 0 <= e < edges.len() implies (#[trigger] edges[e]) == old_edges[
                if e == k {
                    last
                } else {
                    e
                }
            ] && (if e == k {
                last
            } else {
                e
            }) != k by {
                assert(edges[e] == old_edges.update(k, old_edges.last())[e]);
            }
        }
        assert forall|e: int| 0 <= e < edges.len() implies (#[trigger] edges[e]).2 != id by {
            if exists|k: int| is_first_edge_of(old_edges, id, k) {
                let k = choose|k: int| is_first_edge_of(old_edges, id, k);
                let last = old_edges.len() - 1;
                let o = if e == k {
                    last
                } else {
                    e
                };
                assert(edges[e] == old_edges[o]);
                assert(old_edges[k].2 == id);
            } else {
                assert(!is_first_edge_of(old_edges, id, e));
                assert(edges[e] == old_edges[e]);
                if old_edges[e].2 == id {
                    let f = choose|f: int| 0 <= f <= e && old_edges[f].2 == id && forall|g: int| 0 <= g < f ==> old_edges[g].2 != id;
                    assert(is_first_edge_of(old_edges, id, f));
                }
            }
        }
        assert forall|e: int| 0 <= e < edges.len() implies has_meta(comps, (#[trigger] edges[e]).2) by {
            let c = edges[e].2;
            let o = choose|o: int| 0 <= o < old_edges.len() && old_edges[o] == edges[e];
            assert(has_meta(old_comps, old_edges[o].2));
            let j = choose|j: int| 0 <= j < old_comps.len() && (#[trigger] old_comps[j]).id == c;
            assert(j != i);
            if j < i {
                assert(comps[j] == old_comps[j]);
            } else {
                assert(comps[j - 1] == old_comps[j]);
            }
        }
        assert forall|a: int, b: int| 0 <= a < edges.len() && 0 <= b < edges.len() && a != b implies (#[trigger] edges[a]).2 != (#[trigger] edges[b]).2 by {
            if exists|k: int| is_first_edge_of(old_edges, id, k) {
                let k = choose|k: int| is_first_edge_of(old_edges, id, k);
                let last = old_edges.len() - 1;
                let oa = if a == k { last } else { a };
                let ob = if b == k { last } else { b };
                assert(edges[a] == old_edges[oa]);
                assert(edges[b] == old_edges[ob]);
            } else {
                assert(edges[a] == old_edges[a]);
                assert(edges[b] == old_edges[b]);
            }
        }
        assert forall|x: int, y: int| 0 <= x < comps.len() && 0 <= y < comps.len() && x != y implies (#[trigger] comps[x]).id != (#[trigger] comps[y]).id by {
            let ox = if x < i { x } else { x + 1 };
            let oy = if y < i { y } else { y + 1 };
            assert(comps[x] == old_comps[ox]);
            assert(comps[y] == old_comps[oy]);
        }
        assert forall|x: int| 0 <= x < comps.len() implies structure_in_grid((#[trigger] comps[x]).structure) by {
            let ox = if x < i { x } else { x + 1 };
            assert(comps[x] == old_comps[ox]);
        }
    }
    doc.refresh();
}

impl CircuitDocument {
    /// Replaces the annotation of component `id`; false, changing nothing,
    /// when there is no such component.
    pub fn set_info(&mut self, id: u64, info: Info) -> (r: bool)
        requires
            old(self).wf(),
        ensures
            final(self).wf(),
            r == has_meta(old(self).components(), id),
            !r ==> *final(self) == *old(self),
            r ==> final(self).components() == old(self).components().update(
                component_index(old(self).components(), id),
                ComponentMetadata {
                    id,
                    kind: old(self).components()[component_index(old(self).components(), id)].kind,
                    info,
                    structure: old(self).components()[component_index(
                        old(self).components(),
                        id,
                    )].structure,
                },
            ),
            r ==> final(self).edges() == old(self).edges(),
            r ==> final(self).nodes() == old(self).nodes(),
    {
        let i = match self.position_of(id) {
            Some(i) => i,
            None => {
                return false;
            },
        };
        let ghost old_comps = self.components@;
        proof {
            let c = component_index(old_comps, id);
            assert(old_comps[c].id == id);
            assert(c == i);
        }
        let kind = self.components[i].kind;
        let structure = self.components[i].structure;
        self.components.set(i, ComponentMetadata { id, kind, info, structure });
        proof {
            let comps = self.components@;
            assert forall|e: int| 0 <= e < self.edges().len() implies has_meta(comps, (#[trigger] self.edges()[e]).2) by {
                let j = choose|j: int| 0 <= j < old_comps.len() && (#[trigger] old_comps[j]).id == self.edges()[e].2;
                assert(comps[j].id == old_comps[j].id);
            }
            assert forall|x: int, y: int| 0 <= x < comps.len() && 0 <= y < comps.len() && x != y implies (#[trigger] comps[x]).id != (#[trigger] comps[y]).id by {
                assert(comps[x].id == old_comps[x].id);
                assert(comps[y].id == old_comps[y].id);
            }
            assert forall|x: int| 0 <= x < comps.len() implies structure_in_grid((#[trigger] comps[x]).structure) by {
                assert(comps[x].structure == old_comps[x].structure);
            }
        }
        self.refresh();
        true
    }
}

/// Replaces the annotation of component `id` with one that has the given
/// label and the default scale; false, changing nothing, when there is no
/// such component.
pub fn update_label(doc: &mut CircuitDocument, id: u64, event: UpdateLabel) -> (r: bool)
    requires
        old(doc).wf(),
    ensures
        final(doc).wf(),
        r == has_meta(old(doc).components(), id),
        !r ==> *final(doc) == *old(doc),
        r ==> {
            let i = component_index(old(doc).components(), id);
            &&& final(doc).components().len() == old(doc).components().len()
            &&& final(doc).components()[i].info.label@ == event.label@
            &&& final(doc).components()[i].info.scale@ == "1"@
            &&& final(doc).components()[i].kind == old(doc).components()[i].kind
            &&& forall|j: int|
                0 <= j < old(doc).components().len() && j != i
                    ==> #[trigger] final(doc).components()[j] == old(doc).components()[j]
        },
        r ==> final(doc).edges() == old(doc).edges() && final(doc).nodes() == old(doc).nodes(),
{
    let info = Info::from_label(&event.label);
    doc.set_info(id, info)
}

/// Deletes every component: each one's edge leaves the graph (its points
/// stay), and the drawing becomes empty.
pub fn remove_all(doc: &mut CircuitDocument, _event: RemoveAll)
    requires
        old(doc).wf(),
    ensures
        final(doc).wf(),
        final(doc).components() == Seq::<ComponentMetadata>::empty(),
        final(doc).edges() == Seq::<(nat, nat, u64)>::empty(),
        final(doc).nodes() == old(doc).nodes(),
        final(doc).text() == "\\draw\n;"@,
{
    let ghost nodes0 = doc.graph.nodes();
    while doc.graph.edge_count() > 0
        invariant
            doc.graph.wf(),
            components_distinct(doc.graph.edges()),
            doc.graph.nodes() == nodes0,
        decreases doc.graph.edges().len(),
    {
        let n = doc.graph.edge_count();
        let (_, _, c) = doc.graph.edge(n - 1);
        let ghost edges = doc.graph.edges();
        proof {
            assert(is_first_edge_of(edges, c, n - 1)) by {
                assert forall|j: int| 0 <= j < n - 1 implies (#[trigger] edges[j]).2 != c by {
                    assert(edges[j].2 != edges[n - 1].2);
                }
            }
            let k = choose|k: int| is_first_edge_of(edges, c, k);
            if k < n - 1 {
                assert(edges[k].2 != c);
            }
            assert(edges.update(n - 1, edges.last()).drop_last() =~= edges.drop_last());
        }
        doc.graph.remove_edge_by_component(c);
        proof {
            let e2 = doc.graph.edges();
            assert forall|a: int, b: int| 0 <= a < e2.len() && 0 <= b < e2.len() && a != b implies (#[trigger] e2[a]).2 != (#[trigger] e2[b]).2 by {
                assert(e2[a] == edges[a] && e2[b] == edges[b]);
            }
        }
    }
    doc.components = Vec::new();
    doc.refresh();
    proof {
        lemma_empty_text(doc.nodes(), doc.edges(), doc.components(), doc.text());
    }
}

/// The index of component `id`; meaningful when it is there.
pub open spec fn component_index(components: Seq<ComponentMetadata>, id: u64) -> int {
    choose|i: int| 0 <= i < components.len() && components[i].id == id
}

/// With no edges, a pass writes the empty drawing.
proof fn lemma_empty_text(
    nodes: Seq<Position>,
    edges: Seq<(nat, nat, u64)>,
    components: Seq<ComponentMetadata>,
    text: Seq<char>,
)
    requires
        edges.len() == 0,
        text_of_pass(nodes, edges, components, text),
    ensures
        text == "\\draw\n;"@,
{
    let steps = choose|steps: Seq<Step>|
        valid_traversal(nodes, edges, steps) && text == rendered(
            nodes,
            cache_of(components),
            components,
            names_of(components),
            steps,
        );
    if steps.len() > 0 {
        assert(steps[0].edge < edges.len());
    }
    reveal_strlit("\\draw\n");
    reveal_strlit(";");
    reveal_strlit("\\draw\n;");
    assert(lines(nodes, cache_of(components), components, names_of(components), steps, 0) == Seq::<char>::empty());
    assert(text =~= "\\draw\n;"@);
}

} // verus!
