//! The connection graph: one node per distinct grid position, one edge per
//! component, held in a petgraph `Graph`.
use vstd::prelude::*;

use petgraph::graph::{EdgeIndex, NodeIndex};
use petgraph::visit::EdgeRef;

use crate::component::ComponentStructure;
use crate::position::Position;

verus! {

#[verifier::external_type_specification]
#[verifier::external_body]
#[verifier::reject_recursive_types(N)]
#[verifier::reject_recursive_types(E)]
#[verifier::reject_recursive_types(Ty)]
#[verifier::reject_recursive_types(Ix)]
pub struct ExGraph<N, E, Ty, Ix>(petgraph::Graph<N, E, Ty, Ix>);

#[verifier::external_type_specification]
#[verifier::external_body]
pub struct ExUndirected(petgraph::Undirected);

/// How many nodes a graph holds.
pub uninterp spec fn graph_node_count(g: petgraph::Graph<(), u64, petgraph::Undirected, usize>) -> nat;

/// The edges of a graph by edge index, each as (first node, second node,
/// component).
pub uninterp spec fn graph_edges(g: petgraph::Graph<(), u64, petgraph::Undirected, usize>) -> Seq<
    (nat, nat, u64),
>;

/// Relies on `Graph::default` (petgraph): a graph with no nodes and no
/// edges.
#[verifier::external_body]
fn pg_new() -> (g: petgraph::Graph<(), u64, petgraph::Undirected, usize>)
    ensures
        graph_node_count(g) == 0,
        graph_edges(g) == Seq::<(nat, nat, u64)>::empty(),
{
    petgraph::Graph::default()
}

/// Relies on `Graph::add_node` (petgraph): the new node's index is the old
/// node count, and the edges stay as they were. With `usize` indices it
/// does not panic.
#[verifier::external_body]
fn pg_add_node(g: &mut petgraph::Graph<(), u64, petgraph::Undirected, usize>) -> (r: usize)
    ensures
        r == graph_node_count(*old(g)),
        graph_node_count(*final(g)) == graph_node_count(*old(g)) + 1,
        graph_edges(*final(g)) == graph_edges(*old(g)),
{
    g.add_node(()).index()
}

/// Relies on `Graph::add_edge` (petgraph): the edge goes last, with the
/// index that was the edge count. It panics only on a missing node, which
/// `requires` leaves out.
#[verifier::external_body]
fn pg_add_edge(
    g: &mut petgraph::Graph<(), u64, petgraph::Undirected, usize>,
    a: usize,
    b: usize,
    w: u64,
) -> (r: usize)
    requires
        a < graph_node_count(*old(g)),
        b < graph_node_count(*old(g)),
    ensures
        r == graph_edges(*old(g)).len(),
        graph_edges(*final(g)) == graph_edges(*old(g)).push((a as nat, b as nat, w)),
        graph_node_count(*final(g)) == graph_node_count(*old(g)),
{
    g.add_edge(NodeIndex::new(a), NodeIndex::new(b), w).index()
}

/// Relies on `Graph::remove_edge` (petgraph): the last edge takes the
/// removed edge's index.
#[verifier::external_body]
fn pg_remove_edge(g: &mut petgraph::Graph<(), u64, petgraph::Undirected, usize>, e: usize)
    requires
        e < graph_edges(*old(g)).len(),
    ensures
        graph_edges(*final(g)) == graph_edges(*old(g)).update(
            e as int,
            graph_edges(*old(g)).last(),
        ).drop_last(),
        graph_node_count(*final(g)) == graph_node_count(*old(g)),
{
    g.remove_edge(EdgeIndex::new(e));
}

/// Relies on `Graph::raw_edges` (petgraph): every edge, by index.
#[verifier::external_body]
fn pg_edge_list(g: &petgraph::Graph<(), u64, petgraph::Undirected, usize>) -> (r: Vec<
    (usize, usize, u64),
>)
    ensures
        r@.len() == graph_edges(*g).len(),
        forall|i: int|
            0 <= i < r@.len() ==> (#[trigger] r@[i]).0 as nat == graph_edges(*g)[i].0 && r@[i].1
                as nat == graph_edges(*g)[i].1 && r@[i].2 == graph_edges(*g)[i].2,
{
    g.raw_edges().iter().map(|e| (e.source().index(), e.target().index(), e.weight)).collect()
}

/// Relies on `Graph::edges` (petgraph) on an undirected graph: every edge
/// that touches `n` comes once, self-loops included, as (edge index, `n`,
/// other end, component).
#[verifier::external_body]
fn pg_incident(g: &petgraph::Graph<(), u64, petgraph::Undirected, usize>, n: usize) -> (r: Vec<
    (usize, usize, usize, u64),
>)
    requires
        n < graph_node_count(*g),
    ensures
        forall|k: int| 0 <= k < r@.len() ==> incident_entry(graph_edges(*g), n as nat, #[trigger] r@[k]),
        forall|k: int, l: int|
            0 <= k < r@.len() && 0 <= l < r@.len() && k != l ==> (#[trigger] r@[k]).0 != (
            #[trigger] r@[l]).0,
        forall|e: int|
            0 <= e < graph_edges(*g).len() && touches(#[trigger] graph_edges(*g)[e], n as nat)
                ==> exists|k: int| 0 <= k < r@.len() && (#[trigger] r@[k]).0 == e,
{
    g.edges(NodeIndex::new(n)).map(
        |e| (e.id().index(), e.source().index(), e.target().index(), *e.weight()),
    ).collect()
}

/// Edge `e` has `n` as an end.
pub open spec fn touches(e: (nat, nat, u64), n: nat) -> bool {
    e.0 == n || e.1 == n
}

/// `t` is edge `t.0` of `edges`, seen from its end `n`: (index, `n`, other
/// end, component).
pub open spec fn incident_entry(edges: Seq<(nat, nat, u64)>, n: nat, t: (usize, usize, usize, u64)) -> bool {
    &&& t.0 < edges.len()
    &&& t.1 == n
    &&& oriented(edges[t.0 as int], t.1 as nat, t.2 as nat, t.3)
}

/// Edge `e` joins `a` and `b` (in either order) for component `c`.
pub open spec fn oriented(e: (nat, nat, u64), a: nat, b: nat, c: u64) -> bool {
    e.2 == c && ((e.0 == a && e.1 == b) || (e.0 == b && e.1 == a))
}

/// `p`'s index among `nodes`; meaningful when `nodes` contains it.
pub open spec fn node_index(nodes: Seq<Position>, p: Position) -> int {
    choose|i: int| 0 <= i < nodes.len() && nodes[i] == p
}

/// The nodes after interning `p`, and `p`'s index: a known position keeps
/// its index, a new one goes last.
pub open spec fn intern(nodes: Seq<Position>, p: Position) -> (Seq<Position>, nat) {
    if nodes.contains(p) {
        (nodes, node_index(nodes, p) as nat)
    } else {
        (nodes.push(p), nodes.len())
    }
}

/// The first edge that carries component `c`.
pub open spec fn is_first_edge_of(edges: Seq<(nat, nat, u64)>, c: u64, i: int) -> bool {
    &&& 0 <= i < edges.len()
    &&& edges[i].2 == c
    &&& forall|j: int| 0 <= j < i ==> (#[trigger] edges[j]).2 != c
}

/// The edges after removing the first edge of component `c`, if any.
pub open spec fn remove_component(edges: Seq<(nat, nat, u64)>, c: u64) -> Seq<(nat, nat, u64)> {
    if exists|i: int| is_first_edge_of(edges, c, i) {
        let i = choose|i: int| is_first_edge_of(edges, c, i);
        edges.update(i, edges.last()).drop_last()
    } else {
        edges
    }
}

/// Interning a position twice gives the same index, and the second time
/// changes nothing.
pub proof fn lemma_interning_idempotent(nodes: Seq<Position>, p: Position)
    requires
        nodes.no_duplicates(),
    ensures
        intern(intern(nodes, p).0, p) == intern(nodes, p),
{
    let (n1, i1) = intern(nodes, p);
    if nodes.contains(p) {
        let i = node_index(nodes, p);
        assert(nodes[i] == p);
    } else {
        assert(n1[nodes.len() as int] == p);
        assert(n1.contains(p));
        let j = node_index(n1, p);
        assert(n1[j] == p);
        if j < nodes.len() {
            assert(nodes[j] == p);
            assert(nodes.contains(p));
        }
    }
}

pub struct CircuitGraph {
    positions: Vec<Position>,
    graph: petgraph::Graph<(), u64, petgraph::Undirected, usize>,
}

impl CircuitGraph {
    /// The position of each node, by node index.
    pub closed spec fn nodes(&self) -> Seq<Position> {
        self.positions@
    }

    /// The edges, by edge index, as (node, node, component).
    pub closed spec fn edges(&self) -> Seq<(nat, nat, u64)> {
        graph_edges(self.graph)
    }

    pub closed spec fn sized(&self) -> bool {
        graph_node_count(self.graph) == self.positions@.len()
    }

    /// Positions are interned once each, and every edge joins two nodes.
    pub open spec fn wf(&self) -> bool {
        &&& self.sized()
        &&& self.nodes().no_duplicates()
        &&& forall|e: int|
            0 <= e < self.edges().len() ==> (#[trigger] self.edges()[e]).0 < self.nodes().len()
                && self.edges()[e].1 < self.nodes().len()
    }

    pub fn new() -> (r: Self)
        ensures
            r.wf(),
            r.nodes() == Seq::<Position>::empty(),
            r.edges() == Seq::<(nat, nat, u64)>::empty(),
    {
        CircuitGraph { positions: Vec::new(), graph: pg_new() }
    }

    pub fn node_count(&self) -> (r: usize)
        ensures
            r == self.nodes().len(),
    {
        self.positions.len()
    }

    pub fn get_pos(&self, index: usize) -> (r: Option<Position>)
        ensures
            index < self.nodes().len() ==> r == Some(self.nodes()[index as int]),
            index >= self.nodes().len() ==> r is None,
    {
        if index < self.positions.len() {
            Some(self.positions[index])
        } else {
            None
        }
    }

    pub fn node_position(&self, index: usize) -> (r: Position)
        requires
            index < self.nodes().len(),
        ensures
            r == self.nodes()[index as int],
    {
        self.positions[index]
    }

    /// The node of `pos`, added first if `pos` is new.
    pub fn get_index_or_add(&mut self, pos: Position) -> (r: usize)
        requires
            old(self).wf(),
        ensures
            final(self).wf(),
            (final(self).nodes(), r as nat) == intern(old(self).nodes(), pos),
            final(self).edges() == old(self).edges(),
    {
        let n = self.positions.len();
        for i in 0..n
            invariant
                n == self.positions@.len(),
                self.wf(),
                forall|j: int| 0 <= j < i ==> self.positions@[j] != pos,
        {
            if self.positions[i] == pos {
                proof {
                    assert(self.nodes().contains(pos));
                    let k = node_index(self.nodes(), pos);
                    assert(self.nodes()[k] == pos);
                    assert(self.nodes().no_duplicates());
                }
                return i;
            }
        }
        assert(!self.nodes().contains(pos));
        self.add_node(pos)
    }

    /// Adds a node for a position that has none yet.
    pub fn add_node(&mut self, pos: Position) -> (r: usize)
        requires
            old(self).wf(),
            !old(self).nodes().contains(pos),
        ensures
            final(self).wf(),
            final(self).nodes() == old(self).nodes().push(pos),
            r == old(self).nodes().len(),
            final(self).edges() == old(self).edges(),
    {
        let index = pg_add_node(&mut self.graph);
        self.positions.push(pos);
        proof {
            assert forall|i: int, j: int|
                0 <= i < self.nodes().len() && 0 <= j < self.nodes().len() && i != j implies
                self.nodes()[i] != self.nodes()[j] by {
                if i < old(self).nodes().len() && j < old(self).nodes().len() {
                    assert(old(self).nodes()[i] != old(self).nodes()[j]);
                } else if i < old(self).nodes().len() {
                    assert(old(self).nodes().contains(old(self).nodes()[i]));
                } else if j < old(self).nodes().len() {
                    assert(old(self).nodes().contains(old(self).nodes()[j]));
                }
            }
            assert(self.nodes().no_duplicates());
            assert forall|e: int| 0 <= e < self.edges().len() implies (#[trigger] self.edges()[e]).0
                < self.nodes().len() && self.edges()[e].1 < self.nodes().len() by {
                assert(self.edges()[e] == old(self).edges()[e]);
            }
        }
        index
    }

    /// Adds an edge for `component` between nodes `a` and `b`; parallel
    /// edges are allowed.
    pub fn add_edge(&mut self, a: usize, b: usize, component: u64) -> (r: usize)
        requires
            old(self).wf(),
            a < old(self).nodes().len(),
            b < old(self).nodes().len(),
        ensures
            final(self).wf(),
            final(self).nodes() == old(self).nodes(),
            final(self).edges() == old(self).edges().push((a as nat, b as nat, component)),
            r == old(self).edges().len(),
    {
        let r = pg_add_edge(&mut self.graph, a, b, component);
        assert forall|e: int| 0 <= e < self.edges().len() implies (#[trigger] self.edges()[e]).0
            < self.nodes().len() && self.edges()[e].1 < self.nodes().len() by {
            if e < old(self).edges().len() {
                assert(self.edges()[e] == old(self).edges()[e]);
            }
        }
        r
    }

    pub fn edge_count(&self) -> (r: usize)
        ensures
            r == self.edges().len(),
    {
        let list = pg_edge_list(&self.graph);
        list.len()
    }

    /// Edge `i` as (node, node, component).
    pub fn edge(&self, i: usize) -> (r: (usize, usize, u64))
        requires
            i < self.edges().len(),
        ensures
            r.0 as nat == self.edges()[i as int].0,
            r.1 as nat == self.edges()[i as int].1,
            r.2 == self.edges()[i as int].2,
    {
        let list = pg_edge_list(&self.graph);
        list[i]
    }

    /// Removes the first edge of `component`; does nothing when there is
    /// none. The last edge then takes the removed edge's index.
    pub fn remove_edge_by_component(&mut self, component: u64)
        requires
            old(self).wf(),
        ensures
            final(self).wf(),
            final(self).nodes() == old(self).nodes(),
            final(self).edges() == remove_component(old(self).edges(), component),
    {
        let list = pg_edge_list(&self.graph);
        let ghost edges = self.edges();
        let n = list.len();
        for i in 0..n
            invariant
                n == edges.len(),
                edges == self.edges(),
                self == old(self),
                old(self).wf(),
                list@.len() == edges.len(),
                forall|k: int|
                    0 <= k < list@.len() ==> (#[trigger] list@[k]).2 == edges[k].2,
                forall|j: int| 0 <= j < i ==> (#[trigger] edges[j]).2 != component,
        {
            if list[i].2 == component {
                proof {
                    assert(is_first_edge_of(edges, component, i as int));
                    let c = choose|c: int| is_first_edge_of(edges, component, c);
                    assert(is_first_edge_of(edges, component, c));
                    if c < i {
                        assert(edges[c].2 != component);
                    }
                    if c > i {
                        assert(edges[i as int].2 != component);
                    }
                }
                pg_remove_edge(&mut self.graph, i);
                proof {
                    let new_edges = self.edges();
                    assert forall|e: int| 0 <= e < new_edges.len() implies (
                    #[trigger] new_edges[e]).0 < self.nodes().len() && new_edges[e].1
                        < self.nodes().len() by {
                        let upd = edges.update(i as int, edges.last());
                        assert(new_edges[e] == upd[e]);
                        if e == i {
                            assert(upd[e] == edges[edges.len() - 1]);
                        } else {
                            assert(upd[e] == edges[e]);
                        }
                    }
                }
                return;
            }
        }
        proof {
            if exists|c: int| is_first_edge_of(edges, component, c) {
                let c = choose|c: int| is_first_edge_of(edges, component, c);
                assert(edges[c].2 != component);
            }
        }
    }

    /// Every edge that touches node `n`, once each, as (edge index, `n`,
    /// other end, component).
    pub fn incident_edges(&self, n: usize) -> (r: Vec<(usize, usize, usize, u64)>)
        requires
            self.wf(),
            n < self.nodes().len(),
        ensures
            forall|k: int|
                0 <= k < r@.len() ==> incident_entry(self.edges(), n as nat, #[trigger] r@[k]),
            forall|k: int, l: int|
                0 <= k < r@.len() && 0 <= l < r@.len() && k != l ==> (#[trigger] r@[k]).0 != (
                #[trigger] r@[l]).0,
            forall|e: int|
                0 <= e < self.edges().len() && touches(#[trigger] self.edges()[e], n as nat)
                    ==> exists|k: int| 0 <= k < r@.len() && (#[trigger] r@[k]).0 == e,
    {
        pg_incident(&self.graph, n)
    }
}

impl Default for CircuitGraph {
    fn default() -> (r: Self)
        ensures
            r.wf(),
            r.nodes() == Seq::<Position>::empty(),
            r.edges() == Seq::<(nat, nat, u64)>::empty(),
    {
        CircuitGraph::new()
    }
}

/// A component was placed: connect its points with an edge.
pub struct AddToGraph(pub ComponentStructure, pub u64);

/// A component was deleted: drop its edge.
pub struct RemoveFromGraph(pub u64);

/// The graph after `add_to_graph`: the component's points interned in
/// order, and one edge between them (a self-loop for a one-point
/// component).
pub open spec fn added(
    nodes: Seq<Position>,
    edges: Seq<(nat, nat, u64)>,
    s: ComponentStructure,
    c: u64,
) -> (Seq<Position>, Seq<(nat, nat, u64)>) {
    match s {
        ComponentStructure::Node(p) => {
            let (n1, i) = intern(nodes, p);
            (n1, edges.push((i, i, c)))
        },
        ComponentStructure::To(a, b) => {
            let (n1, i) = intern(nodes, a);
            let (n2, j) = intern(n1, b);
            (n2, edges.push((i, j, c)))
        },
    }
}

pub fn add_to_graph(graph: &mut CircuitGraph, event: AddToGraph)
    requires
        old(graph).wf(),
    ensures
        final(graph).wf(),
        (final(graph).nodes(), final(graph).edges()) == added(
            old(graph).nodes(),
            old(graph).edges(),
            event.0,
            event.1,
        ),
{
    let AddToGraph(structure, entity) = event;
    let (initial, fin) = match structure {
        ComponentStructure::Node(pos) => {
            let index = graph.get_index_or_add(pos);
            (index, index)
        },
        ComponentStructure::To(in_pos, fin_pos) => {
            let in_index = graph.get_index_or_add(in_pos);
            let fin_index = graph.get_index_or_add(fin_pos);
            (in_index, fin_index)
        },
    };
    proof {
        match structure {
            ComponentStructure::Node(p) => {
                let nodes = old(graph).nodes();
                if nodes.contains(p) {
                    assert(nodes[node_index(nodes, p)] == p);
                }
            },
            ComponentStructure::To(a, b) => {
                let nodes = old(graph).nodes();
                let n1 = intern(nodes, a).0;
                if nodes.contains(a) {
                    assert(nodes[node_index(nodes, a)] == a);
                }
                if n1.contains(b) {
                    assert(n1[node_index(n1, b)] == b);
                }
            },
        }
    }
    graph.add_edge(initial, fin, entity);
}

pub fn remove_from_graph(graph: &mut CircuitGraph, event: RemoveFromGraph)
    requires
        old(graph).wf(),
    ensures
        final(graph).wf(),
        final(graph).nodes() == old(graph).nodes(),
        final(graph).edges() == remove_component(old(graph).edges(), event.0),
{
    graph.remove_edge_by_component(event.0);
}

} // verus!
