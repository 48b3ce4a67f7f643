//! One pass over the connection graph that writes a draw statement for
//! every component.
use vstd::prelude::*;

use std::collections::HashSet;

use crate::component::{
    info_text, is_single_kind, name_text, tikz_type_text, ComponentLabel, ComponentMetadata,
    TikzComponent,
};
use crate::coordinate::{
    coords_text, find_coord, key_in, key_index, keys_distinct, resolve, Coordinate, CoordinateOptions,
    CoordinateView, PositionLabels,
};
use crate::graph::{incident_entry, oriented, touches, CircuitGraph};
use crate::position::Position;
use crate::text::{decimal, decimal_string};

verus! {

broadcast use vstd::std_specs::hash::group_hash_axioms;

/// One statement of a pass: edge `edge` walked from node `source` to node
/// `target`, drawing `component`, while the pass was at node `outer` of its
/// loop over the nodes; `minted` when the walk found `target` to be a
/// branch point and named it with a fresh anchor.
pub struct Step {
    pub outer: nat,
    pub edge: nat,
    pub source: nat,
    pub target: nat,
    pub component: u64,
    pub minted: bool,
}

/// The name of the `n`-th anchor of a pass: `A1`, `A2`, ...
pub open spec fn anchor_name(n: nat) -> Seq<char> {
    "A"@ + decimal(n)
}

/// The anchors declared before step `i`, in the order they were minted.
pub open spec fn anchors_before(nodes: Seq<Position>, steps: Seq<Step>, i: nat) -> Seq<
    (Position, Seq<char>),
>
    decreases i,
{
    if i == 0 {
        Seq::empty()
    } else {
        let prev = anchors_before(nodes, steps, (i - 1) as nat);
        let s = steps[i - 1];
        if s.minted {
            prev.push((nodes[s.target as int], anchor_name(prev.len() + 1)))
        } else {
            prev
        }
    }
}

/// The first component with identity `id`.
pub open spec fn is_first_meta(components: Seq<ComponentMetadata>, id: u64, i: int) -> bool {
    &&& 0 <= i < components.len()
    &&& components[i].id == id
    &&& forall|j: int| 0 <= j < i ==> (#[trigger] components[j]).id != id
}

pub open spec fn has_meta(components: Seq<ComponentMetadata>, id: u64) -> bool {
    exists|i: int| 0 <= i < components.len() && (#[trigger] components[i]).id == id
}

pub open spec fn meta_index(components: Seq<ComponentMetadata>, id: u64) -> int {
    choose|i: int| is_first_meta(components, id, i)
}

/// One line of the output: a one-point component as a node, a bare wire as
/// `--`, anything else as `to[...]`, each followed by `suffix` where it
/// ends on a point.
pub open spec fn statement_line(
    kind: TikzComponent,
    info: Seq<char>,
    name: Seq<char>,
    source: Seq<char>,
    target: Seq<char>,
    suffix: Seq<char>,
) -> Seq<char> {
    if is_single_kind(kind) {
        " "@ + source + " node["@ + tikz_type_text(kind) + info + "]"@ + name_text(name) + "{}\n"@
    } else if kind is Line && info.len() == 0 {
        " "@ + source + " -- "@ + target + suffix + "\n"@
    } else {
        " "@ + source + " to["@ + tikz_type_text(kind) + info + "] "@ + target + suffix + "\n"@
    }
}

/// The text of step `i`: its ends resolved against the terminal labels and
/// the anchors declared so far, its start left out when the previous step
/// ended there, and the new anchor declared when one was minted.
pub open spec fn step_text(
    nodes: Seq<Position>,
    cache: Seq<(Position, Seq<char>)>,
    components: Seq<ComponentMetadata>,
    names: Seq<Seq<char>>,
    steps: Seq<Step>,
    i: int,
) -> Seq<char> {
    let s = steps[i];
    let anchors = anchors_before(nodes, steps, i as nat);
    let src = nodes[s.source as int];
    let tgt = nodes[s.target as int];
    let c1 = resolve(CoordinateView::Position(src), None, cache, anchors);
    let c2 = resolve(
        CoordinateView::Position(tgt),
        Some(CoordinateView::Position(src)),
        cache,
        anchors,
    );
    let hidden = i > 0 && nodes[steps[i - 1].target as int] == src;
    let m = meta_index(components, s.component);
    statement_line(
        components[m].kind,
        info_text(components[m].info.label@, components[m].info.scale@),
        names[m],
        coords_text(c1, None, hidden, true),
        coords_text(c2, Some(CoordinateView::Position(src)), false, true),
        if s.minted {
            " coordinate ("@ + anchor_name(anchors.len() + 1) + ")"@
        } else {
            Seq::empty()
        },
    )
}

/// The text of the first `n` steps.
pub open spec fn lines(
    nodes: Seq<Position>,
    cache: Seq<(Position, Seq<char>)>,
    components: Seq<ComponentMetadata>,
    names: Seq<Seq<char>>,
    steps: Seq<Step>,
    n: nat,
) -> Seq<char>
    decreases n,
{
    if n == 0 {
        Seq::empty()
    } else {
        lines(nodes, cache, components, names, steps, (n - 1) as nat) + step_text(
            nodes,
            cache,
            components,
            names,
            steps,
            n - 1,
        )
    }
}

/// The whole output of a pass with these steps.
pub open spec fn rendered(
    nodes: Seq<Position>,
    cache: Seq<(Position, Seq<char>)>,
    components: Seq<ComponentMetadata>,
    names: Seq<Seq<char>>,
    steps: Seq<Step>,
) -> Seq<char> {
    "\\draw\n"@ + lines(nodes, cache, components, names, steps, steps.len()) + ";"@
}

/// No two edges carry the same component.
pub open spec fn components_distinct(edges: Seq<(nat, nat, u64)>) -> bool {
    forall|a: int, b: int|
        0 <= a < edges.len() && 0 <= b < edges.len() && a != b ==> (#[trigger] edges[a]).2 != (
        #[trigger] edges[b]).2
}

/// What holds of the steps of every pass over a graph: each walks a real
/// edge, no edge is walked twice, an anchor is minted only for a point
/// that has none, the walks follow `order_ok`, and, when components are
/// distinct, every edge is walked.
pub open spec fn valid_traversal(
    nodes: Seq<Position>,
    edges: Seq<(nat, nat, u64)>,
    steps: Seq<Step>,
) -> bool {
    &&& order_ok(nodes, edges, steps)
    &&& forall|i: int|
        0 <= i < steps.len() ==> (#[trigger] steps[i]).edge < edges.len() && oriented(
            edges[steps[i].edge as int],
            steps[i].source,
            steps[i].target,
            steps[i].component,
        )
    &&& forall|i: int, j: int|
        0 <= i < steps.len() && 0 <= j < steps.len() && i != j ==> (#[trigger] steps[i]).edge != (
        #[trigger] steps[j]).edge
    &&& forall|i: int|
        0 <= i < steps.len() && (#[trigger] steps[i]).minted ==> !key_in(
            anchors_before(nodes, steps, i as nat),
            nodes[steps[i].target as int],
        )
    &&& components_distinct(edges) ==> forall|e: int| 0 <= e < edges.len() ==> #[trigger] walked(steps, e)
}

/// Edge `e` had been stacked when step `i` looked ahead: it touches a node
/// the pass had started from, or the target of an earlier step.
pub open spec fn stacked_before(edges: Seq<(nat, nat, u64)>, steps: Seq<Step>, i: int, e: int) -> bool {
    ||| edges[e].0 <= steps[i].outer
    ||| edges[e].1 <= steps[i].outer
    ||| exists|k: int| 0 <= k < i && touches(edges[e], (#[trigger] steps[k]).target)
}

/// Edge `e` touches the target of step `i` and was not stacked yet.
pub open spec fn fresh_at(edges: Seq<(nat, nat, u64)>, steps: Seq<Step>, i: int, e: int) -> bool {
    &&& 0 <= e < edges.len()
    &&& touches(edges[e], steps[i].target)
    &&& !stacked_before(edges, steps, i, e)
}

/// Step `i` reaches a branch point: two or more edges at its target were not
/// stacked yet.
pub open spec fn branch_point(edges: Seq<(nat, nat, u64)>, steps: Seq<Step>, i: int) -> bool {
    exists|e1: int, e2: int| e1 != e2 && fresh_at(edges, steps, i, e1) && fresh_at(edges, steps, i, e2)
}

/// Step `i` stacked at least one edge.
pub open spec fn has_fresh(edges: Seq<(nat, nat, u64)>, steps: Seq<Step>, i: int) -> bool {
    exists|e: int| fresh_at(edges, steps, i, e)
}

pub open spec fn walked_before(steps: Seq<Step>, i: int, e: int) -> bool {
    exists|j: int| 0 <= j < i && (#[trigger] steps[j]).edge == e
}

/// The order of a pass: nodes are taken in index order; a walk takes an edge
/// already stacked; and, when components are distinct: when the pass moves
/// on from a node, every edge at it has been walked; a step mints an anchor
/// exactly at a branch point; and a step that stacked edges is followed by
/// one of them, walked from its target (depth first).
pub open spec fn order_ok(nodes: Seq<Position>, edges: Seq<(nat, nat, u64)>, steps: Seq<Step>) -> bool {
    &&& forall|i: int| 0 <= i < steps.len() ==> (#[trigger] steps[i]).outer < nodes.len()
    &&& forall|i: int, j: int|
        0 <= i < j < steps.len() ==> (#[trigger] steps[i]).outer <= (#[trigger] steps[j]).outer
    &&& forall|i: int|
        0 <= i < steps.len() ==> stacked_before(edges, steps, i, (#[trigger] steps[i]).edge as int)
    &&& components_distinct(edges) ==> forall|i: int, e: int|
        0 <= i < steps.len() && 0 <= e < edges.len() && ((#[trigger] edges[e]).0 < (
        #[trigger] steps[i]).outer || edges[e].1 < steps[i].outer) ==> walked_before(steps, i, e)
    &&& components_distinct(edges) ==> forall|i: int|
        0 <= i < steps.len() ==> (#[trigger] steps[i]).minted == branch_point(edges, steps, i)
    &&& components_distinct(edges) ==> forall|i: int|
        0 <= i < steps.len() - 1 && #[trigger] has_fresh(edges, steps, i) ==> fresh_at(
            edges,
            steps,
            i,
            steps[i + 1].edge as int,
        ) && steps[i + 1].source == steps[i].target
}

/// Some step walks edge `e`.
pub open spec fn walked(steps: Seq<Step>, e: int) -> bool {
    exists|i: int| 0 <= i < steps.len() && (#[trigger] steps[i]).edge == e
}


/// A stacked walk: (edge index, from node, to node, component).
pub type Walk = (usize, usize, usize, u64);

pub open spec fn comp_walked_or_stacked(steps: Seq<Step>, stack: Seq<Walk>, c: u64) -> bool {
    (exists|i: int| 0 <= i < steps.len() && (#[trigger] steps[i]).component == c) || (exists|
        k: int,
    |
        0 <= k < stack.len() && (#[trigger] stack[k]).3 == c)
}

proof fn lemma_distinct_bounded(s: Seq<int>, bound: int)
    requires
        bound >= 0,
        s.no_duplicates(),
        forall|i: int| 0 <= i < s.len() ==> 0 <= #[trigger] s[i] < bound,
    ensures
        s.len() <= bound,
{
    s.unique_seq_to_set();
    if bound >= 0 {
        vstd::set_lib::lemma_int_range(0, bound);
        assert forall|x: int| s.to_set().contains(x) implies vstd::set_lib::set_int_range(
            0,
            bound,
        ).contains(x) by {
            assert(s.contains(x));
        }
        vstd::set_lib::lemma_len_subset(s.to_set(), vstd::set_lib::set_int_range(0, bound));
    } else if s.len() > 0 {
        assert(0 <= s[0] < bound);
    }
}

proof fn lemma_anchors_stable(nodes: Seq<Position>, s1: Seq<Step>, s2: Seq<Step>, i: nat)
    requires
        i <= s1.len(),
        i <= s2.len(),
        forall|k: int| 0 <= k < i ==> s1[k] == s2[k],
    ensures
        anchors_before(nodes, s1, i) == anchors_before(nodes, s2, i),
    decreases i,
{
    if i > 0 {
        lemma_anchors_stable(nodes, s1, s2, (i - 1) as nat);
    }
}

proof fn lemma_lines_extend(
    nodes: Seq<Position>,
    cache: Seq<(Position, Seq<char>)>,
    components: Seq<ComponentMetadata>,
    names: Seq<Seq<char>>,
    steps: Seq<Step>,
    s: Step,
    n: nat,
)
    requires
        n <= steps.len(),
    ensures
        lines(nodes, cache, components, names, steps.push(s), n) == lines(
            nodes,
            cache,
            components,
            names,
            steps,
            n,
        ),
    decreases n,
{
    if n > 0 {
        lemma_lines_extend(nodes, cache, components, names, steps, s, (n - 1) as nat);
        lemma_anchors_stable(nodes, steps.push(s), steps, (n - 1) as nat);
        let k = n - 1;
        assert(steps.push(s)[k] == steps[k]);
        if k > 0 {
            assert(steps.push(s)[k - 1] == steps[k - 1]);
        }
    }
}

/// Every anchor was minted by an earlier step, at that step's target.
proof fn lemma_anchor_keys(nodes: Seq<Position>, steps: Seq<Step>, i: nat, p: Position)
    requires
        i <= steps.len(),
        key_in(anchors_before(nodes, steps, i), p),
    ensures
        exists|j: int| 0 <= j < i && #[trigger] steps[j].minted && nodes[steps[j].target as int] == p,
    decreases i,
{
    let prev = anchors_before(nodes, steps, (i - 1) as nat);
    let cur = anchors_before(nodes, steps, i);
    let a = choose|a: int| 0 <= a < cur.len() && (#[trigger] cur[a]).0 == p;
    if a < prev.len() {
        assert(cur[a] == prev[a]);
        lemma_anchor_keys(nodes, steps, (i - 1) as nat, p);
        let j = choose|j: int| 0 <= j < i - 1 && #[trigger] steps[j].minted && nodes[steps[j].target as int] == p;
        assert(0 <= j < i && steps[j].minted);
    } else {
        assert(steps[i - 1].minted);
        assert(nodes[steps[i - 1].target as int] == p);
    }
}

fn find_component(components: &Vec<ComponentMetadata>, id: u64) -> (r: usize)
    requires
        has_meta(components@, id),
    ensures
        is_first_meta(components@, id, r as int),
        r as int == meta_index(components@, id),
{
    let n = components.len();
    let mut i: usize = 0;
    while i < n
        invariant
            n == components@.len(),
            has_meta(components@, id),
            i <= n,
            forall|j: int| 0 <= j < i ==> (#[trigger] components@[j]).id != id,
        decreases n - i,
    {
        if components[i].id == id {
            proof {
                let c = meta_index(components@, id);
                assert(is_first_meta(components@, id, i as int));
                assert(is_first_meta(components@, id, c));
                if c < i {
                    assert(components@[c].id != id);
                }
                if c > i {
                    assert(components@[i as int].id != id);
                }
            }
            return i;
        }
        i = i + 1;
    }
    proof {
        let j = choose|j: int| 0 <= j < components@.len() && (#[trigger] components@[j]).id == id;
        assert(components@[j].id != id);
    }
    0
}

fn statement(
    kind: TikzComponent,
    info: &String,
    name: &ComponentLabel,
    source: &String,
    target: &String,
    suffix: &String,
) -> (r: String)
    ensures
        r@ == statement_line(kind, info@, name.label@, source@, target@, suffix@),
{
    let mut r = String::from_str(" ");
    r.append(source.as_str());
    if kind.is_single() {
        r.append(" node[");
        r.append(kind.tikz_type());
        r.append(info.as_str());
        r.append("]");
        let n = name.get_label();
        r.append(n.as_str());
        r.append("{}\n");
    } else if kind == TikzComponent::Line && info.unicode_len() == 0 {
        r.append(" -- ");
        r.append(target.as_str());
        r.append(suffix.as_str());
        r.append("\n");
    } else {
        r.append(" to[");
        r.append(kind.tikz_type());
        r.append(info.as_str());
        r.append("] ");
        r.append(target.as_str());
        r.append(suffix.as_str());
        r.append("\n");
    }
    r
}

/// Stacks, in order, the walks of `look` whose component is not yet in
/// `seen`, and marks every component of `look` as seen.
fn push_unseen(look: &Vec<Walk>, seen: &mut HashSet<u64>, stack: &mut Vec<Walk>) -> (count: usize)
    ensures
        forall|c: u64|
            #[trigger] final(seen)@.contains(c) <==> (old(seen)@.contains(c) || exists|k: int|
                0 <= k < look@.len() && (#[trigger] look@[k]).3 == c),
        final(stack)@.len() == old(stack)@.len() + count,
        forall|k: int| 0 <= k < old(stack)@.len() ==> final(stack)@[k] == old(stack)@[k],
        forall|k: int|
            old(stack)@.len() <= k < final(stack)@.len() ==> !old(seen)@.contains(
                (#[trigger] final(stack)@[k]).3,
            ) && exists|l: int| 0 <= l < look@.len() && look@[l] == final(stack)@[k],
        forall|k1: int, k2: int|
            old(stack)@.len() <= k1 < final(stack)@.len() && old(stack)@.len() <= k2
                < final(stack)@.len() && k1 != k2 ==> (#[trigger] final(stack)@[k1]).3 != (
            #[trigger] final(stack)@[k2]).3,
        forall|c: u64|
            #[trigger] final(seen)@.contains(c) && !old(seen)@.contains(c) ==> exists|k: int|
                old(stack)@.len() <= k < final(stack)@.len() && (#[trigger] final(stack)@[k]).3 == c,
{
    let ghost seen0 = seen@;
    let ghost len0 = stack@.len();
    let mut count: usize = 0;
    let n = look.len();
    for i in 0..n
        invariant
            n == look@.len(),
            stack@.len() == len0 + count,
            count <= i,
            forall|k: int| 0 <= k < len0 ==> stack@[k] == old(stack)@[k],
            len0 == old(stack)@.len(),
            seen0 == old(seen)@,
            forall|c: u64|
                #[trigger] seen@.contains(c) <==> (seen0.contains(c) || exists|k: int|
                    0 <= k < i && (#[trigger] look@[k]).3 == c),
            forall|k: int|
                len0 <= k < stack@.len() ==> !seen0.contains((#[trigger] stack@[k]).3) && seen@.contains(stack@[k].3)
                    && exists|l: int| 0 <= l < i && look@[l] == stack@[k],
            forall|k1: int, k2: int|
                len0 <= k1 < stack@.len() && len0 <= k2 < stack@.len() && k1 != k2 ==> (
                #[trigger] stack@[k1]).3 != (#[trigger] stack@[k2]).3,
            forall|c: u64|
                #[trigger] seen@.contains(c) && !seen0.contains(c) ==> exists|k: int|
                    len0 <= k < stack@.len() && (#[trigger] stack@[k]).3 == c,
    {
        let w = look[i];
        let ghost before = seen@;
        let ghost old_stack = stack@;
        let ghost old_len = stack@.len();
        let fresh = seen.insert(w.3);
        if fresh {
            stack.push(w);
            count = count + 1;
        }
        proof {
            assert forall|c: u64|
                #[trigger] seen@.contains(c) <==> (seen0.contains(c) || exists|k: int|
                    0 <= k < i + 1 && (#[trigger] look@[k]).3 == c) by {
                if seen@.contains(c) && !seen0.contains(c) && c != w.3 {
                    assert(before.contains(c));
                }
                if exists|k: int| 0 <= k < i + 1 && (#[trigger] look@[k]).3 == c {
                    let k = choose|k: int| 0 <= k < i + 1 && (#[trigger] look@[k]).3 == c;
                    if k < i {
                        assert(before.contains(c));
                    }
                }
            }
            assert forall|c: u64|
                #[trigger] seen@.contains(c) && !seen0.contains(c) implies exists|k: int|
                    len0 <= k < stack@.len() && (#[trigger] stack@[k]).3 == c by {
                if c == w.3 && !before.contains(c) {
                    assert(stack@[stack@.len() - 1].3 == c);
                } else {
                    assert(before.contains(c));
                    let k = choose|k: int| len0 <= k < old_len && (#[trigger] old_stack[k]).3 == c;
                    assert(stack@[k] == old_stack[k]);
                }
            }
            assert forall|k: int| len0 <= k < stack@.len() implies !seen0.contains(
                (#[trigger] stack@[k]).3,
            ) && seen@.contains(stack@[k].3) && exists|l: int| 0 <= l < i + 1 && look@[l] == stack@[k] by {
                if fresh && k == stack@.len() - 1 {
                    assert(look@[i as int] == stack@[k]);
                } else {
                    let l = choose|l: int| 0 <= l < i && look@[l] == stack@[k];
                    assert(look@[l] == stack@[k]);
                }
            }
        }
    }
    assert forall|k: int| len0 <= k < stack@.len() implies !seen0.contains(
        (#[trigger] stack@[k]).3,
    ) && exists|l: int| 0 <= l < look@.len() && look@[l] == stack@[k] by {
        let l = choose|l: int| 0 <= l < n && look@[l] == stack@[k];
        assert(look@[l] == stack@[k]);
    }
    count
}


/// The first three conditions of `valid_traversal`.
pub open spec fn steps_ok(nodes: Seq<Position>, edges: Seq<(nat, nat, u64)>, steps: Seq<Step>) -> bool {
    &&& forall|i: int|
        0 <= i < steps.len() ==> (#[trigger] steps[i]).edge < edges.len() && oriented(
            edges[steps[i].edge as int],
            steps[i].source,
            steps[i].target,
            steps[i].component,
        )
    &&& forall|i: int, j: int|
        0 <= i < steps.len() && 0 <= j < steps.len() && i != j ==> (#[trigger] steps[i]).edge != (
        #[trigger] steps[j]).edge
    &&& forall|i: int|
        0 <= i < steps.len() && (#[trigger] steps[i]).minted ==> !key_in(
            anchors_before(nodes, steps, i as nat),
            nodes[steps[i].target as int],
        )
}

/// The walks waiting on the stack are real edges seen from their first
/// node, each once, none of them walked yet.
pub open spec fn stack_ok(edges: Seq<(nat, nat, u64)>, steps: Seq<Step>, stack: Seq<Walk>) -> bool {
    &&& forall|k: int| 0 <= k < stack.len() ==> incident_entry(edges, (#[trigger] stack[k]).1 as nat, stack[k])
    &&& forall|k: int, l: int|
        0 <= k < stack.len() && 0 <= l < stack.len() && k != l ==> (#[trigger] stack[k]).0 != (
        #[trigger] stack[l]).0
    &&& forall|k: int, i: int|
        0 <= k < stack.len() && 0 <= i < steps.len() ==> (#[trigger] stack[k]).0 != (
        #[trigger] steps[i]).edge
}

/// A component is marked seen exactly when it was walked or stacked.
pub open spec fn seen_ok(seen: Set<u64>, steps: Seq<Step>, stack: Seq<Walk>) -> bool {
    &&& forall|i: int| 0 <= i < steps.len() ==> seen.contains((#[trigger] steps[i]).component)
    &&& forall|k: int| 0 <= k < stack.len() ==> seen.contains((#[trigger] stack[k]).3)
    &&& forall|c: u64| #[trigger] seen.contains(c) ==> comp_walked_or_stacked(steps, stack, c)
}

/// Every edge at the target of a walk has been seen.
pub open spec fn targets_seen(edges: Seq<(nat, nat, u64)>, steps: Seq<Step>, seen: Set<u64>) -> bool {
    forall|i: int, e: int|
        0 <= i < steps.len() && 0 <= e < edges.len() && touches(
            #[trigger] edges[e],
            (#[trigger] steps[i]).target,
        ) ==> seen.contains(edges[e].2)
}

/// Every seen component belongs to an edge at a node below `bound` or at
/// the target of a walk.
pub open spec fn seen_from(edges: Seq<(nat, nat, u64)>, steps: Seq<Step>, seen: Set<u64>, bound: nat) -> bool {
    forall|c: u64|
        #[trigger] seen.contains(c) ==> exists|e: int|
            0 <= e < edges.len() && (#[trigger] edges[e]).2 == c && (edges[e].0 < bound || edges[e].1
                < bound || exists|k: int|
                0 <= k < steps.len() && touches(edges[e], (#[trigger] steps[k]).target))
}

/// Step `i` of `steps` reads only the steps up to `i`: adding a step leaves
/// what it says of the earlier ones unchanged.
proof fn lemma_order_prefix(edges: Seq<(nat, nat, u64)>, steps: Seq<Step>, s: Step, i: int)
    requires
        0 <= i < steps.len(),
    ensures
        forall|e: int| stacked_before(edges, steps.push(s), i, e) == stacked_before(edges, steps, i, e),
        forall|e: int| fresh_at(edges, steps.push(s), i, e) == fresh_at(edges, steps, i, e),
        branch_point(edges, steps.push(s), i) == branch_point(edges, steps, i),
        has_fresh(edges, steps.push(s), i) == has_fresh(edges, steps, i),
        forall|e: int| walked_before(steps.push(s), i, e) == walked_before(steps, i, e),
{
    let s2 = steps.push(s);
    assert forall|k: int| 0 <= k <= i implies #[trigger] s2[k] == steps[k] by {}
    assert forall|e: int| stacked_before(edges, s2, i, e) == stacked_before(edges, steps, i, e) by {
        if exists|k: int| 0 <= k < i && touches(edges[e], (#[trigger] s2[k]).target) {
            let k = choose|k: int| 0 <= k < i && touches(edges[e], (#[trigger] s2[k]).target);
            assert(s2[k] == steps[k]);
        }
        if exists|k: int| 0 <= k < i && touches(edges[e], (#[trigger] steps[k]).target) {
            let k = choose|k: int| 0 <= k < i && touches(edges[e], (#[trigger] steps[k]).target);
            assert(s2[k] == steps[k]);
        }
    }
    assert forall|e: int| walked_before(s2, i, e) == walked_before(steps, i, e) by {
        if walked_before(s2, i, e) {
            let j = choose|j: int| 0 <= j < i && (#[trigger] s2[j]).edge == e;
            assert(s2[j] == steps[j]);
        }
        if walked_before(steps, i, e) {
            let j = choose|j: int| 0 <= j < i && (#[trigger] steps[j]).edge == e;
            assert(s2[j] == steps[j]);
        }
    }
    assert forall|e: int| fresh_at(edges, s2, i, e) == fresh_at(edges, steps, i, e) by {}
    if branch_point(edges, s2, i) {
        let (e1, e2) = choose|e1: int, e2: int|
            e1 != e2 && fresh_at(edges, s2, i, e1) && fresh_at(edges, s2, i, e2);
        assert(fresh_at(edges, steps, i, e1) && fresh_at(edges, steps, i, e2));
    }
    if branch_point(edges, steps, i) {
        let (e1, e2) = choose|e1: int, e2: int|
            e1 != e2 && fresh_at(edges, steps, i, e1) && fresh_at(edges, steps, i, e2);
        assert(fresh_at(edges, s2, i, e1) && fresh_at(edges, s2, i, e2));
    }
    if has_fresh(edges, s2, i) {
        let e = choose|e: int| fresh_at(edges, s2, i, e);
        assert(fresh_at(edges, steps, i, e));
    }
    if has_fresh(edges, steps, i) {
        let e = choose|e: int| fresh_at(edges, steps, i, e);
        assert(fresh_at(edges, s2, i, e));
    }
}

pub open spec fn edge_ids(steps: Seq<Step>) -> Seq<int> {
    steps.map_values(|s: Step| s.edge as int)
}

/// The step appended by one walk keeps the order of the pass.
proof fn lemma_step_order(
    nodes: Seq<Position>,
    edges: Seq<(nat, nat, u64)>,
    steps0: Seq<Step>,
    step: Step,
    seen1: Set<u64>,
    seen2: Set<u64>,
    look: Seq<Walk>,
    stack2: Seq<Walk>,
    stack3: Seq<Walk>,
    count: nat,
)
    requires
        order_ok(nodes, edges, steps0),
        forall|i: int| 0 <= i < steps0.len() ==> (#[trigger] steps0[i]).outer <= step.outer,
        step.outer < nodes.len(),
        step.edge < edges.len(),
        touches(edges[step.edge as int], step.source),
        step.source == step.outer || exists|j: int|
            0 <= j < steps0.len() && (#[trigger] steps0[j]).target == step.source,
        components_distinct(edges) ==> forall|e: int|
            0 <= e < edges.len() && ((#[trigger] edges[e]).0 < step.outer || edges[e].1 < step.outer)
                ==> walked(steps0, e),
        step.minted == (count >= 2),
        stack3.len() == stack2.len() + count,
        forall|k: int|
            stack2.len() <= k < stack3.len() ==> !seen1.contains((#[trigger] stack3[k]).3) && exists|
                l: int,
            |
                0 <= l < look.len() && look[l] == stack3[k],
        forall|k1: int, k2: int|
            stack2.len() <= k1 < stack3.len() && stack2.len() <= k2 < stack3.len() && k1 != k2
                ==> (#[trigger] stack3[k1]).3 != (#[trigger] stack3[k2]).3,
        forall|c: u64|
            #[trigger] seen2.contains(c) && !seen1.contains(c) ==> exists|k: int|
                stack2.len() <= k < stack3.len() && (#[trigger] stack3[k]).3 == c,
        forall|c: u64|
            #[trigger] seen2.contains(c) <==> (seen1.contains(c) || exists|k: int|
                0 <= k < look.len() && (#[trigger] look[k]).3 == c),
        forall|l: int| 0 <= l < look.len() ==> incident_entry(edges, step.target, #[trigger] look[l]),
        forall|e: int|
            0 <= e < edges.len() && touches(#[trigger] edges[e], step.target) ==> exists|l: int|
                0 <= l < look.len() && (#[trigger] look[l]).0 == e,
        forall|m: int, e: int|
            0 <= m <= step.outer && 0 <= e < edges.len() && #[trigger] touches(edges[e], m as nat)
                ==> seen1.contains(edges[e].2),
        targets_seen(edges, steps0, seen1),
        seen_from(edges, steps0, seen1, step.outer + 1),
        components_distinct(edges) && steps0.len() > 0 && has_fresh(
            edges,
            steps0,
            steps0.len() - 1,
        ) ==> fresh_at(edges, steps0, steps0.len() - 1, step.edge as int) && step.source
            == steps0.last().target,
        forall|k: int|
            stack2.len() <= k < stack3.len() ==> incident_entry(edges, step.target, #[trigger] stack3[k]),
    ensures
        order_ok(nodes, edges, steps0.push(step)),
        components_distinct(edges) && has_fresh(edges, steps0.push(step), steps0.len() as int)
            ==> count >= 1 && fresh_at(edges, steps0.push(step), steps0.len() as int, stack3.last().0 as int)
            && stack3.last().1 == step.target,
{
    let steps = steps0.push(step);
    let n0 = steps0.len() as int;
    assert(steps[n0] == step);
    assert forall|i: int| 0 <= i < n0 implies #[trigger] steps[i] == steps0[i] by {}
    // earlier steps read only earlier steps
    assert forall|i: int| 0 <= i < n0 implies (forall|e: int|
        stacked_before(edges, steps, i, e) == stacked_before(edges, steps0, i, e)) && branch_point(
        edges,
        steps,
        i,
    ) == branch_point(edges, steps0, i) && (forall|e: int|
        walked_before(steps, i, e) == walked_before(steps0, i, e)) by {
        lemma_order_prefix(edges, steps0, step, i);
    }
    // the walk takes a stacked edge
    assert(stacked_before(edges, steps, n0, step.edge as int)) by {
        if step.source != step.outer {
            let j = choose|j: int| 0 <= j < steps0.len() && (#[trigger] steps0[j]).target == step.source;
            assert(steps[j] == steps0[j]);
            assert(touches(edges[step.edge as int], steps[j].target));
        }
    }
    assert forall|i: int| 0 <= i < steps.len() implies stacked_before(
        edges,
        steps,
        i,
        (#[trigger] steps[i]).edge as int,
    ) by {
        if i < n0 {
            lemma_order_prefix(edges, steps0, step, i);
            assert(steps[i] == steps0[i]);
            assert(stacked_before(edges, steps0, i, steps0[i].edge as int));
        }
    }
    assert forall|i: int, j: int| 0 <= i < j < steps.len() implies (#[trigger] steps[i]).outer <= (
    #[trigger] steps[j]).outer by {
        if j < n0 {
            assert(steps0[i].outer <= steps0[j].outer);
        }
    }
    if components_distinct(edges) {
        assert forall|i: int, e: int|
            0 <= i < steps.len() && 0 <= e < edges.len() && ((#[trigger] edges[e]).0 < (
            #[trigger] steps[i]).outer || edges[e].1 < steps[i].outer) implies walked_before(
            steps,
            i,
            e,
        ) by {
            if i < n0 {
                assert(walked_before(steps0, i, e));
            } else {
                assert(walked(steps0, e));
                let j = choose|j: int| 0 <= j < steps0.len() && (#[trigger] steps0[j]).edge == e;
                assert(steps[j] == steps0[j]);
            }
        }
        // which edges at the target were stacked already
        assert forall|e: int| 0 <= e < edges.len() && stacked_before(edges, steps, n0, e) implies seen1.contains(
            #[trigger] edges[e].2,
        ) by {
            if edges[e].0 <= step.outer {
                let m: int = edges[e].0 as int;
                assert(touches(edges[e], m as nat));
            } else if edges[e].1 <= step.outer {
                let m: int = edges[e].1 as int;
                assert(touches(edges[e], m as nat));
            } else {
                let k = choose|k: int| 0 <= k < n0 && touches(edges[e], (#[trigger] steps[k]).target);
                assert(steps[k] == steps0[k]);
                assert(touches(edges[e], steps0[k].target));
            }
        }
        assert forall|e: int| 0 <= e < edges.len() && seen1.contains(#[trigger] edges[e].2) implies stacked_before(
            edges,
            steps,
            n0,
            e,
        ) by {
            let e2 = choose|e2: int|
                0 <= e2 < edges.len() && (#[trigger] edges[e2]).2 == edges[e].2 && (edges[e2].0
                    < step.outer + 1 || edges[e2].1 < step.outer + 1 || exists|k: int|
                    0 <= k < steps0.len() && touches(edges[e2], (#[trigger] steps0[k]).target));
            assert(e2 == e);
            if !(edges[e].0 < step.outer + 1 || edges[e].1 < step.outer + 1) {
                let k = choose|k: int| 0 <= k < steps0.len() && touches(edges[e], (#[trigger] steps0[k]).target);
                assert(steps[k] == steps0[k]);
                assert(touches(edges[e], steps[k].target));
            }
        }
        if count >= 2 {
            let k1 = stack2.len() as int;
            let k2 = k1 + 1;
            let l1 = choose|l: int| 0 <= l < look.len() && look[l] == stack3[k1];
            let l2 = choose|l: int| 0 <= l < look.len() && look[l] == stack3[k2];
            assert(incident_entry(edges, step.target, look[l1]));
            assert(incident_entry(edges, step.target, look[l2]));
            let e1 = look[l1].0 as int;
            let e2 = look[l2].0 as int;
            assert(edges[e1].2 == stack3[k1].3);
            assert(edges[e2].2 == stack3[k2].3);
            assert(fresh_at(edges, steps, n0, e1));
            assert(fresh_at(edges, steps, n0, e2));
            assert(branch_point(edges, steps, n0));
        }
        if branch_point(edges, steps, n0) {
            let (e1, e2) = choose|e1: int, e2: int|
                e1 != e2 && fresh_at(edges, steps, n0, e1) && fresh_at(edges, steps, n0, e2);
            let c1 = edges[e1].2;
            let c2 = edges[e2].2;
            assert(!seen1.contains(c1) && !seen1.contains(c2));
            assert(c1 != c2);
            let la = choose|l: int| 0 <= l < look.len() && (#[trigger] look[l]).0 == e1;
            let lb = choose|l: int| 0 <= l < look.len() && (#[trigger] look[l]).0 == e2;
            assert(incident_entry(edges, step.target, look[la]));
            assert(incident_entry(edges, step.target, look[lb]));
            assert(seen2.contains(c1));
            assert(seen2.contains(c2));
            let ka = choose|k: int| stack2.len() <= k < stack3.len() && (#[trigger] stack3[k]).3 == c1;
            let kb = choose|k: int| stack2.len() <= k < stack3.len() && (#[trigger] stack3[k]).3 == c2;
            assert(ka != kb);
            assert(count >= 2);
        }
        assert forall|i: int| 0 <= i < steps.len() implies (#[trigger] steps[i]).minted
            == branch_point(edges, steps, i) by {
            if i < n0 {
                assert(steps0[i].minted == branch_point(edges, steps0, i));
            }
        }
        if has_fresh(edges, steps, n0) {
            let e = choose|e: int| fresh_at(edges, steps, n0, e);
            let c = edges[e].2;
            assert(!seen1.contains(c));
            let l = choose|l: int| 0 <= l < look.len() && (#[trigger] look[l]).0 == e;
            assert(incident_entry(edges, step.target, look[l]));
            assert(seen2.contains(c));
            let k = choose|k: int| stack2.len() <= k < stack3.len() && (#[trigger] stack3[k]).3 == c;
            assert(count >= 1);
            let top = stack3.last();
            assert(top == stack3[stack3.len() - 1]);
            assert(incident_entry(edges, step.target, top));
            assert(!seen1.contains(top.3));
            assert(edges[top.0 as int].2 == top.3);
            assert(fresh_at(edges, steps, n0, top.0 as int));
        }
        assert forall|i: int| 0 <= i < steps.len() - 1 && #[trigger] has_fresh(edges, steps, i) implies fresh_at(
            edges,
            steps,
            i,
            steps[i + 1].edge as int,
        ) && steps[i + 1].source == steps[i].target by {
            lemma_order_prefix(edges, steps0, step, i);
            if i < n0 - 1 {
                assert(has_fresh(edges, steps0, i));
                assert(steps[i + 1] == steps0[i + 1]);
                assert(fresh_at(edges, steps0, i, steps0[i + 1].edge as int));
            } else {
                assert(i == n0 - 1);
                assert(has_fresh(edges, steps0, n0 - 1));
                assert(steps[n0] == step);
                assert(fresh_at(edges, steps0, n0 - 1, step.edge as int));
            }
        }
    }
}

/// Writes the drawing: `\draw`, one line per component, then `;`.
///
/// Nodes are taken in index order. From each, the edges not yet walked are
/// stacked, and popped one at a time; before a walk is written, the edges
/// at its target not yet walked are stacked too, and when there are two or
/// more of them the target becomes a branch point with a fresh anchor
/// `A<n>`. Each end is resolved with `find_coord` against the terminal
/// labels `child_labels` and the anchors declared so far; the start is left
/// out when the previous walk ended there. Every edge's component must have
/// metadata in `components`, whose names are `names`.
#[verifier::rlimit(100)]
pub fn serialize_circuit(
    graph: &CircuitGraph,
    child_labels: &PositionLabels,
    components: &Vec<ComponentMetadata>,
    names: &Vec<ComponentLabel>,
) -> (r: String)
    requires
        graph.wf(),
        child_labels.wf(),
        names@.len() == components@.len(),
        forall|e: int|
            0 <= e < graph.edges().len() ==> has_meta(
                components@,
                (#[trigger] graph.edges()[e]).2,
            ),
    ensures
        exists|steps: Seq<Step>|
            valid_traversal(graph.nodes(), graph.edges(), steps) && r@ == rendered(
                graph.nodes(),
                child_labels@,
                components@,
                names@.map_values(|l: ComponentLabel| l.label@),
                steps,
            ),
{
    let ghost nodes = graph.nodes();
    let ghost edges = graph.edges();
    let ghost cache = child_labels@;
    let ghost comps = components@;
    let ghost nm = names@.map_values(|l: ComponentLabel| l.label@);
    let mut buffer = String::from_str("\\draw\n");
    let mut coord_labels = PositionLabels::new();
    let mut seen: HashSet<u64> = HashSet::new();
    let mut last_target: Option<Position> = None;
    let ghost mut steps: Seq<Step> = Seq::empty();
    let n_nodes = graph.node_count();
    for node in 0..n_nodes
        invariant
            nodes == graph.nodes(),
            edges == graph.edges(),
            cache == child_labels@,
            comps == components@,
            nm == names@.map_values(|l: ComponentLabel| l.label@),
            graph.wf(),
            child_labels.wf(),
            nm.len() == comps.len(),
            forall|e: int| 0 <= e < edges.len() ==> has_meta(comps, (#[trigger] edges[e]).2),
            n_nodes == nodes.len(),
            buffer@ == "\\draw\n"@ + lines(nodes, cache, comps, nm, steps, steps.len()),
            coord_labels.wf(),
            coord_labels@ == anchors_before(nodes, steps, steps.len()),
            last_target == (if steps.len() == 0 {
                None
            } else {
                Some(nodes[steps.last().target as int])
            }),
            steps_ok(nodes, edges, steps),
            seen_ok(seen@, steps, Seq::empty()),
            targets_seen(edges, steps, seen@),
            steps.len() <= edges.len(),
            order_ok(nodes, edges, steps),
            forall|i: int| 0 <= i < steps.len() ==> (#[trigger] steps[i]).outer < node,
            seen_from(edges, steps, seen@, node as nat),
            components_distinct(edges) && steps.len() > 0 ==> !has_fresh(edges, steps, steps.len() - 1),
            components_distinct(edges) ==> forall|e: int|
                0 <= e < edges.len() && ((#[trigger] edges[e]).0 < node || edges[e].1 < node)
                    ==> walked(steps, e),
            forall|m: int, e: int|
                0 <= m < node && 0 <= e < edges.len() && #[trigger] touches(edges[e], m as nat)
                    ==> seen@.contains(edges[e].2),
    {
        let look = graph.incident_edges(node);
        let mut stack: Vec<Walk> = Vec::new();
        let ghost seen0 = seen@;
        push_unseen(&look, &mut seen, &mut stack);
        proof {
            assert(stack_ok(edges, steps, stack@)) by {
                assert forall|k: int, i: int|
                    0 <= k < stack@.len() && 0 <= i < steps.len() implies (#[trigger] stack@[k]).0
                        != (#[trigger] steps[i]).edge by {
                    let l = choose|l: int| 0 <= l < look@.len() && look@[l] == stack@[k];
                    assert(incident_entry(edges, node as nat, look@[l]));
                    assert(seen0.contains(steps[i].component));
                }
                assert forall|k: int, l: int|
                    0 <= k < stack@.len() && 0 <= l < stack@.len() && k != l implies (
                    #[trigger] stack@[k]).0 != (#[trigger] stack@[l]).0 by {
                    let k1 = choose|k1: int| 0 <= k1 < look@.len() && look@[k1] == stack@[k];
                    let l1 = choose|l1: int| 0 <= l1 < look@.len() && look@[l1] == stack@[l];
                    assert(incident_entry(edges, node as nat, look@[k1]));
                    assert(incident_entry(edges, node as nat, look@[l1]));
                }
                assert forall|k: int| 0 <= k < stack@.len() implies incident_entry(
                    edges,
                    (#[trigger] stack@[k]).1 as nat,
                    stack@[k],
                ) by {
                    let l = choose|l: int| 0 <= l < look@.len() && look@[l] == stack@[k];
                    assert(incident_entry(edges, node as nat, look@[l]));
                }
            }
            assert forall|c: u64| #[trigger] seen@.contains(c) implies comp_walked_or_stacked(
                steps,
                stack@,
                c,
            ) by {
                if seen0.contains(c) {
                    assert(comp_walked_or_stacked(steps, Seq::empty(), c));
                }
            }
            assert forall|e: int|
                0 <= e < edges.len() && #[trigger] touches(edges[e], node as nat) implies seen@.contains(
                edges[e].2,
            ) by {
                let k = choose|k: int| 0 <= k < look@.len() && (#[trigger] look@[k]).0 == e;
                assert(incident_entry(edges, node as nat, look@[k]));
            }
            assert forall|c: u64| #[trigger] seen@.contains(c) implies exists|e: int|
                0 <= e < edges.len() && (#[trigger] edges[e]).2 == c && (edges[e].0 < node + 1
                    || edges[e].1 < node + 1 || exists|k: int|
                    0 <= k < steps.len() && touches(edges[e], (#[trigger] steps[k]).target)) by {
                if !seen0.contains(c) {
                    let l = choose|l: int| 0 <= l < look@.len() && (#[trigger] look@[l]).3 == c;
                    assert(incident_entry(edges, node as nat, look@[l]));
                }
            }
            assert forall|k: int| 0 <= k < stack@.len() implies (#[trigger] stack@[k]).1 == node by {
                let l = choose|l: int| 0 <= l < look@.len() && look@[l] == stack@[k];
                assert(incident_entry(edges, node as nat, look@[l]));
            }
        }
        while stack.len() > 0
            invariant
                nodes == graph.nodes(),
                edges == graph.edges(),
                cache == child_labels@,
                comps == components@,
                nm == names@.map_values(|l: ComponentLabel| l.label@),
                graph.wf(),
                child_labels.wf(),
                nm.len() == comps.len(),
                forall|e: int| 0 <= e < edges.len() ==> has_meta(comps, (#[trigger] edges[e]).2),
                n_nodes == nodes.len(),
                node < n_nodes,
                buffer@ == "\\draw\n"@ + lines(nodes, cache, comps, nm, steps, steps.len()),
                coord_labels.wf(),
                coord_labels@ == anchors_before(nodes, steps, steps.len()),
                last_target == (if steps.len() == 0 {
                    None
                } else {
                    Some(nodes[steps.last().target as int])
                }),
                steps_ok(nodes, edges, steps),
                stack_ok(edges, steps, stack@),
                seen_ok(seen@, steps, stack@),
                targets_seen(edges, steps, seen@),
                forall|m: int, e: int|
                    0 <= m <= node && 0 <= e < edges.len() && #[trigger] touches(edges[e], m as nat)
                        ==> seen@.contains(edges[e].2),
                steps.len() <= edges.len(),
                order_ok(nodes, edges, steps),
                forall|i: int| 0 <= i < steps.len() ==> (#[trigger] steps[i]).outer <= node,
                seen_from(edges, steps, seen@, (node + 1) as nat),
                components_distinct(edges) && steps.len() > 0 && has_fresh(edges, steps, steps.len() - 1)
                    ==> stack@.len() > 0 && fresh_at(edges, steps, steps.len() - 1, stack@.last().0 as int)
                    && stack@.last().1 == steps.last().target,
                components_distinct(edges) ==> forall|e: int|
                    0 <= e < edges.len() && ((#[trigger] edges[e]).0 < node || edges[e].1 < node)
                        ==> walked(steps, e),
                forall|k: int|
                    0 <= k < stack@.len() ==> (#[trigger] stack@[k]).1 == node || exists|j: int|
                        0 <= j < steps.len() && (#[trigger] steps[j]).target == stack@[k].1,
            decreases edges.len() - steps.len(),
        {
            let ghost seen1 = seen@;
            let ghost stack1 = stack@;
            let walk = match stack.pop() {
                Some(w) => w,
                None => (0, 0, 0, 0),
            };
            let (eid, src, tgt, comp) = walk;
            assert(walk == stack1.last());
            assert(incident_entry(edges, src as nat, walk));
            let mut anchor = String::from_str("A");
            let digits = decimal_string(coord_labels.len() as u128 + 1);
            anchor.append(digits.as_str());
            let source = graph.node_position(src);
            let target = graph.node_position(tgt);
            let look = graph.incident_edges(tgt);
            let ghost stack2 = stack@;
            let count = push_unseen(&look, &mut seen, &mut stack);
            let minted = count >= 2;
            let m = find_component(components, comp);
            let c1 = find_coord(Coordinate::Position(source), None, child_labels, &coord_labels);
            let c2 = find_coord(
                Coordinate::Position(target),
                Some(Coordinate::Position(source)),
                child_labels,
                &coord_labels,
            );
            let hidden = match last_target {
                Some(p) => p == source,
                None => false,
            };
            let s1 = c1.coords(CoordinateOptions { relative_to: None, hidden, with_parens: true });
            let s2 = c2.coords(
                CoordinateOptions {
                    relative_to: Some(Coordinate::Position(source)),
                    hidden: false,
                    with_parens: true,
                },
            );
            let suffix = if minted {
                let mut x = String::from_str(" coordinate (");
                x.append(anchor.as_str());
                x.append(")");
                x
            } else {
                String::new()
            };
            let info = components[m].info.get_component_info();
            let line = statement(components[m].kind, &info, &names[m], &s1, &s2, &suffix);
            buffer.append(line.as_str());
            last_target = Some(target);
            let ghost step = Step {
                outer: node as nat,
                edge: eid as nat,
                source: src as nat,
                target: tgt as nat,
                component: comp,
                minted,
            };
            let ghost steps0 = steps;
            proof {
                lemma_lines_extend(nodes, cache, comps, nm, steps0, step, steps0.len());
                lemma_anchors_stable(nodes, steps0.push(step), steps0, steps0.len());
                steps = steps0.push(step);
                assert(step_text(nodes, cache, comps, nm, steps, steps0.len() as int) == line@);
                assert(buffer@ == "\\draw\n"@ + lines(nodes, cache, comps, nm, steps, steps.len()));
            }
            proof {
                if minted {
                    let k = stack2.len() as int;
                    assert(!seen1.contains(stack@[k].3));
                    let l = choose|l: int| 0 <= l < look@.len() && look@[l] == stack@[k];
                    assert(incident_entry(edges, tgt as nat, look@[l]));
                    if key_in(coord_labels@, target) {
                        lemma_anchor_keys(nodes, steps0, steps0.len(), target);
                        let j = choose|j: int|
                            0 <= j < steps0.len() && #[trigger] steps0[j].minted
                                && nodes[steps0[j].target as int] == target;
                        assert(steps0[j].target < nodes.len());
                        assert(steps0[j].target == tgt);
                        assert(touches(edges[look@[l].0 as int], tgt as nat));
                    }
                }
            }
            if minted {
                coord_labels.insert(target, anchor);
            }
            proof {
                let n0 = steps0.len();
                assert(steps[n0 as int] == step);
                assert forall|i: int| 0 <= i < n0 implies #[trigger] steps[i] == steps0[i] by {}
                // anchors
                assert(coord_labels@ == anchors_before(nodes, steps, steps.len()));
                // steps_ok
                assert forall|i: int| 0 <= i <= n0 && (#[trigger] steps[i]).minted implies !key_in(
                    anchors_before(nodes, steps, i as nat),
                    nodes[steps[i].target as int],
                ) by {
                    lemma_anchors_stable(nodes, steps, steps0, i as nat);
                }
                assert forall|i: int, j: int|
                    0 <= i < steps.len() && 0 <= j < steps.len() && i != j implies (
                    #[trigger] steps[i]).edge != (#[trigger] steps[j]).edge by {
                    if i == n0 {
                        assert(stack1[stack1.len() - 1].0 != steps0[j].edge);
                    } else if j == n0 {
                        assert(stack1[stack1.len() - 1].0 != steps0[i].edge);
                    }
                }
                assert(steps_ok(nodes, edges, steps));
                // the stack: what was below the popped walk, then the new walks
                assert forall|k: int| 0 <= k < stack2.len() implies #[trigger] stack@[k] == stack1[k] by {}
                assert forall|k: int| stack2.len() <= k < stack@.len() implies incident_entry(
                    edges,
                    tgt as nat,
                    #[trigger] stack@[k],
                ) && !seen1.contains(stack@[k].3) by {
                    let l = choose|l: int| 0 <= l < look@.len() && look@[l] == stack@[k];
                    assert(incident_entry(edges, tgt as nat, look@[l]));
                }
                assert forall|k: int| 0 <= k < stack@.len() implies incident_entry(
                    edges,
                    (#[trigger] stack@[k]).1 as nat,
                    stack@[k],
                ) by {
                    if k < stack2.len() {
                        assert(stack@[k] == stack1[k]);
                    }
                }
                assert forall|k: int, l: int|
                    0 <= k < stack@.len() && 0 <= l < stack@.len() && k != l implies (
                    #[trigger] stack@[k]).0 != (#[trigger] stack@[l]).0 by {
                    if k < stack2.len() && l < stack2.len() {
                        assert(stack@[k] == stack1[k]);
                        assert(stack@[l] == stack1[l]);
                    } else if k < stack2.len() {
                        assert(stack@[k] == stack1[k]);
                        assert(seen1.contains(stack1[k].3));
                    } else if l < stack2.len() {
                        assert(stack@[l] == stack1[l]);
                        assert(seen1.contains(stack1[l].3));
                    }
                }
                assert forall|k: int, i: int|
                    0 <= k < stack@.len() && 0 <= i < steps.len() implies (#[trigger] stack@[k]).0
                        != (#[trigger] steps[i]).edge by {
                    if i == n0 {
                        if k < stack2.len() {
                            assert(stack@[k] == stack1[k]);
                        } else {
                            assert(seen1.contains(comp));
                        }
                    } else {
                        assert(steps[i] == steps0[i]);
                        assert(seen1.contains(steps0[i].component));
                        if k < stack2.len() {
                            assert(stack@[k] == stack1[k]);
                        }
                    }
                }
                assert(stack_ok(edges, steps, stack@));
                // seen
                assert forall|i: int| 0 <= i < steps.len() implies seen@.contains(
                    (#[trigger] steps[i]).component,
                ) by {
                    if i < n0 {
                        assert(steps[i] == steps0[i]);
                        assert(seen1.contains(steps0[i].component));
                    } else {
                        assert(seen1.contains(stack1[stack1.len() - 1].3));
                    }
                }
                assert forall|k: int| 0 <= k < stack@.len() implies seen@.contains(
                    (#[trigger] stack@[k]).3,
                ) by {
                    if k < stack2.len() {
                        assert(stack@[k] == stack1[k]);
                        assert(seen1.contains(stack1[k].3));
                    } else {
                        let l = choose|l: int| 0 <= l < look@.len() && look@[l] == stack@[k];
                        assert(look@[l].3 == stack@[k].3);
                    }
                }
                assert forall|c: u64| #[trigger] seen@.contains(c) implies comp_walked_or_stacked(
                    steps,
                    stack@,
                    c,
                ) by {
                    if seen1.contains(c) {
                        assert(comp_walked_or_stacked(steps0, stack1, c));
                        if exists|i: int| 0 <= i < steps0.len() && (#[trigger] steps0[i]).component == c {
                            let i = choose|i: int| 0 <= i < steps0.len() && (#[trigger] steps0[i]).component == c;
                            assert(steps[i] == steps0[i]);
                        } else {
                            let k = choose|k: int| 0 <= k < stack1.len() && (#[trigger] stack1[k]).3 == c;
                            if k == stack1.len() - 1 {
                                assert(steps[n0 as int].component == c);
                            } else {
                                assert(stack@[k] == stack1[k]);
                            }
                        }
                    }
                }
                assert(seen_ok(seen@, steps, stack@));
                // branch points
                assert forall|i: int, e: int|
                    0 <= i < steps.len() && 0 <= e < edges.len()
                        && touches(#[trigger] edges[e], (#[trigger] steps[i]).target) implies seen@.contains(
                    edges[e].2,
                ) by {
                    if i < n0 {
                        assert(steps[i] == steps0[i]);
                        assert(seen1.contains(edges[e].2));
                    } else {
                        let k = choose|k: int| 0 <= k < look@.len() && (#[trigger] look@[k]).0 == e;
                        assert(incident_entry(edges, tgt as nat, look@[k]));
                    }
                }
                assert(targets_seen(edges, steps, seen@));
                // the walk count stays within the edge count
                let ids = edge_ids(steps);
                assert forall|i: int, j: int| 0 <= i < ids.len() && 0 <= j < ids.len() && i != j implies ids[i] != ids[j] by {
                    assert(steps[i].edge != steps[j].edge);
                }
                assert forall|i: int| 0 <= i < ids.len() implies 0 <= #[trigger] ids[i] < edges.len() by {
                    assert(steps[i].edge < edges.len());
                }
                lemma_distinct_bounded(ids, edges.len() as int);
                // the order of the pass
                assert(stack1[stack1.len() - 1].1 == node || exists|j: int|
                    0 <= j < steps0.len() && (#[trigger] steps0[j]).target == stack1[stack1.len() - 1].1);
                assert forall|k: int| stack2.len() <= k < stack@.len() implies incident_entry(
                    edges,
                    step.target,
                    #[trigger] stack@[k],
                ) by {
                    let l = choose|l: int| 0 <= l < look@.len() && look@[l] == stack@[k];
                    assert(incident_entry(edges, tgt as nat, look@[l]));
                }
                lemma_step_order(nodes, edges, steps0, step, seen1, seen@, look@, stack2, stack@, count as nat);
                assert forall|c: u64| #[trigger] seen@.contains(c) implies exists|e: int|
                    0 <= e < edges.len() && (#[trigger] edges[e]).2 == c && (edges[e].0 < node + 1
                        || edges[e].1 < node + 1 || exists|k: int|
                        0 <= k < steps.len() && touches(edges[e], (#[trigger] steps[k]).target)) by {
                    if seen1.contains(c) {
                        let e = choose|e: int|
                            0 <= e < edges.len() && (#[trigger] edges[e]).2 == c && (edges[e].0 < node + 1
                                || edges[e].1 < node + 1 || exists|k: int|
                                0 <= k < steps0.len() && touches(edges[e], (#[trigger] steps0[k]).target));
                        if exists|k: int| 0 <= k < steps0.len() && touches(edges[e], (#[trigger] steps0[k]).target) {
                            let k = choose|k: int| 0 <= k < steps0.len() && touches(edges[e], (#[trigger] steps0[k]).target);
                            assert(steps[k] == steps0[k]);
                        }
                    } else {
                        let l = choose|l: int| 0 <= l < look@.len() && (#[trigger] look@[l]).3 == c;
                        assert(incident_entry(edges, tgt as nat, look@[l]));
                        let e = look@[l].0 as int;
                        assert(touches(edges[e], steps[n0 as int].target));
                    }
                }
                assert forall|k: int| 0 <= k < stack@.len() implies (#[trigger] stack@[k]).1 == node
                    || exists|j: int| 0 <= j < steps.len() && (#[trigger] steps[j]).target == stack@[k].1 by {
                    if k < stack2.len() {
                        assert(stack@[k] == stack1[k]);
                        if stack1[k].1 != node {
                            let j = choose|j: int| 0 <= j < steps0.len() && (#[trigger] steps0[j]).target == stack1[k].1;
                            assert(steps[j] == steps0[j]);
                        }
                    } else {
                        let l = choose|l: int| 0 <= l < look@.len() && look@[l] == stack@[k];
                        assert(incident_entry(edges, tgt as nat, look@[l]));
                        assert(steps[n0 as int].target == stack@[k].1);
                    }
                }
            }
        }
        assert(stack@ =~= Seq::<Walk>::empty());
        proof {
            if components_distinct(edges) {
                assert forall|e: int|
                    0 <= e < edges.len() && ((#[trigger] edges[e]).0 < node + 1 || edges[e].1 < node + 1)
                        implies walked(steps, e) by {
                    let m = if edges[e].0 < node + 1 { edges[e].0 as int } else { edges[e].1 as int };
                    assert(touches(edges[e], m as nat));
                    assert(seen@.contains(edges[e].2));
                    assert(comp_walked_or_stacked(steps, stack@, edges[e].2));
                    let i = choose|i: int| 0 <= i < steps.len() && (#[trigger] steps[i]).component == edges[e].2;
                    assert(edges[steps[i].edge as int].2 == edges[e].2);
                }
            }
        }
    }
    buffer.append(";");
    proof {
        if components_distinct(edges) {
            assert forall|e: int| 0 <= e < edges.len() implies #[trigger] walked(steps, e) by {
                let m = edges[e].0 as int;
                assert(edges[e].0 < nodes.len());
                assert(touches(edges[e], m as nat));
                assert(seen@.contains(edges[e].2));
                assert(comp_walked_or_stacked(steps, Seq::empty(), edges[e].2));
                let i = choose|i: int|
                    0 <= i < steps.len() && (#[trigger] steps[i]).component == edges[e].2;
                assert(steps[i].edge < edges.len());
                assert(edges[steps[i].edge as int].2 == edges[e].2);
            }
        }
        assert(valid_traversal(nodes, edges, steps));
    }
    buffer
}


/// A pass writes every edge of the graph exactly once, when no two edges
/// carry the same component.
pub proof fn lemma_edge_coverage(nodes: Seq<Position>, edges: Seq<(nat, nat, u64)>, steps: Seq<Step>)
    requires
        valid_traversal(nodes, edges, steps),
        components_distinct(edges),
    ensures
        forall|i: int| 0 <= i < steps.len() ==> (#[trigger] steps[i]).edge < edges.len(),
        forall|e: int| 0 <= e < edges.len() ==> #[trigger] walked(steps, e),
        forall|i: int, j: int|
            0 <= i < steps.len() && 0 <= j < steps.len() && (#[trigger] steps[i]).edge == (
            #[trigger] steps[j]).edge ==> i == j,
{
}

/// Anchors are only ever added: those declared before step `i` are the
/// first ones declared before any later step `j`.
pub proof fn lemma_anchors_grow(nodes: Seq<Position>, steps: Seq<Step>, i: nat, j: nat)
    requires
        i <= j <= steps.len(),
    ensures
        anchors_before(nodes, steps, i).len() <= anchors_before(nodes, steps, j).len(),
        forall|a: int|
            0 <= a < anchors_before(nodes, steps, i).len() ==> #[trigger] anchors_before(
                nodes,
                steps,
                j,
            )[a] == anchors_before(nodes, steps, i)[a],
    decreases j - i,
{
    if i < j {
        lemma_anchors_grow(nodes, steps, i, (j - 1) as nat);
    }
}

/// In a pass, no point is given two anchors.
pub proof fn lemma_anchors_distinct(
    nodes: Seq<Position>,
    edges: Seq<(nat, nat, u64)>,
    steps: Seq<Step>,
    i: nat,
)
    requires
        steps_ok(nodes, edges, steps),
        i <= steps.len(),
    ensures
        keys_distinct(anchors_before(nodes, steps, i)),
    decreases i,
{
    if i > 0 {
        lemma_anchors_distinct(nodes, edges, steps, (i - 1) as nat);
        let prev = anchors_before(nodes, steps, (i - 1) as nat);
        let cur = anchors_before(nodes, steps, i);
        if steps[i - 1].minted {
            let p = nodes[steps[i - 1].target as int];
            assert(!key_in(prev, p));
            assert forall|a: int, b: int|
                0 <= a < cur.len() && 0 <= b < cur.len() && a != b implies (#[trigger] cur[a]).0
                    != (#[trigger] cur[b]).0 by {
                if a == prev.len() {
                    assert(prev[b].0 != p);
                } else if b == prev.len() {
                    assert(prev[a].0 != p);
                } else {
                    assert(cur[a] == prev[a] && cur[b] == prev[b]);
                }
            }
        }
    }
}

/// Once a point has a label in a pass, from the terminal labels or from an
/// anchor, every later reference to it in that pass resolves to the same
/// label, whatever the previous point is.
pub proof fn lemma_anchor_reuse(
    nodes: Seq<Position>,
    edges: Seq<(nat, nat, u64)>,
    cache: Seq<(Position, Seq<char>)>,
    steps: Seq<Step>,
    i: nat,
    j: nat,
    p: Position,
    previous_i: Option<CoordinateView>,
    previous_j: Option<CoordinateView>,
)
    requires
        valid_traversal(nodes, edges, steps),
        keys_distinct(cache),
        i <= j <= steps.len(),
        key_in(cache, p) || key_in(anchors_before(nodes, steps, i), p),
    ensures
        resolve(CoordinateView::Position(p), previous_j, cache, anchors_before(nodes, steps, j))
            == resolve(
            CoordinateView::Position(p),
            previous_i,
            cache,
            anchors_before(nodes, steps, i),
        ),
        resolve(CoordinateView::Position(p), previous_j, cache, anchors_before(nodes, steps, j)) is Label,
{
    let ai = anchors_before(nodes, steps, i);
    let aj = anchors_before(nodes, steps, j);
    if !key_in(cache, p) {
        lemma_anchors_grow(nodes, steps, i, j);
        lemma_anchors_distinct(nodes, edges, steps, j);
        let k = key_index(ai, p);
        assert(ai[k].0 == p);
        assert(aj[k] == ai[k]);
        assert(key_in(aj, p));
        let kj = key_index(aj, p);
        assert(aj[kj].0 == p);
        assert(kj == k);
    }
}

} // verus!
