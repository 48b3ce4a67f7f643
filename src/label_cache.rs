//! The terminal labels: for every named pin of every placed device, the
//! grid position of the pin and the name the document knows it by.
use vstd::prelude::*;

use crate::component::{
    anchor_of, component_terminals, terminal_table, ComponentLabel, ComponentMetadata,
    ComponentStructure,
};
use crate::coordinate::{key_in, key_index, PositionLabels};
use crate::position::{in_grid, Position};

verus! {

/// Where a terminal with offset `t` sits on a device anchored at `anchor`.
pub open spec fn terminal_point(anchor: Position, t: (int, int, Seq<char>)) -> Position {
    Position { x: (anchor.x + t.0) as isize, y: (anchor.y + t.1) as isize }
}

/// The terminal labels of one device named `name`: `<name><suffix>` at each
/// terminal's point.
pub open spec fn device_labels(c: ComponentMetadata, name: Seq<char>) -> Seq<(Position, Seq<char>)> {
    terminal_table(c.kind).map_values(
        |t: (int, int, Seq<char>)| (terminal_point(anchor_of(c.structure), t), name + t.2),
    )
}

/// The terminal labels of the first `n` devices, in order.
pub open spec fn all_device_labels(
    components: Seq<ComponentMetadata>,
    names: Seq<Seq<char>>,
    n: nat,
) -> Seq<(Position, Seq<char>)>
    decreases n,
{
    if n == 0 {
        Seq::empty()
    } else {
        all_device_labels(components, names, (n - 1) as nat) + device_labels(
            components[n - 1],
            names[n - 1],
        )
    }
}

/// `entries` after recording `label` for `p`: replaced in place when `p`
/// is there, added last otherwise.
pub open spec fn label_insert(
    entries: Seq<(Position, Seq<char>)>,
    p: Position,
    label: Seq<char>,
) -> Seq<(Position, Seq<char>)> {
    if key_in(entries, p) {
        entries.update(key_index(entries, p), (p, label))
    } else {
        entries.push((p, label))
    }
}

/// The labels that recording `pairs` in order leaves: where two pairs have
/// one position, the later label wins.
pub open spec fn recorded(pairs: Seq<(Position, Seq<char>)>) -> Seq<(Position, Seq<char>)>
    decreases pairs.len(),
{
    if pairs.len() == 0 {
        Seq::empty()
    } else {
        label_insert(recorded(pairs.drop_last()), pairs.last().0, pairs.last().1)
    }
}

/// Rebuilds the terminal labels from scratch: every terminal of every
/// device, devices in order, each labelled with the device's name and the
/// terminal's suffix (`AND1.in 1`). Where two terminals share a point, the
/// later one wins.
pub fn update_child_label(components: &Vec<ComponentMetadata>, names: &Vec<ComponentLabel>) -> (r:
    PositionLabels)
    requires
        names@.len() == components@.len(),
        forall|i: int|
            0 <= i < components@.len() ==> in_grid(anchor_of((#[trigger] components@[i]).structure)),
    ensures
        r.wf(),
        r@ == recorded(
            all_device_labels(
                components@,
                names@.map_values(|l: ComponentLabel| l.label@),
                components@.len(),
            ),
        ),
{
    let ghost nm = names@.map_values(|l: ComponentLabel| l.label@);
    let mut labels = PositionLabels::new();
    let n = components.len();
    for i in 0..n
        invariant
            n == components@.len(),
            names@.len() == n,
            nm == names@.map_values(|l: ComponentLabel| l.label@),
            forall|i: int|
                0 <= i < components@.len() ==> in_grid(
                    anchor_of((#[trigger] components@[i]).structure),
                ),
            labels.wf(),
            labels@ == recorded(all_device_labels(components@, nm, i as nat)),
    {
        let terms = component_terminals(components[i].kind);
        let anchor = match components[i].structure {
            ComponentStructure::Node(p) => p,
            ComponentStructure::To(a, _) => a,
        };
        let ghost done = all_device_labels(components@, nm, i as nat);
        let ghost mine = device_labels(components@[i as int], nm[i as int]);
        let m = terms.len();
        for j in 0..m
            invariant
                n == components@.len(),
                names@.len() == n,
                i < n,
                nm == names@.map_values(|l: ComponentLabel| l.label@),
                m == terms@.len(),
                m == terminal_table(components@[i as int].kind).len(),
                forall|k: int|
                    0 <= k < m ==> (#[trigger] terms@[k]).dx == terminal_table(
                        components@[i as int].kind,
                    )[k].0 && terms@[k].dy == terminal_table(components@[i as int].kind)[k].1
                        && terms@[k].suffix@ == terminal_table(components@[i as int].kind)[k].2,
                anchor == anchor_of(components@[i as int].structure),
                in_grid(anchor),
                mine == device_labels(components@[i as int], nm[i as int]),
                labels.wf(),
                labels@ == recorded(done + mine.take(j as int)),
        {
            let t = &terms[j];
            assert(-64 <= t.dx <= 64 && -64 <= t.dy <= 64);
            let p = Position { x: anchor.x + t.dx, y: anchor.y + t.dy };
            let mut label = names[i].label.clone();
            label.append(t.suffix);
            proof {
                let e = mine[j as int];
                assert(e == (p, label@));
                assert((done + mine.take(j + 1)).drop_last() =~= done + mine.take(j as int));
                assert((done + mine.take(j + 1)).last() == e);
            }
            labels.insert(p, label);
        }
        assert(mine.take(m as int) =~= mine);
    }
    labels
}

} // verus!
