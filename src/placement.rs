//! Turning clicks on the grid into placed components.
use vstd::prelude::*;

use crate::component::{is_single_kind, ComponentStructure, TikzComponent};
use crate::position::Position;

verus! {

/// A click at `pos` while `kind` is picked, with `first` the point a
/// pending two-point placement started from. A one-point symbol is placed
/// at once. Otherwise the first click is remembered, and the second places
/// the symbol between the two points, unless both clicks hit the same
/// point, which drops the placement.
pub open spec fn placement(kind: TikzComponent, first: Option<Position>, pos: Position) -> (
    Option<Position>,
    Option<ComponentStructure>,
) {
    if is_single_kind(kind) {
        (first, Some(ComponentStructure::Node(pos)))
    } else {
        match first {
            None => (Some(pos), None),
            Some(a) => if a == pos {
                (None, None)
            } else {
                (None, Some(ComponentStructure::To(a, pos)))
            },
        }
    }
}

/// Handles a click on the grid (see `placement`): updates the pending first
/// point and returns the structure of the component to place, if any.
pub fn draw_initial_component(
    first: &mut Option<Position>,
    kind: TikzComponent,
    pos: Position,
) -> (r: Option<ComponentStructure>)
    ensures
        (*final(first), r) == placement(kind, *old(first), pos),
{
    if kind.is_single() {
        return Some(ComponentStructure::Node(pos));
    }
    match *first {
        None => {
            *first = Some(pos);
            None
        },
        Some(a) => {
            *first = None;
            if a == pos {
                None
            } else {
                Some(ComponentStructure::To(a, pos))
            }
        },
    }
}

} // verus!
