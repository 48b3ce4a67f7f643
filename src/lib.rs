//! Turns a schematic drawn on a grid into the text of a circuit drawing:
//! a graph of connection points, a resolver that picks the clearest way to
//! name each point, and a single pass over the graph that writes one draw
//! statement per component.

pub mod component;
pub mod coordinate;
pub mod document;
pub mod graph;
pub mod label_cache;
pub mod placement;
pub mod position;
pub mod serialize;
pub mod text;
