use circuit_tikz::coordinate::{find_coord, Coordinate, CoordinateOptions, PositionLabels};
use circuit_tikz::position::Position;

fn label_of(c: &Coordinate) -> Option<String> {
    match c {
        Coordinate::Label(s) => Some(s.clone()),
        Coordinate::Position(_) => None,
    }
}

fn pos(x: isize, y: isize) -> Position {
    Position { x, y }
}

#[test]
fn coordinate_text() {
    let p = Coordinate::Position(pos(192, 16));
    let parens = CoordinateOptions { relative_to: None, hidden: false, with_parens: true };
    assert_eq!(p.coords(parens), "(1, 0.5)");
    assert_eq!(p.coords(CoordinateOptions::default()), "1, 0.5");
    let rel = CoordinateOptions {
        relative_to: Some(Coordinate::Position(pos(160, 48))),
        hidden: false,
        with_parens: true,
    };
    assert_eq!(p.coords(rel), "++(1, -1)");
    let hidden = CoordinateOptions { relative_to: None, hidden: true, with_parens: true };
    assert_eq!(p.coords(hidden), "");
    let l = Coordinate::Label("A1".to_string());
    let rel_label = CoordinateOptions {
        relative_to: Some(Coordinate::Position(pos(0, 0))),
        hidden: false,
        with_parens: true,
    };
    assert_eq!(l.coords(rel_label), "(A1)");
}

#[test]
fn coordinate_accessors() {
    let p = Coordinate::from(pos(3, 4));
    assert_eq!(p.as_position(), Some(pos(3, 4)));
    assert_eq!(p.as_position_unchecked(), pos(3, 4));
    assert_eq!(p.as_tikz_coords(), Some((-157, 4)));
    assert_eq!(Coordinate::default().as_position(), Some(pos(0, 0)));
    let l = Coordinate::from("X".to_string());
    assert_eq!(l.as_position(), None);
    assert_eq!(l.as_tikz_coords(), None);
}

#[test]
fn intersection_text() {
    let a = Coordinate::Label("A1".to_string());
    let b = Coordinate::Label("AND1.out".to_string());
    assert_eq!(label_of(&a.intersect(&b, false)).unwrap(), "A1 -| AND1.out");
    assert_eq!(label_of(&a.intersect(&b, true)).unwrap(), "A1 |- AND1.out");
    let p = Coordinate::Position(pos(160, 0));
    assert_eq!(label_of(&p.intersect(&b, false)).unwrap(), "0, 0 -| AND1.out");
}

#[test]
fn labels_last_write_wins() {
    let mut m = PositionLabels::new();
    m.insert(pos(1, 1), "a".to_string());
    m.insert(pos(2, 2), "b".to_string());
    m.insert(pos(1, 1), "c".to_string());
    assert_eq!(m.len(), 2);
    let (p0, l0) = m.entry(0);
    assert_eq!((p0, l0.as_str()), (pos(1, 1), "c"));
    assert_eq!(m.lookup(&pos(2, 2)), Some(1));
    assert_eq!(m.lookup(&pos(3, 3)), None);
    assert_eq!(label_of(&m.coord_from(pos(2, 2))).unwrap(), "b");
    assert!(label_of(&m.coord_from(pos(9, 9))).is_none());
}

#[test]
fn resolver_keeps_labels() {
    let mut cache = PositionLabels::new();
    cache.insert(pos(0, 0), "AND1.out".to_string());
    let anchors = PositionLabels::new();
    let r = find_coord(
        Coordinate::Label("AND1.in 1".to_string()),
        Some(Coordinate::Position(pos(5, 5))),
        &cache,
        &anchors,
    );
    assert_eq!(label_of(&r).unwrap(), "AND1.in 1");
}

#[test]
fn resolver_prefers_terminal_label_then_anchor() {
    let mut cache = PositionLabels::new();
    cache.insert(pos(0, 0), "AND1.out".to_string());
    let mut anchors = PositionLabels::new();
    anchors.insert(pos(0, 0), "A1".to_string());
    anchors.insert(pos(64, 0), "A2".to_string());
    let r = find_coord(Coordinate::Position(pos(0, 0)), None, &cache, &anchors);
    assert_eq!(label_of(&r).unwrap(), "AND1.out");
    let r = find_coord(Coordinate::Position(pos(64, 0)), None, &cache, &anchors);
    assert_eq!(label_of(&r).unwrap(), "A2");
    let r = find_coord(Coordinate::Position(pos(96, 0)), None, &cache, &anchors);
    assert_eq!(r.as_position(), Some(pos(96, 0)));
}

#[test]
fn resolver_intersection_fallback() {
    let mut cache = PositionLabels::new();
    cache.insert(pos(64, 64), "AND1.out".to_string());
    let anchors = PositionLabels::new();
    // same column as the known point: vertical-then-horizontal form
    let r = find_coord(
        Coordinate::Position(pos(64, 0)),
        Some(Coordinate::Position(pos(0, 0))),
        &cache,
        &anchors,
    );
    assert_eq!(label_of(&r).unwrap(), "-5, 0 -| AND1.out");
    // same row as the known point
    let r = find_coord(
        Coordinate::Position(pos(32, 64)),
        Some(Coordinate::Position(pos(0, 0))),
        &cache,
        &anchors,
    );
    assert_eq!(label_of(&r).unwrap(), "-5, 0 |- AND1.out");
    // the previous point has a name of its own
    let mut named = PositionLabels::new();
    named.insert(pos(0, 0), "A1".to_string());
    let r = find_coord(
        Coordinate::Position(pos(64, 0)),
        Some(Coordinate::Position(pos(0, 0))),
        &cache,
        &named,
    );
    assert_eq!(label_of(&r).unwrap(), "A1 -| AND1.out");
}

#[test]
fn resolver_skips_axis_aligned_candidates() {
    let mut cache = PositionLabels::new();
    // straight to the right of the previous point: never used
    cache.insert(pos(64, 0), "E1.out".to_string());
    // slanted from the previous point
    cache.insert(pos(64, 32), "E2.out".to_string());
    let anchors = PositionLabels::new();
    let r = find_coord(
        Coordinate::Position(pos(64, 96)),
        Some(Coordinate::Position(pos(0, 0))),
        &cache,
        &anchors,
    );
    assert_eq!(label_of(&r).unwrap(), "-5, 0 -| E2.out");
    // with only the aligned candidate, the position stays a position
    let mut only = PositionLabels::new();
    only.insert(pos(64, 0), "E1.out".to_string());
    let r = find_coord(
        Coordinate::Position(pos(64, 96)),
        Some(Coordinate::Position(pos(0, 0))),
        &only,
        &anchors,
    );
    assert_eq!(r.as_position(), Some(pos(64, 96)));
    // no previous point: no fallback
    let r = find_coord(Coordinate::Position(pos(64, 96)), None, &cache, &anchors);
    assert_eq!(r.as_position(), Some(pos(64, 96)));
}
