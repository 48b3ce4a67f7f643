//! References to points of the document, and the resolver that picks the
//! clearest reference for a grid position.
use vstd::prelude::*;

use crate::position::{doc_x, doc_y, Position};
use crate::text::{scaled_string, scaled_text};

verus! {

/// Labels keyed by position, in insertion order, one entry per position.
pub struct PositionLabels {
    entries: Vec<(Position, String)>,
}

pub open spec fn key_in(entries: Seq<(Position, Seq<char>)>, p: Position) -> bool {
    exists|i: int| 0 <= i < entries.len() && (#[trigger] entries[i]).0 == p
}

pub open spec fn key_index(entries: Seq<(Position, Seq<char>)>, p: Position) -> int {
    choose|i: int| 0 <= i < entries.len() && (#[trigger] entries[i]).0 == p
}

/// The label stored for `p`; meaningful when `key_in(entries, p)`.
pub open spec fn label_of(entries: Seq<(Position, Seq<char>)>, p: Position) -> Seq<char> {
    entries[key_index(entries, p)].1
}

pub open spec fn keys_distinct(entries: Seq<(Position, Seq<char>)>) -> bool {
    forall|i: int, j: int|
        0 <= i < entries.len() && 0 <= j < entries.len() && i != j ==> (#[trigger] entries[i]).0
            != (#[trigger] entries[j]).0
}

impl View for PositionLabels {
    type V = Seq<(Position, Seq<char>)>;

    closed spec fn view(&self) -> Seq<(Position, Seq<char>)> {
        self.entries@.map_values(|e: (Position, String)| (e.0, e.1@))
    }
}

impl PositionLabels {
    pub open spec fn wf(&self) -> bool {
        keys_distinct(self@)
    }

    pub fn new() -> (r: Self)
        ensures
            r@ == Seq::<(Position, Seq<char>)>::empty(),
            r.wf(),
    {
        PositionLabels { entries: Vec::new() }
    }

    pub fn len(&self) -> (r: usize)
        ensures
            r == self@.len(),
    {
        self.entries.len()
    }

    /// Where `p` is stored, if it is.
    pub fn lookup(&self, p: &Position) -> (r: Option<usize>)
        ensures
            match r {
                Some(i) => i < self@.len() && self@[i as int].0 == *p,
                None => !key_in(self@, *p),
            },
    {
        let n = self.entries.len();
        for i in 0..n
            invariant
                n == self.entries@.len(),
                forall|j: int| 0 <= j < i ==> self@[j].0 != *p,
        {
            if self.entries[i].0 == *p {
                return Some(i);
            }
        }
        None
    }

    /// The position and label of the `i`-th entry.
    pub fn entry(&self, i: usize) -> (r: (Position, &String))
        requires
            i < self@.len(),
        ensures
            r.0 == self@[i as int].0,
            r.1@ == self@[i as int].1,
    {
        (self.entries[i].0, &self.entries[i].1)
    }

    /// Records `label` for `p`. A label already stored for `p` is replaced
    /// in place; a new position goes last.
    pub fn insert(&mut self, p: Position, label: String)
        requires
            old(self).wf(),
        ensures
            final(self).wf(),
            key_in(old(self)@, p) ==> final(self)@ == old(self)@.update(
                key_index(old(self)@, p),
                (p, label@),
            ),
            !key_in(old(self)@, p) ==> final(self)@ == old(self)@.push((p, label@)),
    {
        match self.lookup(&p) {
            Some(i) => {
                proof {
                    let k = key_index(old(self)@, p);
                    assert(old(self)@[k].0 == p);
                }
                self.entries.set(i, (p, label));
                assert(self@ =~= old(self)@.update(i as int, (p, label@)));
            },
            None => {
                self.entries.push((p, label));
                assert(self@ =~= old(self)@.push((p, label@)));
            },
        }
    }

    /// The stored label of `p` as a reference, or `p` itself.
    pub fn coord_from(&self, p: Position) -> (r: Coordinate)
        requires
            self.wf(),
        ensures
            r@ == resolve_known(p, self@, Seq::empty()),
    {
        match self.lookup(&p) {
            Some(i) => {
                assert(self@[key_index(self@, p)].0 == p);
                Coordinate::Label(self.entries[i].1.clone())
            },
            None => Coordinate::Position(p),
        }
    }
}

/// A reference to a point of the document: a grid position still to be
/// printed as numbers, or a name or expression that the document knows.
pub enum Coordinate {
    Position(Position),
    Label(String),
}

pub enum CoordinateView {
    Position(Position),
    Label(Seq<char>),
}

impl View for Coordinate {
    type V = CoordinateView;

    open spec fn view(&self) -> CoordinateView {
        match self {
            Coordinate::Position(p) => CoordinateView::Position(*p),
            Coordinate::Label(s) => CoordinateView::Label(s@),
        }
    }
}

impl Default for Coordinate {
    fn default() -> (r: Self)
        ensures
            r@ == CoordinateView::Position(Position { x: 0, y: 0 }),
    {
        Coordinate::Position(Position::default())
    }
}

pub open spec fn opt_view(c: Option<Coordinate>) -> Option<CoordinateView> {
    match c {
        Some(c) => Some(c@),
        None => None,
    }
}

/// How a coordinate is printed.
pub struct CoordinateOptions {
    /// Print a position as an offset (`++(dx, dy)`) from this one.
    pub relative_to: Option<Coordinate>,
    /// Print nothing: the document's current point is meant.
    pub hidden: bool,
    pub with_parens: bool,
}

impl Default for CoordinateOptions {
    fn default() -> (r: Self)
        ensures
            r.relative_to is None,
            !r.hidden,
            !r.with_parens,
    {
        CoordinateOptions { relative_to: None, hidden: false, with_parens: false }
    }
}

/// `x, y` of a point given in `1 / DOC_SCALE` units.
pub open spec fn pair_text(x: int, y: int) -> Seq<char> {
    scaled_text(x) + ", "@ + scaled_text(y)
}

pub open spec fn wrap(s: Seq<char>, parens: bool) -> Seq<char> {
    if parens {
        "("@ + s + ")"@
    } else {
        s
    }
}

/// The text of a coordinate under the given options. Only a position
/// given as `relative_to` makes a position relative.
pub open spec fn coords_text(
    c: CoordinateView,
    relative_to: Option<CoordinateView>,
    hidden: bool,
    with_parens: bool,
) -> Seq<char> {
    if hidden {
        Seq::empty()
    } else {
        match c {
            CoordinateView::Label(s) => wrap(s, with_parens),
            CoordinateView::Position(v) => match relative_to {
                Some(CoordinateView::Position(last)) => "++"@ + wrap(
                    pair_text(doc_x(v) - doc_x(last), doc_y(v) - doc_y(last)),
                    with_parens,
                ),
                _ => wrap(pair_text(doc_x(v), doc_y(v)), with_parens),
            },
        }
    }
}

/// The point where a line through `a` meets a line through `b`:
/// `a -| b` (horizontal through `a`, vertical through `b`), or `a |- b`
/// when `is_y`.
pub open spec fn intersect_text(a: CoordinateView, b: CoordinateView, is_y: bool) -> Seq<char> {
    coords_text(a, None, false, false) + (if is_y {
        " |- "@
    } else {
        " -| "@
    }) + coords_text(b, None, false, false)
}

fn pair_string(x: i128, y: i128) -> (r: String)
    requires
        x > i128::MIN,
        y > i128::MIN,
    ensures
        r@ == pair_text(x as int, y as int),
{
    let mut r = scaled_string(x);
    r.append(", ");
    let ys = scaled_string(y);
    r.append(ys.as_str());
    r
}

fn wrap_string(s: String, parens: bool) -> (r: String)
    ensures
        r@ == wrap(s@, parens),
{
    if parens {
        let mut r = String::from_str("(");
        r.append(s.as_str());
        r.append(")");
        r
    } else {
        s
    }
}

impl Coordinate {
    pub fn coords(&self, options: CoordinateOptions) -> (r: String)
        ensures
            r@ == coords_text(
                self@,
                opt_view(options.relative_to),
                options.hidden,
                options.with_parens,
            ),
    {
        if options.hidden {
            return String::new();
        }
        match self {
            Coordinate::Label(s) => wrap_string(s.clone(), options.with_parens),
            Coordinate::Position(v) => {
                let (x, y) = v.tikz_coords();
                match options.relative_to {
                    Some(Coordinate::Position(last)) => {
                        let (lx, ly) = last.tikz_coords();
                        let mut r = String::from_str("++");
                        let inner = wrap_string(pair_string(x - lx, y - ly), options.with_parens);
                        r.append(inner.as_str());
                        r
                    },
                    _ => wrap_string(pair_string(x, y), options.with_parens),
                }
            },
        }
    }

    pub fn as_position(&self) -> (r: Option<Position>)
        ensures
            match self@ {
                CoordinateView::Position(p) => r == Some(p),
                CoordinateView::Label(_) => r is None,
            },
    {
        match self {
            Coordinate::Position(v) => Some(*v),
            Coordinate::Label(_) => None,
        }
    }

    /// The document coordinates of a position (see `Position::tikz_coords`).
    pub fn as_tikz_coords(&self) -> (r: Option<(i128, i128)>)
        ensures
            match self@ {
                CoordinateView::Position(p) => r == Some((doc_x(p) as i128, doc_y(p) as i128)),
                CoordinateView::Label(_) => r is None,
            },
    {
        match self {
            Coordinate::Label(_) => None,
            Coordinate::Position(v) => Some(v.tikz_coords()),
        }
    }

    pub fn as_position_unchecked(&self) -> (r: Position)
        requires
            self@ is Position,
        ensures
            self@ == CoordinateView::Position(r),
    {
        match self {
            Coordinate::Position(v) => *v,
            Coordinate::Label(_) => Position { x: 0, y: 0 },
        }
    }

    /// The reference to where lines through `self` and `other` cross.
    pub fn intersect(&self, other: &Self, is_y: bool) -> (r: Self)
        ensures
            r@ == CoordinateView::Label(intersect_text(self@, other@, is_y)),
    {
        let mut s = self.coords(CoordinateOptions::default());
        if is_y {
            s.append(" |- ");
        } else {
            s.append(" -| ");
        }
        let o = other.coords(CoordinateOptions::default());
        s.append(o.as_str());
        Coordinate::Label(s)
    }
}

impl From<Position> for Coordinate {
    fn from(position: Position) -> Self {
        Coordinate::Position(position)
    }
}

impl vstd::std_specs::convert::FromSpecImpl<Position> for Coordinate {
    open spec fn obeys_from_spec() -> bool {
        true
    }

    open spec fn from_spec(position: Position) -> Self {
        Coordinate::Position(position)
    }
}

impl From<String> for Coordinate {
    fn from(label: String) -> Self {
        Coordinate::Label(label)
    }
}

impl vstd::std_specs::convert::FromSpecImpl<String> for Coordinate {
    open spec fn obeys_from_spec() -> bool {
        true
    }

    open spec fn from_spec(label: String) -> Self {
        Coordinate::Label(label)
    }
}

/// A position's known name: its terminal label, else its anchor, else the
/// position itself.
pub open spec fn resolve_known(
    p: Position,
    cache: Seq<(Position, Seq<char>)>,
    anchors: Seq<(Position, Seq<char>)>,
) -> CoordinateView {
    if key_in(cache, p) {
        CoordinateView::Label(label_of(cache, p))
    } else if key_in(anchors, p) {
        CoordinateView::Label(label_of(anchors, p))
    } else {
        CoordinateView::Position(p)
    }
}

/// The direction from `a` to `b` is exactly horizontal or vertical (or
/// there is none: the two are the same point).
pub open spec fn axis_aligned(a: Position, b: Position) -> bool {
    a.x == b.x || a.y == b.y
}

/// A known point `k` can name `t` through `previous`: the way from
/// `previous` to `k` is slanted, and `t` shares a column or a row with `k`.
pub open spec fn useful_candidate(t: Position, previous: Position, k: Position) -> bool {
    !axis_aligned(previous, k) && (t.x == k.x || t.y == k.y)
}

/// `i` is the first of `cands` that can name `t`.
pub open spec fn is_first_candidate(
    t: Position,
    previous: Position,
    cands: Seq<(Position, Seq<char>)>,
    i: int,
) -> bool {
    &&& 0 <= i < cands.len()
    &&& useful_candidate(t, previous, cands[i].0)
    &&& forall|j: int| 0 <= j < i ==> !useful_candidate(t, previous, #[trigger] cands[j].0)
}

/// The candidate that the intersection fallback takes, searching the
/// terminal labels first and then the anchors.
pub open spec fn fallback_choice(
    t: Position,
    previous: Position,
    cache: Seq<(Position, Seq<char>)>,
    anchors: Seq<(Position, Seq<char>)>,
) -> Option<int> {
    if exists|i: int| is_first_candidate(t, previous, cache + anchors, i) {
        Some(choose|i: int| is_first_candidate(t, previous, cache + anchors, i))
    } else {
        None
    }
}

/// The reference the resolver gives for `target`, when `previous` is the
/// point the line comes from: a reference is kept as it is; a position
/// takes its terminal label, else its anchor, else the first known point
/// that names it by an intersection with `previous`, else stays a position.
pub open spec fn resolve(
    target: CoordinateView,
    previous: Option<CoordinateView>,
    cache: Seq<(Position, Seq<char>)>,
    anchors: Seq<(Position, Seq<char>)>,
) -> CoordinateView {
    match target {
        CoordinateView::Label(_) => target,
        CoordinateView::Position(t) => {
            if key_in(cache, t) || key_in(anchors, t) {
                resolve_known(t, cache, anchors)
            } else {
                match previous {
                    Some(CoordinateView::Position(p)) => match fallback_choice(t, p, cache, anchors) {
                        Some(i) => {
                            let k = (cache + anchors)[i];
                            CoordinateView::Label(
                                intersect_text(
                                    resolve_known(p, cache, anchors),
                                    CoordinateView::Label(k.1),
                                    t.x != k.0.x,
                                ),
                            )
                        },
                        None => target,
                    },
                    _ => target,
                }
            }
        },
    }
}

/// The intersection fallback never takes a known point that lies straight
/// across or straight up from the previous point.
pub proof fn lemma_fallback_skips_axis_aligned(
    t: Position,
    previous: Position,
    cache: Seq<(Position, Seq<char>)>,
    anchors: Seq<(Position, Seq<char>)>,
    i: int,
)
    requires
        0 <= i < cache.len() + anchors.len(),
        axis_aligned(previous, (cache + anchors)[i].0),
    ensures
        fallback_choice(t, previous, cache, anchors) != Some(i),
{
}

/// The first entry of `labels` that can name `t` through `previous`.
fn first_useful(t: Position, previous: Position, labels: &PositionLabels) -> (r: Option<usize>)
    ensures
        match r {
            Some(i) => i < labels@.len() && useful_candidate(t, previous, labels@[i as int].0)
                && forall|j: int|
                0 <= j < i ==> !useful_candidate(t, previous, #[trigger] labels@[j].0),
            None => forall|j: int|
                0 <= j < labels@.len() ==> !useful_candidate(t, previous, #[trigger] labels@[j].0),
        },
{
    let n = labels.len();
    for k in 0..n
        invariant
            n == labels@.len(),
            forall|j: int| 0 <= j < k ==> !useful_candidate(t, previous, #[trigger] labels@[j].0),
    {
        let (kp, _) = labels.entry(k);
        if !(previous.x == kp.x || previous.y == kp.y) && (t.x == kp.x || t.y == kp.y) {
            return Some(k);
        }
    }
    None
}

/// The best reference to print for `coordinate` (see `resolve`), using
/// the terminal labels `child_labels` and the anchors `coord_labels`
/// declared so far. A reference that is already a label comes back as it
/// is.
pub fn find_coord(
    coordinate: Coordinate,
    last_position: Option<Coordinate>,
    child_labels: &PositionLabels,
    coord_labels: &PositionLabels,
) -> (r: Coordinate)
    requires
        child_labels.wf(),
        coord_labels.wf(),
    ensures
        r@ == resolve(coordinate@, opt_view(last_position), child_labels@, coord_labels@),
        coordinate@ is Label ==> r@ == coordinate@,
    decreases
            if last_position is Some {
                1nat
            } else {
                0nat
            },
{
    let t = match &coordinate {
        Coordinate::Label(_) => {
            return coordinate;
        },
        Coordinate::Position(p) => *p,
    };
    let ghost cache = child_labels@;
    let ghost anchors = coord_labels@;
    if let Some(i) = child_labels.lookup(&t) {
        assert(key_in(cache, t));
        assert(cache[key_index(cache, t)].0 == t);
        let (_, l) = child_labels.entry(i);
        return Coordinate::Label(l.clone());
    }
    if let Some(i) = coord_labels.lookup(&t) {
        assert(key_in(anchors, t));
        assert(anchors[key_index(anchors, t)].0 == t);
        let (_, l) = coord_labels.entry(i);
        return Coordinate::Label(l.clone());
    }
    let p = match &last_position {
        Some(Coordinate::Position(p)) => *p,
        _ => {
            return coordinate;
        },
    };
    let ghost cands = cache + anchors;
    proof {
        assert forall|j: int| 0 <= j < cache.len() implies cands[j] == cache[j] by {}
        assert forall|j: int| cache.len() <= j < cands.len() implies cands[j] == anchors[j
            - cache.len()] by {}
    }
    let ghost mut k: int = 0;
    let found = match first_useful(t, p, child_labels) {
        Some(i) => {
            proof {
                k = i as int;
            }
            Some(child_labels.entry(i))
        },
        None => match first_useful(t, p, coord_labels) {
            Some(i) => {
                proof {
                    k = cache.len() + i;
                    assert forall|j: int| 0 <= j < k implies !useful_candidate(
                        t,
                        p,
                        #[trigger] cands[j].0,
                    ) by {
                        if j >= cache.len() {
                            assert(cands[j] == anchors[j - cache.len()]);
                        } else {
                            assert(cands[j] == cache[j]);
                        }
                    }
                }
                Some(coord_labels.entry(i))
            },
            None => None,
        },
    };
    if let Some((kp, kl)) = found {
        proof {
            assert(is_first_candidate(t, p, cands, k));
            let c = choose|c: int| is_first_candidate(t, p, cands, c);
            assert(is_first_candidate(t, p, cands, c));
            if c < k {
                assert(!useful_candidate(t, p, cands[c].0));
            }
            if c > k {
                assert(!useful_candidate(t, p, cands[k].0));
            }
            assert(c == k);
        }
        let last = find_coord(Coordinate::Position(p), None, child_labels, coord_labels);
        let other = Coordinate::Label(kl.clone());
        return last.intersect(&other, t.x != kp.x);
    }
    proof {
        if exists|i: int| is_first_candidate(t, p, cands, i) {
            let c = choose|i: int| is_first_candidate(t, p, cands, i);
            if c < cache.len() {
                assert(cands[c] == cache[c]);
            } else {
                assert(cands[c] == anchors[c - cache.len()]);
            }
            assert(!useful_candidate(t, p, cands[c].0));
        }
    }
    coordinate
}

} // verus!
