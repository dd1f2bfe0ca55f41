//! The contour of a grid at one threshold, as a set of rings, and what holds
//! of every such set.

use vstd::prelude::*;
use crate::grid::GridView;
use crate::lines::{distinct_edges, follows, is_closed, is_closed_ring, is_round};
use crate::mesh::{is_cut, lemma_crossing_fraction, rank, ContourPoint, Edge};

verus! {

/// One connected piece of a contour: its points in the order in which the
/// line runs through them, ending with the first point repeated. Where the
/// contour reaches the rim of the grid, the ring runs on along the rim,
/// through the rim's vertices, to where the contour comes in again.
#[derive(Debug)]
pub struct ContourRing {
    pub points: Vec<ContourPoint>,
}

impl View for ContourRing {
    type V = Seq<ContourPoint>;

    open spec fn view(&self) -> Seq<ContourPoint> {
        self.points@
    }
}

impl ContourRing {
    /// The number of points, the repeated one included.
    pub fn len(&self) -> (n: usize)
        ensures
            n == self@.len(),
    {
        self.points.len()
    }

    /// Whether the ring returns to its first point.
    pub fn closed(&self) -> (c: bool)
        ensures
            c == is_closed(self@),
    {
        let n = self.points.len();
        n >= 2 && self.points[0] == self.points[n - 1]
    }
}

/// The point sequences of a list of rings.
pub open spec fn views(rings: Seq<ContourRing>) -> Seq<Seq<ContourPoint>> {
    Seq::new(rings.len(), |k: int| rings[k]@)
}

/// Whether some line of `lines` has a point on `e`.
pub open spec fn covers(lines: Seq<Seq<ContourPoint>>, e: Edge) -> bool {
    exists|k: int, i: int|
        0 <= k < lines.len() && 0 <= i < lines[k].len() && (#[trigger] lines[k][i]).edge == e
}

/// No edge carries points of two different lines.
pub open spec fn apart(lines: Seq<Seq<ContourPoint>>) -> bool {
    forall|j: int, a: int, k: int, b: int|
        0 <= j < k < lines.len() && 0 <= a < lines[j].len() && 0 <= b < lines[k].len() ==> (
        #[trigger] lines[j][a]).edge != (#[trigger] lines[k][b]).edge
}

/// The contour of a grid at threshold `t`, as a list of rings:
/// - each is a closed ring of the contour that cuts the grid somewhere;
/// - they stand in the order of the ranks of the edges of their first
///   points;
/// - no edge carries two rings, and every edge at which the contour cuts
///   the grid carries one.
///
/// At most one list meets this: see `lemma_contour_set_unique`.
#[verifier::opaque]
pub open spec fn is_contour_set(g: GridView, t: int, lines: Seq<Seq<ContourPoint>>) -> bool {
    &&& forall|k: int| 0 <= k < lines.len() ==> is_closed_ring(g, t, #[trigger] lines[k])
    &&& forall|j: int, k: int|
        0 <= j < k < lines.len() ==> rank(g, (#[trigger] lines[j])[0].edge) < rank(
            g,
            (#[trigger] lines[k])[0].edge,
        )
    &&& apart(lines)
    &&& forall|e: Edge| #[trigger] is_cut(g, t, e) ==> covers(lines, e)
}

/// The contour of grid `g` at threshold `t`: the one list of rings that
/// `is_contour_set` admits.
pub open spec fn contour_set(g: GridView, t: int) -> Seq<Seq<ContourPoint>> {
    choose|lines: Seq<Seq<ContourPoint>>| is_contour_set(g, t, lines)
}

/// Every line of a contour set is a closed ring: it ends on the point it
/// began with, runs through each of its edges once, and begins where the
/// contour cuts the grid.
pub proof fn lemma_line_is_ring(g: GridView, t: int, lines: Seq<Seq<ContourPoint>>, k: int)
    requires
        is_contour_set(g, t, lines),
        0 <= k < lines.len(),
    ensures
        is_closed_ring(g, t, lines[k]),
        is_round(g, t, lines[k]),
        follows(g, t, lines[k]),
        is_closed(lines[k]),
        lines[k].len() >= 2,
        lines[k][0] == lines[k].last(),
        distinct_edges(lines[k], lines[k].len() - 1),
        is_cut(g, t, lines[k][0].edge),
{
    reveal(is_contour_set);
}

/// The rings of a contour set stand in the scan order of their first edges.
pub proof fn lemma_line_order(g: GridView, t: int, lines: Seq<Seq<ContourPoint>>, j: int, k: int)
    requires
        is_contour_set(g, t, lines),
        0 <= j <= k < lines.len(),
    ensures
        rank(g, lines[j][0].edge) <= rank(g, lines[k][0].edge),
        j < k ==> rank(g, lines[j][0].edge) < rank(g, lines[k][0].edge),
{
    reveal(is_contour_set);
}

/// Two different rings of a contour set share no edge.
pub proof fn lemma_lines_apart(
    g: GridView,
    t: int,
    lines: Seq<Seq<ContourPoint>>,
    j: int,
    a: int,
    k: int,
    b: int,
)
    requires
        is_contour_set(g, t, lines),
        0 <= j < lines.len(),
        0 <= k < lines.len(),
        j != k,
        0 <= a < lines[j].len(),
        0 <= b < lines[k].len(),
    ensures
        lines[j][a].edge != lines[k][b].edge,
{
    reveal(is_contour_set);
    if j < k {
        assert(lines[j][a].edge != lines[k][b].edge);
    } else {
        assert(lines[k][b].edge != lines[j][a].edge);
    }
}

/// A contour set has a point on every edge at which the contour cuts the
/// grid, and the ring through it begins no later in scan order.
pub proof fn lemma_edge_covered(g: GridView, t: int, lines: Seq<Seq<ContourPoint>>, e: Edge) -> (at:
    (int, int))
    requires
        is_contour_set(g, t, lines),
        is_cut(g, t, e),
    ensures
        0 <= at.0 < lines.len(),
        0 <= at.1 < lines[at.0].len(),
        lines[at.0][at.1].edge == e,
        rank(g, lines[at.0][0].edge) <= rank(g, e),
{
    reveal(is_contour_set);
    assert(covers(lines, e));
    let (k, i) = choose|k: int, i: int|
        0 <= k < lines.len() && 0 <= i < lines[k].len() && (#[trigger] lines[k][i]).edge == e;
    assert(is_closed_ring(g, t, lines[k]));
    assert(is_cut(g, t, lines[k][i].edge));
    (k, i)
}

/// Every point of a contour set lies on the grid.
pub proof fn lemma_points_within(
    g: GridView,
    t: i64,
    lines: Seq<Seq<ContourPoint>>,
    k: int,
    i: int,
)
    requires
        is_contour_set(g, t as int, lines),
        0 <= k < lines.len(),
        0 <= i < lines[k].len(),
    ensures
        lines[k][i].within(g.width as int, g.height as int),
{
    lemma_line_is_ring(g, t as int, lines, k);
    lemma_crossing_fraction(g, t, lines[k][i].edge);
}

} // verus!
