//! Edges and cells of the mesh, and the rule by which a contour line passes
//! from edge to edge through a cell.
//!
//! The mesh is the grid with a frame round it: one more vertex on every
//! side. Vertex `(c, r)` of the mesh is vertex `(c - 1, r - 1)` of the grid;
//! the vertices with `c == 0`, `r == 0`, `c == width + 1` or
//! `r == height + 1` are the frame. The frame lies outside every contour, so
//! a contour that reaches the rim of the grid turns there and runs on along
//! the rim, and every contour line closes.

use vstd::prelude::*;
use crate::grid::{Grid, GridView};

verus! {

/// An edge of the mesh: the unit segment from the mesh vertex
/// `(column, row)`, its near end, to the next vertex to the right (a
/// horizontal edge) or below (a vertical edge), its far end.
#[derive(Clone, Copy, Debug, PartialEq, Eq, Hash, Structural)]
pub struct Edge {
    pub column: usize,
    pub row: usize,
    pub horizontal: bool,
}

/// A point of a contour line: the place where the line crosses one mesh edge,
/// `num / den` of the way from the edge's near end to its far end. On an
/// edge that runs to the frame the point is the end on the grid: there the
/// line passes a vertex of the rim.
#[derive(Clone, Copy, Debug, PartialEq, Eq, Hash, Structural)]
pub struct ContourPoint {
    pub edge: Edge,
    pub num: u64,
    pub den: u64,
}

impl Edge {
    /// The column of the far end.
    pub open spec fn far_column(self) -> int {
        if self.horizontal {
            self.column + 1
        } else {
            self.column as int
        }
    }

    /// The row of the far end.
    pub open spec fn far_row(self) -> int {
        if self.horizontal {
            self.row as int
        } else {
            self.row + 1
        }
    }
}

impl ContourPoint {
    /// The point has a fraction between 0 and 1.
    pub open spec fn wf(self) -> bool {
        0 <= self.num <= self.den && self.den >= 1
    }

    /// The point's column in the mesh, times `den`.
    pub open spec fn column_times_den(self) -> int {
        self.edge.column * self.den + if self.edge.horizontal {
            self.num as int
        } else {
            0
        }
    }

    /// The point's row in the mesh, times `den`.
    pub open spec fn row_times_den(self) -> int {
        self.edge.row * self.den + if self.edge.horizontal {
            0
        } else {
            self.num as int
        }
    }

    /// The point lies on a grid of the given size: between its first and
    /// last column and between its first and last row.
    pub open spec fn within(self, grid_width: int, grid_height: int) -> bool {
        &&& self.wf()
        &&& self.den <= self.column_times_den() <= grid_width * self.den
        &&& self.den <= self.row_times_den() <= grid_height * self.den
    }
}

/// The horizontal edge whose near end is `(column, row)`.
pub open spec fn across(column: int, row: int) -> Edge {
    Edge { column: column as usize, row: row as usize, horizontal: true }
}

/// The vertical edge whose near end is `(column, row)`.
pub open spec fn down(column: int, row: int) -> Edge {
    Edge { column: column as usize, row: row as usize, horizontal: false }
}

/// Whether mesh vertex `(column, row)` is a vertex of the grid, not of the
/// frame.
pub open spec fn on_grid(g: GridView, column: int, row: int) -> bool {
    1 <= column <= g.width && 1 <= row <= g.height
}

/// Whether mesh vertex `(column, row)` is inside the contour at threshold
/// `t`: it is a vertex of the grid and its sample is at least `t`.
pub open spec fn reaches(g: GridView, t: int, column: int, row: int) -> bool {
    on_grid(g, column, row) && g.sample(column - 1, row - 1) >= t
}

/// Whether the grid has a cell: it is at least two vertices wide and high.
pub open spec fn has_cells(g: GridView) -> bool {
    g.width >= 2 && g.height >= 2
}

/// Whether `e` is an edge of the mesh. A grid without a cell has no contour,
/// and its mesh is taken to have no edge.
pub open spec fn on_mesh(g: GridView, e: Edge) -> bool {
    &&& has_cells(g)
    &&& e.far_column() <= g.width + 1
    &&& e.far_row() <= g.height + 1
}

/// Whether `e` is an edge of the grid: both its ends are grid vertices.
pub open spec fn on_grid_edge(g: GridView, e: Edge) -> bool {
    &&& has_cells(g)
    &&& on_grid(g, e.column as int, e.row as int)
    &&& on_grid(g, e.far_column(), e.far_row())
}

/// The position of an edge in scan order: by row, then by column, the
/// horizontal edge of a vertex before its vertical one.
pub open spec fn rank(g: GridView, e: Edge) -> int {
    2 * (e.row * (g.width + 2) + e.column) + if e.horizontal {
        0int
    } else {
        1int
    }
}

/// The number of vertices of the mesh.
pub open spec fn mesh_size(g: GridView) -> int {
    (g.width as int + 2) * (g.height as int + 2)
}

/// Whether the near end of the edge is inside.
pub open spec fn near_inside(g: GridView, t: int, e: Edge) -> bool {
    reaches(g, t, e.column as int, e.row as int)
}

/// Whether the far end of the edge is inside.
pub open spec fn far_inside(g: GridView, t: int, e: Edge) -> bool {
    reaches(g, t, e.far_column(), e.far_row())
}

/// The contour at threshold `t` crosses exactly the mesh edges with one end
/// inside and the other outside.
pub open spec fn is_crossed(g: GridView, t: int, e: Edge) -> bool {
    on_mesh(g, e) && near_inside(g, t, e) != far_inside(g, t, e)
}

/// The contour at threshold `t` cuts the grid at the crossed edges of the
/// grid: there the field passes the threshold between two samples.
pub open spec fn is_cut(g: GridView, t: int, e: Edge) -> bool {
    is_crossed(g, t, e) && on_grid_edge(g, e)
}

/// A contour line runs with the inside on its left (in a picture with row 0
/// on top). It enters a cell through a crossed edge whose end that comes
/// first, walking round the cell clockwise, is outside. This says whether
/// the mesh has such a cell for `e`; for every crossed edge it has (see
/// `lemma_crossed_passes`).
pub open spec fn enters(g: GridView, t: int, e: Edge) -> bool {
    is_crossed(g, t, e) && if e.horizontal {
        if far_inside(g, t, e) {
            e.row + 1 <= g.height + 1
        } else {
            e.row >= 1
        }
    } else {
        if far_inside(g, t, e) {
            e.column >= 1
        } else {
            e.column + 1 <= g.width + 1
        }
    }
}

/// Whether the line that crosses `e` comes out of a cell there: the cell on
/// the other side of `e` from the one it enters.
pub open spec fn leaves(g: GridView, t: int, e: Edge) -> bool {
    is_crossed(g, t, e) && if e.horizontal {
        if far_inside(g, t, e) {
            e.row >= 1
        } else {
            e.row + 1 <= g.height + 1
        }
    } else {
        if far_inside(g, t, e) {
            e.column + 1 <= g.width + 1
        } else {
            e.column >= 1
        }
    }
}

/// The edge through which the line that enters a cell at `e` leaves that
/// cell: walking round the cell clockwise from `e`, the first edge that runs
/// from an inside corner to an outside one. This is the table of the sixteen
/// corner configurations of a cell, read from an entry edge. In the two
/// saddle configurations (both diagonals straddle the threshold) each line
/// turns round a single inside corner, so the two inside corners are always
/// kept apart.
#[verifier::opaque]
pub open spec fn successor(g: GridView, t: int, e: Edge) -> Option<Edge> {
    let c = e.column as int;
    let r = e.row as int;
    if !enters(g, t, e) {
        None
    } else if e.horizontal {
        if far_inside(g, t, e) {
            // top edge of cell (c, r)
            if !reaches(g, t, c + 1, r + 1) {
                Some(down(c + 1, r))
            } else if !reaches(g, t, c, r + 1) {
                Some(across(c, r + 1))
            } else {
                Some(down(c, r))
            }
        } else {
            // bottom edge of cell (c, r - 1)
            if !reaches(g, t, c, r - 1) {
                Some(down(c, r - 1))
            } else if !reaches(g, t, c + 1, r - 1) {
                Some(across(c, r - 1))
            } else {
                Some(down(c + 1, r - 1))
            }
        }
    } else {
        if far_inside(g, t, e) {
            // right edge of cell (c - 1, r)
            if !reaches(g, t, c - 1, r + 1) {
                Some(across(c - 1, r + 1))
            } else if !reaches(g, t, c - 1, r) {
                Some(down(c - 1, r))
            } else {
                Some(across(c - 1, r))
            }
        } else {
            // left edge of cell (c, r)
            if !reaches(g, t, c + 1, r) {
                Some(across(c, r))
            } else if !reaches(g, t, c + 1, r + 1) {
                Some(down(c + 1, r))
            } else {
                Some(across(c, r + 1))
            }
        }
    }
}

/// The edge through which the line that leaves a cell at `e` entered that
/// cell: walking round the cell counter-clockwise from `e`, the first edge
/// whose clockwise direction runs from an outside corner to an inside one.
#[verifier::opaque]
pub open spec fn predecessor(g: GridView, t: int, e: Edge) -> Option<Edge> {
    let c = e.column as int;
    let r = e.row as int;
    if !leaves(g, t, e) {
        None
    } else if e.horizontal {
        if far_inside(g, t, e) {
            // bottom edge of cell (c, r - 1)
            if !reaches(g, t, c + 1, r - 1) {
                Some(down(c + 1, r - 1))
            } else if !reaches(g, t, c, r - 1) {
                Some(across(c, r - 1))
            } else {
                Some(down(c, r - 1))
            }
        } else {
            // top edge of cell (c, r)
            if !reaches(g, t, c, r + 1) {
                Some(down(c, r))
            } else if !reaches(g, t, c + 1, r + 1) {
                Some(across(c, r + 1))
            } else {
                Some(down(c + 1, r))
            }
        }
    } else {
        if far_inside(g, t, e) {
            // left edge of cell (c, r)
            if !reaches(g, t, c + 1, r + 1) {
                Some(across(c, r + 1))
            } else if !reaches(g, t, c + 1, r) {
                Some(down(c + 1, r))
            } else {
                Some(across(c, r))
            }
        } else {
            // right edge of cell (c - 1, r)
            if !reaches(g, t, c - 1, r) {
                Some(across(c - 1, r))
            } else if !reaches(g, t, c - 1, r + 1) {
                Some(down(c - 1, r))
            } else {
                Some(across(c - 1, r + 1))
            }
        }
    }
}

/// The point at which the contour at threshold `t` crosses `e`: on an edge
/// of the grid by linear interpolation between the samples at the two ends,
/// on an edge that runs to the frame the end on the grid.
#[verifier::opaque]
pub open spec fn crossing(g: GridView, t: int, e: Edge) -> ContourPoint {
    if !on_grid(g, e.column as int, e.row as int) {
        ContourPoint { edge: e, num: 1, den: 1 }
    } else if !on_grid(g, e.far_column(), e.far_row()) {
        ContourPoint { edge: e, num: 0, den: 1 }
    } else {
        let near = g.sample(e.column - 1, e.row - 1);
        let far = g.sample(e.far_column() - 1, e.far_row() - 1);
        if near >= t {
            ContourPoint { edge: e, num: (near - t) as u64, den: (near - far) as u64 }
        } else {
            ContourPoint { edge: e, num: (t - near) as u64, den: (far - near) as u64 }
        }
    }
}

/// The mesh of a grid with a cell has coordinates that fit the machine.
pub proof fn lemma_mesh_fits(g: GridView)
    requires
        g.wf(),
        has_cells(g),
    ensures
        g.width + 2 <= usize::MAX,
        g.height + 2 <= usize::MAX,
{
    assert(2 * g.width <= g.width * g.height && 2 * g.height <= g.width * g.height)
        by (nonlinear_arith)
        requires
            g.width >= 2,
            g.height >= 2,
    ;
}

/// A crossing point lies on its edge and on the grid: its fraction is
/// between 0 and 1. It is 0 only if the near end is inside, and 1 only if
/// the far end is.
pub proof fn lemma_crossing_fraction(g: GridView, t: i64, e: Edge)
    requires
        is_crossed(g, t as int, e),
    ensures
        crossing(g, t as int, e).edge == e,
        crossing(g, t as int, e).within(g.width as int, g.height as int),
        0 <= crossing(g, t as int, e).num <= crossing(g, t as int, e).den,
        crossing(g, t as int, e).den >= 1,
        far_inside(g, t as int, e) ==> crossing(g, t as int, e).num > 0,
        near_inside(g, t as int, e) ==> crossing(g, t as int, e).num < crossing(g, t as int, e).den,
{
    reveal(crossing);
    let p = crossing(g, t as int, e);
    let den = p.den as int;
    let (c, r) = (e.column as int, e.row as int);
    let (w, h) = (g.width as int, g.height as int);
    assert(1 * den == den && (c + 1) * den == c * den + den && (r + 1) * den == r * den + den)
        by (nonlinear_arith);
    assert(0 * den == 0) by (nonlinear_arith);
    if 1 <= c {
        assert(1 * den <= c * den) by (nonlinear_arith)
            requires
                1 <= c,
                1 <= den,
        ;
    }
    if 1 <= r {
        assert(1 * den <= r * den) by (nonlinear_arith)
            requires
                1 <= r,
                1 <= den,
        ;
    }
    if c <= w {
        assert(c * den <= w * den) by (nonlinear_arith)
            requires
                c <= w,
                1 <= den,
        ;
    }
    if c + 1 <= w {
        assert((c + 1) * den <= w * den) by (nonlinear_arith)
            requires
                c + 1 <= w,
                1 <= den,
        ;
    }
    if r <= h {
        assert(r * den <= h * den) by (nonlinear_arith)
            requires
                r <= h,
                1 <= den,
        ;
    }
    if r + 1 <= h {
        assert((r + 1) * den <= h * den) by (nonlinear_arith)
            requires
                r + 1 <= h,
                1 <= den,
        ;
    }
}

/// Where the contour cuts the grid, its point lies where the straight line
/// between the samples at the two ends of the edge takes the value of the
/// threshold.
pub proof fn lemma_crossing_interpolates(g: GridView, t: i64, e: Edge)
    requires
        is_cut(g, t as int, e),
    ensures
        ({
            let p = crossing(g, t as int, e);
            let near = g.sample(e.column - 1, e.row - 1);
            let far = g.sample(e.far_column() - 1, e.far_row() - 1);
            near * p.den + (far - near) * p.num == t * p.den
        }),
{
    reveal(crossing);
    let p = crossing(g, t as int, e);
    let near = g.sample(e.column - 1, e.row - 1);
    let far = g.sample(e.far_column() - 1, e.far_row() - 1);
    let (num, den) = (p.num as int, p.den as int);
    if near >= t {
        assert(near * den + (far - near) * num == t * den) by (nonlinear_arith)
            requires
                num == near - t,
                den == near - far,
        ;
    } else {
        assert(near * den + (far - near) * num == t * den) by (nonlinear_arith)
            requires
                num == t - near,
                den == far - near,
        ;
    }
}

/// The cell that the line enters at `e`, by the column and the row of its
/// upper left corner.
pub open spec fn entered_cell(g: GridView, t: int, e: Edge) -> (int, int) {
    if e.horizontal {
        if far_inside(g, t, e) {
            (e.column as int, e.row as int)
        } else {
            (e.column as int, e.row - 1)
        }
    } else {
        if far_inside(g, t, e) {
            (e.column - 1, e.row as int)
        } else {
            (e.column as int, e.row as int)
        }
    }
}

/// Whether `e` is one of the four edges of `cell`.
pub open spec fn bounds_cell(e: Edge, cell: (int, int)) -> bool {
    if e.horizontal {
        e.column == cell.0 && (e.row == cell.1 || e.row == cell.1 + 1)
    } else {
        e.row == cell.1 && (e.column == cell.0 || e.column == cell.0 + 1)
    }
}

/// Each step of a contour line stays in one cell of the mesh: the edge it
/// enters by and the edge it leaves by both bound the entered cell.
pub proof fn lemma_step_in_cell(g: GridView, t: int, e: Edge)
    requires
        g.wf(),
        enters(g, t, e),
    ensures
        successor(g, t, e) is Some,
        0 <= entered_cell(g, t, e).0 <= g.width,
        0 <= entered_cell(g, t, e).1 <= g.height,
        bounds_cell(e, entered_cell(g, t, e)),
        bounds_cell(successor(g, t, e)->0, entered_cell(g, t, e)),
{
    lemma_mesh_fits(g);
    reveal(successor);
}

/// Where `p` stands against the diagonal of `cell` that joins its upper
/// right and lower left corners: negative on the side of the upper left
/// corner, positive on the side of the lower right one, in units of
/// `1 / p.den`.
pub open spec fn falling_diagonal_side(p: ContourPoint, cell: (int, int)) -> int {
    (p.column_times_den() - cell.0 * p.den) + (p.row_times_den() - cell.1 * p.den) - p.den
}

/// Where `p` stands against the diagonal of `cell` that joins its upper
/// left and lower right corners: positive on the side of the upper right
/// corner, negative on the side of the lower left one, in units of
/// `1 / p.den`.
pub open spec fn rising_diagonal_side(p: ContourPoint, cell: (int, int)) -> int {
    (p.column_times_den() - cell.0 * p.den) - (p.row_times_den() - cell.1 * p.den)
}

/// Whether the two points lie strictly on different sides of a diagonal of
/// the cell, the first pair on one side and the second pair on the other.
pub open spec fn diagonal_between(
    a: (ContourPoint, ContourPoint),
    b: (ContourPoint, ContourPoint),
    cell: (int, int),
) -> bool {
    ||| {
        &&& falling_diagonal_side(a.0, cell) < 0
        &&& falling_diagonal_side(a.1, cell) < 0
        &&& falling_diagonal_side(b.0, cell) > 0
        &&& falling_diagonal_side(b.1, cell) > 0
    }
    ||| {
        &&& rising_diagonal_side(a.0, cell) > 0
        &&& rising_diagonal_side(a.1, cell) > 0
        &&& rising_diagonal_side(b.0, cell) < 0
        &&& rising_diagonal_side(b.1, cell) < 0
    }
}

/// The place of a point on an edge of `cell`, measured from the cell's upper
/// left corner in units of `1 / p.den`.
proof fn lemma_place_in_cell(p: ContourPoint, cell: (int, int))
    requires
        bounds_cell(p.edge, cell),
    ensures
        p.column_times_den() - cell.0 * p.den == if p.edge.horizontal {
            p.num as int
        } else if p.edge.column == cell.0 {
            0
        } else {
            p.den as int
        },
        p.row_times_den() - cell.1 * p.den == if !p.edge.horizontal {
            p.num as int
        } else if p.edge.row == cell.1 {
            0
        } else {
            p.den as int
        },
{
    let den = p.den as int;
    assert((cell.0 + 1) * den == cell.0 * den + den) by (nonlinear_arith);
    assert((cell.1 + 1) * den == cell.1 * den + den) by (nonlinear_arith);
}

/// The saddle rule: where two lines pass through the same cell, each turns
/// round one inside corner, and a diagonal of the cell lies strictly between
/// the two steps, so that they do not meet.
pub proof fn lemma_saddle_split(g: GridView, t: i64, a: Edge, b: Edge)
    requires
        g.wf(),
        enters(g, t as int, a),
        enters(g, t as int, b),
        a != b,
        entered_cell(g, t as int, a) == entered_cell(g, t as int, b),
    ensures
        ({
            let cell = entered_cell(g, t as int, a);
            let step_a = (
                crossing(g, t as int, a),
                crossing(g, t as int, successor(g, t as int, a)->0),
            );
            let step_b = (
                crossing(g, t as int, b),
                crossing(g, t as int, successor(g, t as int, b)->0),
            );
            diagonal_between(step_a, step_b, cell) || diagonal_between(step_b, step_a, cell)
        }),
{
    let cell = entered_cell(g, t as int, a);
    let next_a = successor(g, t as int, a)->0;
    let next_b = successor(g, t as int, b)->0;
    lemma_step_in_cell(g, t as int, a);
    lemma_step_in_cell(g, t as int, b);
    lemma_successor(g, t as int, a);
    lemma_successor(g, t as int, b);
    lemma_crossing_fraction(g, t, a);
    lemma_crossing_fraction(g, t, b);
    lemma_crossing_fraction(g, t, next_a);
    lemma_crossing_fraction(g, t, next_b);
    lemma_place_in_cell(crossing(g, t as int, a), cell);
    lemma_place_in_cell(crossing(g, t as int, b), cell);
    lemma_place_in_cell(crossing(g, t as int, next_a), cell);
    lemma_place_in_cell(crossing(g, t as int, next_b), cell);
    reveal(successor);
}

/// A line that enters a cell leaves it through another crossed edge, and
/// from there the way back is the way it came.
pub proof fn lemma_successor(g: GridView, t: int, e: Edge)
    requires
        g.wf(),
        enters(g, t, e),
    ensures
        successor(g, t, e) is Some,
        leaves(g, t, successor(g, t, e)->0),
        predecessor(g, t, successor(g, t, e)->0) == Some(e),
        successor(g, t, e)->0 != e,
{
    lemma_mesh_fits(g);
    reveal(successor);
    reveal(predecessor);
}

/// The line goes on from `e` exactly when it enters a cell there.
pub proof fn lemma_successor_exists(g: GridView, t: int, e: Edge)
    ensures
        successor(g, t, e) is Some <==> enters(g, t, e),
        predecessor(g, t, e) is Some <==> leaves(g, t, e),
{
    reveal(successor);
    reveal(predecessor);
}

/// A crossed edge has one end on the grid, so the mesh has a cell on either
/// side of it: the line comes out of one and enters the other, and goes on.
pub proof fn lemma_crossed_passes(g: GridView, t: int, e: Edge)
    requires
        is_crossed(g, t, e),
    ensures
        enters(g, t, e),
        leaves(g, t, e),
        successor(g, t, e) is Some,
{
    lemma_successor_exists(g, t, e);
}

/// Ranks of mesh edges lie below twice the number of mesh vertices.
pub proof fn lemma_rank_bound(g: GridView, e: Edge)
    requires
        on_mesh(g, e),
    ensures
        0 <= rank(g, e) < 2 * mesh_size(g),
{
    let (w, h) = (g.width + 2, g.height + 2);
    let (c, r) = (e.column as int, e.row as int);
    assert(0 <= r * w && r * w + w <= w * h) by (nonlinear_arith)
        requires
            0 <= r < h,
            0 < w,
    ;
}

/// Distinct edges that start within the mesh's columns have distinct ranks.
pub proof fn lemma_rank_injective(g: GridView, a: Edge, b: Edge)
    requires
        a.column < g.width + 2,
        b.column < g.width + 2,
        rank(g, a) == rank(g, b),
    ensures
        a == b,
{
    let w = g.width + 2;
    let (ra, ca) = (a.row as int, a.column as int);
    let (rb, cb) = (b.row as int, b.column as int);
    assert(a.horizontal == b.horizontal);
    assert(ra * w + ca == rb * w + cb);
    assert(ra == rb) by (nonlinear_arith)
        requires
            ra * w + ca == rb * w + cb,
            0 <= ca < w,
            0 <= cb < w,
    ;
    assert(ra * w == rb * w);
}

/// Whether mesh vertex `(column, row)` is inside the contour at `threshold`.
fn reaches_at(grid: &Grid, threshold: i64, column: usize, row: usize) -> (inside: bool)
    requires
        grid.wf(),
    ensures
        inside == reaches(grid@, threshold as int, column as int, row as int),
{
    if column == 0 || row == 0 || column > grid.width() || row > grid.height() {
        false
    } else {
        grid.sample(column - 1, row - 1) >= threshold
    }
}

/// Whether `e` is an edge of the mesh.
fn edge_on_mesh(grid: &Grid, e: Edge) -> (on: bool)
    requires
        grid.wf(),
    ensures
        on == on_mesh(grid@, e),
{
    let width = grid.width();
    let height = grid.height();
    if width < 2 || height < 2 {
        return false;
    }
    proof {
        lemma_mesh_fits(grid@);
    }
    if e.horizontal {
        e.column <= width && e.row <= height + 1
    } else {
        e.column <= width + 1 && e.row <= height
    }
}

/// Whether the contour at `threshold` crosses `e`.
pub fn edge_is_crossed(grid: &Grid, threshold: i64, e: Edge) -> (crossed: bool)
    requires
        grid.wf(),
    ensures
        crossed == is_crossed(grid@, threshold as int, e),
{
    if !edge_on_mesh(grid, e) {
        return false;
    }
    proof {
        lemma_mesh_fits(grid@);
    }
    let near = reaches_at(grid, threshold, e.column, e.row);
    let far = if e.horizontal {
        reaches_at(grid, threshold, e.column + 1, e.row)
    } else {
        reaches_at(grid, threshold, e.column, e.row + 1)
    };
    near != far
}

/// Whether the contour at `threshold` cuts the grid at `e`.
pub fn edge_is_cut(grid: &Grid, threshold: i64, e: Edge) -> (cut: bool)
    requires
        grid.wf(),
    ensures
        cut == is_cut(grid@, threshold as int, e),
{
    if !edge_is_crossed(grid, threshold, e) {
        return false;
    }
    let width = grid.width();
    let height = grid.height();
    if e.horizontal {
        e.column >= 1 && e.column < width && e.row >= 1 && e.row <= height
    } else {
        e.column >= 1 && e.column <= width && e.row >= 1 && e.row < height
    }
}

/// The point at which the contour at `threshold` crosses `e`.
pub fn point_on(grid: &Grid, threshold: i64, e: Edge) -> (p: ContourPoint)
    requires
        grid.wf(),
        is_crossed(grid@, threshold as int, e),
    ensures
        p == crossing(grid@, threshold as int, e),
{
    reveal(crossing);
    proof {
        lemma_mesh_fits(grid@);
    }
    let width = grid.width();
    let height = grid.height();
    let (far_column, far_row) = if e.horizontal {
        (e.column + 1, e.row)
    } else {
        (e.column, e.row + 1)
    };
    if e.column == 0 || e.row == 0 {
        return ContourPoint { edge: e, num: 1, den: 1 };
    }
    if far_column > width || far_row > height {
        return ContourPoint { edge: e, num: 0, den: 1 };
    }
    let near = grid.sample(e.column - 1, e.row - 1);
    let far = grid.sample(far_column - 1, far_row - 1);
    if near >= threshold {
        ContourPoint {
            edge: e,
            num: (near as i128 - threshold as i128) as u64,
            den: (near as i128 - far as i128) as u64,
        }
    } else {
        ContourPoint {
            edge: e,
            num: (threshold as i128 - near as i128) as u64,
            den: (far as i128 - near as i128) as u64,
        }
    }
}

/// The edge that follows `e` on its contour line.
pub fn next_edge(grid: &Grid, threshold: i64, e: Edge) -> (next: Edge)
    requires
        grid.wf(),
        is_crossed(grid@, threshold as int, e),
    ensures
        successor(grid@, threshold as int, e) == Some(next),
{
    reveal(successor);
    proof {
        lemma_mesh_fits(grid@);
    }
    let c = e.column;
    let r = e.row;
    if e.horizontal {
        if reaches_at(grid, threshold, c + 1, r) {
            if !reaches_at(grid, threshold, c + 1, r + 1) {
                Edge { column: c + 1, row: r, horizontal: false }
            } else if !reaches_at(grid, threshold, c, r + 1) {
                Edge { column: c, row: r + 1, horizontal: true }
            } else {
                Edge { column: c, row: r, horizontal: false }
            }
        } else {
            if !reaches_at(grid, threshold, c, r - 1) {
                Edge { column: c, row: r - 1, horizontal: false }
            } else if !reaches_at(grid, threshold, c + 1, r - 1) {
                Edge { column: c, row: r - 1, horizontal: true }
            } else {
                Edge { column: c + 1, row: r - 1, horizontal: false }
            }
        }
    } else {
        if reaches_at(grid, threshold, c, r + 1) {
            if !reaches_at(grid, threshold, c - 1, r + 1) {
                Edge { column: c - 1, row: r + 1, horizontal: true }
            } else if !reaches_at(grid, threshold, c - 1, r) {
                Edge { column: c - 1, row: r, horizontal: false }
            } else {
                Edge { column: c - 1, row: r, horizontal: true }
            }
        } else {
            if !reaches_at(grid, threshold, c + 1, r) {
                Edge { column: c, row: r, horizontal: true }
            } else if !reaches_at(grid, threshold, c + 1, r + 1) {
                Edge { column: c + 1, row: r, horizontal: false }
            } else {
                Edge { column: c, row: r + 1, horizontal: true }
            }
        }
    }
}

} // verus!
