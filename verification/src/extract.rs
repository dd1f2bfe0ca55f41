//! Extraction of the contour set: the edges at which the contour cuts the
//! grid are looked at in scan order, and from each that no ring holds yet
//! the contour is followed once round.

use vstd::prelude::*;
use crate::contour::{apart, contour_set, covers, is_contour_set, views, ContourRing};
use crate::grid::{highest, lemma_vertex_index, lowest, Grid, GridView};
use crate::lines::{follows, is_closed_ring, is_round, trace};
use crate::mesh::{
    edge_is_cut, is_crossed, is_cut, lemma_crossed_passes, lemma_mesh_fits, lemma_rank_bound,
    lemma_rank_injective, lemma_successor, mesh_size, on_grid_edge, rank, successor, ContourPoint,
    Edge,
};
use crate::theorems::lemma_outside_range;
use crate::unique::lemma_contour_set_unique;

verus! {

/// The structure of a contour set: closed rings in scan order that share no
/// edge.
spec fn well_laid(g: GridView, t: int, lines: Seq<Seq<ContourPoint>>) -> bool {
    &&& forall|k: int| 0 <= k < lines.len() ==> is_closed_ring(g, t, #[trigger] lines[k])
    &&& forall|j: int, k: int|
        0 <= j < k < lines.len() ==> rank(g, (#[trigger] lines[j])[0].edge) < rank(
            g,
            (#[trigger] lines[k])[0].edge,
        )
    &&& apart(lines)
}

/// If a ring of a well laid set reaches `z`, it also holds the edge before
/// `z`.
proof fn lemma_covers_backward(
    g: GridView,
    t: int,
    lines: Seq<Seq<ContourPoint>>,
    y: Edge,
    z: Edge,
)
    requires
        g.wf(),
        well_laid(g, t, lines),
        covers(lines, z),
        is_crossed(g, t, y),
        successor(g, t, y) == Some(z),
    ensures
        covers(lines, y),
{
    lemma_crossed_passes(g, t, y);
    lemma_successor(g, t, y);
    let (k, i) = choose|k: int, i: int|
        0 <= k < lines.len() && 0 <= i < lines[k].len() && (#[trigger] lines[k][i]).edge == z;
    let line = lines[k];
    assert(is_closed_ring(g, t, line));
    let at: int = if i >= 1 {
        i
    } else {
        line.len() - 1
    };
    assert(line[at].edge == z);
    let before = line[at - 1].edge;
    assert(successor(g, t, before) == Some(line[at].edge));
    assert(is_crossed(g, t, line[at - 1].edge));
    lemma_crossed_passes(g, t, before);
    lemma_successor(g, t, before);
    assert(lines[k][at - 1].edge == y);
}

/// A line that follows the contour from an edge that no ring of a well laid
/// set holds shares no edge with that set.
proof fn lemma_fresh(
    g: GridView,
    t: int,
    lines: Seq<Seq<ContourPoint>>,
    line: Seq<ContourPoint>,
    j: int,
)
    requires
        g.wf(),
        well_laid(g, t, lines),
        follows(g, t, line),
        0 <= j < line.len(),
        !covers(lines, line[0].edge),
    ensures
        !covers(lines, line[j].edge),
    decreases j,
{
    if j > 0 {
        lemma_fresh(g, t, lines, line, j - 1);
        if covers(lines, line[j].edge) {
            assert(successor(g, t, line[j - 1].edge) == Some(line[j].edge));
            assert(is_crossed(g, t, line[j - 1].edge));
            lemma_covers_backward(g, t, lines, line[j - 1].edge, line[j].edge);
        }
    }
}

/// Adding a line keeps what was covered.
proof fn lemma_covers_grow(lines: Seq<Seq<ContourPoint>>, line: Seq<ContourPoint>, e: Edge)
    requires
        covers(lines, e),
    ensures
        covers(lines.push(line), e),
{
    let (k, i) = choose|k: int, i: int|
        0 <= k < lines.len() && 0 <= i < lines[k].len() && (#[trigger] lines[k][i]).edge == e;
    assert(lines.push(line)[k][i].edge == e);
}

/// What holds while the rings are collected, once every edge of rank below
/// `b` has been looked at.
spec fn collected(g: GridView, t: int, lines: Seq<Seq<ContourPoint>>, b: int) -> bool {
    &&& well_laid(g, t, lines)
    &&& forall|k: int| 0 <= k < lines.len() ==> rank(g, (#[trigger] lines[k])[0].edge) < b
    &&& forall|e: Edge| #[trigger] is_cut(g, t, e) && rank(g, e) < b ==> covers(lines, e)
}

/// An edge that a ring holds already, or at which the contour does not cut
/// the grid, leaves the rings as they are.
proof fn lemma_skip(g: GridView, t: int, lines: Seq<Seq<ContourPoint>>, e: Edge)
    requires
        e.column < g.width + 2,
        collected(g, t, lines, rank(g, e)),
        !is_cut(g, t, e) || covers(lines, e),
    ensures
        collected(g, t, lines, rank(g, e) + 1),
{
    assert forall|f: Edge| #[trigger] is_cut(g, t, f) && rank(g, f) < rank(g, e) + 1 implies covers(
        lines,
        f,
    ) by {
        if rank(g, f) == rank(g, e) {
            lemma_rank_injective(g, f, e);
        }
    }
}

/// The round followed from the first edge at which the contour cuts the
/// grid and that no ring holds is a ring of the contour, and it joins the
/// set.
proof fn lemma_join(g: GridView, t: int, lines: Seq<Seq<ContourPoint>>, line: Seq<ContourPoint>)
    requires
        g.wf(),
        is_round(g, t, line),
        is_cut(g, t, line[0].edge),
        !covers(lines, line[0].edge),
        collected(g, t, lines, rank(g, line[0].edge)),
    ensures
        collected(g, t, lines.push(line), rank(g, line[0].edge) + 1),
        is_closed_ring(g, t, line),
{
    let e = line[0].edge;
    let joined = lines.push(line);
    assert forall|i: int| 0 <= i < line.len() implies !covers(lines, (#[trigger] line[i]).edge) by {
        lemma_fresh(g, t, lines, line, i);
    }
    assert(is_closed_ring(g, t, line));
    assert forall|j: int, a: int, k: int, b: int|
        0 <= j < k < joined.len() && 0 <= a < joined[j].len() && 0 <= b < joined[k].len() implies (
    #[trigger] joined[j][a]).edge != (#[trigger] joined[k][b]).edge by {
        if k == lines.len() {
            assert(!covers(lines, line[b].edge));
            assert(lines[j][a].edge == joined[j][a].edge);
        } else {
            assert(lines[j][a].edge == joined[j][a].edge);
            assert(lines[k][b].edge == joined[k][b].edge);
        }
    }
    assert(well_laid(g, t, joined)) by {
        assert forall|k: int| 0 <= k < joined.len() implies is_closed_ring(
            g,
            t,
            #[trigger] joined[k],
        ) by {
            if k < lines.len() {
                assert(joined[k] == lines[k]);
            }
        }
        assert forall|j: int, k: int| 0 <= j < k < joined.len() implies rank(
            g,
            (#[trigger] joined[j])[0].edge,
        ) < rank(g, (#[trigger] joined[k])[0].edge) by {
            assert(joined[j] == lines[j]);
            if k < lines.len() {
                assert(joined[k] == lines[k]);
            }
        }
    }
    assert forall|k: int| 0 <= k < joined.len() implies rank(g, (#[trigger] joined[k])[0].edge)
        < rank(g, e) + 1 by {
        if k < lines.len() {
            assert(joined[k] == lines[k]);
        }
    }
    assert forall|f: Edge| #[trigger] is_cut(g, t, f) && rank(g, f) < rank(g, e) + 1 implies covers(
        joined,
        f,
    ) by {
        if rank(g, f) == rank(g, e) {
            lemma_rank_injective(g, f, e);
            assert(joined[lines.len() as int][0].edge == f);
        } else {
            lemma_covers_grow(lines, line, f);
        }
    }
}

/// When every edge of the mesh has been looked at, the rings are the
/// contour set.
proof fn lemma_done(g: GridView, t: int, lines: Seq<Seq<ContourPoint>>)
    requires
        collected(g, t, lines, 2 * mesh_size(g)),
    ensures
        is_contour_set(g, t, lines),
{
    reveal(is_contour_set);
    assert forall|e: Edge| #[trigger] is_cut(g, t, e) implies covers(lines, e) by {
        lemma_rank_bound(g, e);
    }
}

/// The flag of grid edge `e` in the two tables of edges that carry a ring,
/// one for horizontal and one for vertical edges, each indexed by the grid
/// vertex at the near end.
spec fn flagged(g: GridView, across: Seq<bool>, down: Seq<bool>, e: Edge) -> bool {
    if e.horizontal {
        across[(e.row - 1) * g.width + (e.column - 1)]
    } else {
        down[(e.row - 1) * g.width + (e.column - 1)]
    }
}

/// The tables flag exactly the grid edges that `lines` covers.
spec fn flags_match(
    g: GridView,
    across: Seq<bool>,
    down: Seq<bool>,
    lines: Seq<Seq<ContourPoint>>,
) -> bool {
    &&& across.len() == g.samples.len()
    &&& down.len() == g.samples.len()
    &&& forall|e: Edge|
        on_grid_edge(g, e) ==> #[trigger] flagged(g, across, down, e) == covers(lines, e)
}

/// Whether one of the first `n` points of `line` lies on `e`.
spec fn among(line: Seq<ContourPoint>, n: int, e: Edge) -> bool {
    exists|i: int| 0 <= i < n && (#[trigger] line[i]).edge == e
}

/// Two grid edges of the same direction with the same place in the tables
/// are the same edge.
proof fn lemma_same_flag(g: GridView, e: Edge, f: Edge)
    requires
        on_grid_edge(g, e),
        on_grid_edge(g, f),
        e.horizontal == f.horizontal,
        (e.row - 1) * g.width + (e.column - 1) == (f.row - 1) * g.width + (f.column - 1),
    ensures
        e == f,
{
    let w = g.width as int;
    let (re, ce) = (e.row - 1, e.column - 1);
    let (rf, cf) = (f.row - 1, f.column - 1);
    assert(re == rf) by (nonlinear_arith)
        requires
            re * w + ce == rf * w + cf,
            0 <= ce < w,
            0 <= cf < w,
    ;
    assert(re * w == rf * w);
}

/// A table of `n` flags, none set.
fn cleared(n: usize) -> (flags: Vec<bool>)
    ensures
        flags@.len() == n,
        forall|i: int| 0 <= i < n ==> !flags@[i],
{
    let mut flags: Vec<bool> = Vec::new();
    while flags.len() < n
        invariant
            flags@.len() <= n,
            forall|i: int| 0 <= i < flags@.len() ==> !flags@[i],
        decreases n - flags@.len(),
    {
        flags.push(false);
    }
    flags
}

/// Whether `e` is an edge of the grid.
fn edge_on_grid(grid: &Grid, e: Edge) -> (on: bool)
    requires
        grid.wf(),
    ensures
        on == on_grid_edge(grid@, e),
{
    let width = grid.width();
    let height = grid.height();
    if width < 2 || height < 2 || e.column < 1 || e.row < 1 {
        return false;
    }
    if e.horizontal {
        e.column < width && e.row <= height
    } else {
        e.column <= width && e.row < height
    }
}

/// Whether the tables flag the grid edge `e`.
fn is_flagged(grid: &Grid, across: &Vec<bool>, down: &Vec<bool>, e: Edge) -> (set: bool)
    requires
        grid.wf(),
        on_grid_edge(grid@, e),
        across@.len() == grid@.samples.len(),
        down@.len() == grid@.samples.len(),
    ensures
        set == flagged(grid@, across@, down@, e),
{
    let at = grid.index_of(e.column - 1, e.row - 1);
    if e.horizontal {
        across[at]
    } else {
        down[at]
    }
}

/// Flags the grid edges of `line`.
fn mark(
    grid: &Grid,
    across: &mut Vec<bool>,
    down: &mut Vec<bool>,
    line: &Vec<ContourPoint>,
    Ghost(lines): Ghost<Seq<Seq<ContourPoint>>>,
)
    requires
        grid.wf(),
        flags_match(grid@, old(across)@, old(down)@, lines),
    ensures
        flags_match(grid@, final(across)@, final(down)@, lines.push(line@)),
{
    let ghost g = grid@;
    let mut i: usize = 0;
    while i < line.len()
        invariant
            grid.wf(),
            g == grid@,
            0 <= i <= line@.len(),
            across@.len() == g.samples.len(),
            down@.len() == g.samples.len(),
            forall|e: Edge|
                on_grid_edge(g, e) ==> #[trigger] flagged(g, across@, down@, e) == (covers(lines, e)
                    || among(line@, i as int, e)),
        decreases line@.len() - i,
    {
        let edge = line[i].edge;
        let ghost across_before = across@;
        let ghost down_before = down@;
        if edge_on_grid(grid, edge) {
            let at = grid.index_of(edge.column - 1, edge.row - 1);
            if edge.horizontal {
                across.set(at, true);
            } else {
                down.set(at, true);
            }
        }
        proof {
            assert forall|e: Edge| on_grid_edge(g, e) implies #[trigger] flagged(
                g,
                across@,
                down@,
                e,
            ) == (covers(lines, e) || among(line@, i + 1, e)) by {
                assert(flagged(g, across_before, down_before, e) == (covers(lines, e) || among(
                    line@,
                    i as int,
                    e,
                )));
                lemma_vertex_index(g, e.column - 1, e.row - 1);
                if e == edge {
                    assert(line@[i as int].edge == e);
                } else {
                    if on_grid_edge(g, edge) && e.horizontal == edge.horizontal && (e.row - 1)
                        * g.width + (e.column - 1) == (edge.row - 1) * g.width + (edge.column
                        - 1) {
                        lemma_same_flag(g, e, edge);
                    }
                    if among(line@, i + 1, e) {
                        let j = choose|j: int| 0 <= j < i + 1 && (#[trigger] line@[j]).edge == e;
                        assert(j < i);
                    }
                    if among(line@, i as int, e) {
                        let j = choose|j: int| 0 <= j < i && (#[trigger] line@[j]).edge == e;
                        assert(0 <= j < i + 1);
                    }
                }
            }
        }
        i += 1;
    }
    proof {
        let joined = lines.push(line@);
        assert forall|e: Edge| on_grid_edge(g, e) implies #[trigger] flagged(g, across@, down@, e)
            == covers(joined, e) by {
            if covers(lines, e) {
                lemma_covers_grow(lines, line@, e);
            }
            if among(line@, line@.len() as int, e) {
                let j = choose|j: int| 0 <= j < line@.len() && (#[trigger] line@[j]).edge == e;
                assert(joined[lines.len() as int][j].edge == e);
            }
            if covers(joined, e) {
                let (k, j) = choose|k: int, j: int|
                    0 <= k < joined.len() && 0 <= j < joined[k].len() && (
                    #[trigger] joined[k][j]).edge == e;
                if k < lines.len() {
                    assert(lines[k][j].edge == e);
                } else {
                    assert(line@[j].edge == e);
                }
            }
        }
    }
}

/// Looks at edge `e` for a ring that no earlier edge has shown, and lays the
/// ring if there is one.
fn visit(
    grid: &Grid,
    threshold: i64,
    e: Edge,
    rings: &mut Vec<ContourRing>,
    across: &mut Vec<bool>,
    down: &mut Vec<bool>,
)
    requires
        grid.wf(),
        e.column < grid@.width + 2,
        collected(grid@, threshold as int, views(old(rings)@), rank(grid@, e)),
        flags_match(grid@, old(across)@, old(down)@, views(old(rings)@)),
    ensures
        collected(grid@, threshold as int, views(final(rings)@), rank(grid@, e) + 1),
        flags_match(grid@, final(across)@, final(down)@, views(final(rings)@)),
{
    let ghost g = grid@;
    let ghost t = threshold as int;
    let ghost lines = views(rings@);
    if edge_is_cut(grid, threshold, e) && !is_flagged(grid, across, down, e) {
        let line = trace(grid, threshold, e);
        proof {
            lemma_join(g, t, lines, line@);
        }
        mark(grid, across, down, &line, Ghost(lines));
        rings.push(ContourRing { points: line });
        assert(views(rings@) =~= lines.push(line@));
    } else {
        proof {
            lemma_skip(g, t, lines, e);
        }
    }
}

/// The contour of `grid` at `threshold`: its rings, all closed. A grid
/// narrower or lower than two samples has no cell and yields none, and so
/// does a threshold that cuts the grid nowhere.
pub fn extract(grid: &Grid, threshold: i64) -> (rings: Vec<ContourRing>)
    requires
        grid.wf(),
    ensures
        is_contour_set(grid@, threshold as int, views(rings@)),
        views(rings@) == contour_set(grid@, threshold as int),
        grid@.width < 2 || grid@.height < 2 ==> rings@.len() == 0,
        threshold <= lowest(grid@.samples) || threshold > highest(grid@.samples) ==> rings@.len()
            == 0,
{
    let ghost g = grid@;
    let ghost t = threshold as int;
    let width = grid.width();
    let height = grid.height();
    let mut rings: Vec<ContourRing> = Vec::new();
    if width < 2 || height < 2 {
        proof {
            assert(views(rings@) =~= Seq::empty());
            assert(is_contour_set(g, t, views(rings@))) by {
                reveal(is_contour_set);
            }
            lemma_contour_set_unique(g, t, views(rings@), contour_set(g, t));
        }
        return rings;
    }
    let mut across = cleared(grid.vertex_count());
    let mut down = cleared(grid.vertex_count());
    proof {
        lemma_mesh_fits(g);
        assert(views(rings@) =~= Seq::empty());
        assert forall|e: Edge| on_grid_edge(g, e) implies #[trigger] flagged(g, across@, down@, e)
            == covers(views(rings@), e) by {
            lemma_vertex_index(g, e.column - 1, e.row - 1);
        }
        assert forall|e: Edge| #[trigger] is_cut(g, t, e) && rank(g, e) < 0 implies covers(
            views(rings@),
            e,
        ) by {
            lemma_rank_bound(g, e);
        }
    }
    let mesh_width = width + 2;
    let mesh_height = height + 2;
    let mut row: usize = 0;
    while row < mesh_height
        invariant
            grid.wf(),
            g == grid@,
            t == threshold as int,
            mesh_width == g.width + 2,
            mesh_height == g.height + 2,
            0 <= row <= mesh_height,
            collected(g, t, views(rings@), 2 * (row * mesh_width)),
            flags_match(g, across@, down@, views(rings@)),
        decreases mesh_height - row,
    {
        let mut column: usize = 0;
        while column < mesh_width
            invariant
                grid.wf(),
                g == grid@,
                t == threshold as int,
                mesh_width == g.width + 2,
                mesh_height == g.height + 2,
                0 <= row < mesh_height,
                0 <= column <= mesh_width,
                collected(g, t, views(rings@), 2 * (row * mesh_width + column)),
                flags_match(g, across@, down@, views(rings@)),
            decreases mesh_width - column,
        {
            visit(
                grid,
                threshold,
                Edge { column, row, horizontal: true },
                &mut rings,
                &mut across,
                &mut down,
            );
            visit(
                grid,
                threshold,
                Edge { column, row, horizontal: false },
                &mut rings,
                &mut across,
                &mut down,
            );
            column += 1;
        }
        proof {
            assert(2 * (row * mesh_width + mesh_width) == 2 * ((row + 1) * mesh_width))
                by (nonlinear_arith);
        }
        row += 1;
    }
    proof {
        assert(mesh_height * mesh_width == mesh_size(g)) by (nonlinear_arith)
            requires
                mesh_width == g.width + 2,
                mesh_height == g.height + 2,
                mesh_size(g) == (g.width as int + 2) * (g.height as int + 2),
        ;
        lemma_done(g, t, views(rings@));
        lemma_contour_set_unique(g, t, views(rings@), contour_set(g, t));
        if t <= lowest(g.samples) || t > highest(g.samples) {
            lemma_outside_range(g, t);
        }
    }
    rings
}

} // verus!
