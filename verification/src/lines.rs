//! Single contour lines: what it means to follow the contour, and the
//! function that follows it from one edge round to that edge again.

use vstd::prelude::*;
use crate::counting::lemma_pigeonhole;
use crate::grid::{Grid, GridView};
use crate::mesh::{
    crossing, is_crossed, is_cut, lemma_crossed_passes, lemma_crossing_fraction, lemma_rank_bound,
    lemma_rank_injective, lemma_successor, mesh_size, next_edge, on_mesh, point_on, rank,
    successor, ContourPoint, Edge,
};

verus! {

/// Every point of `line` is the crossing point of a crossed edge, and each
/// point but the last is followed by the point on the successor of its edge.
pub open spec fn follows(g: GridView, t: int, line: Seq<ContourPoint>) -> bool {
    &&& forall|i: int|
        0 <= i < line.len() ==> is_crossed(g, t, (#[trigger] line[i]).edge) && line[i] == crossing(
            g,
            t,
            line[i].edge,
        )
    &&& forall|i: int, j: int|
        0 <= i && j == i + 1 && j < line.len() ==> successor(g, t, (#[trigger] line[i]).edge)
            == Some((#[trigger] line[j]).edge)
}

/// The first `n` points of `line` lie on `n` different edges.
pub open spec fn distinct_edges(line: Seq<ContourPoint>, n: int) -> bool {
    forall|i: int, j: int| 0 <= i < j < n ==> (#[trigger] line[i]).edge != (#[trigger] line[j]).edge
}

/// A line is closed when it returns to its first point.
pub open spec fn is_closed(line: Seq<ContourPoint>) -> bool {
    line.len() >= 2 && line[0] == line.last()
}

/// One round of the contour: the line follows the contour from an edge
/// through different edges until it is back, and ends with its first point
/// repeated.
pub open spec fn is_round(g: GridView, t: int, line: Seq<ContourPoint>) -> bool {
    &&& follows(g, t, line)
    &&& is_closed(line)
    &&& distinct_edges(line, line.len() - 1)
}

/// A contour ring: one round of the contour that begins where it cuts the
/// grid, at the edge of least rank among those at which it does.
pub open spec fn is_closed_ring(g: GridView, t: int, line: Seq<ContourPoint>) -> bool {
    &&& is_round(g, t, line)
    &&& is_cut(g, t, line[0].edge)
    &&& forall|i: int|
        0 <= i < line.len() && is_cut(g, t, (#[trigger] line[i]).edge) ==> rank(g, line[0].edge)
            <= rank(g, line[i].edge)
}

/// Points on different mesh edges are no more than the mesh has edges.
pub proof fn lemma_distinct_bounded(g: GridView, line: Seq<ContourPoint>)
    requires
        forall|i: int| 0 <= i < line.len() ==> on_mesh(g, (#[trigger] line[i]).edge),
        distinct_edges(line, line.len() as int),
    ensures
        line.len() <= 2 * mesh_size(g),
{
    if line.len() > 2 * mesh_size(g) {
        let ranks = Seq::new(line.len(), |i: int| rank(g, line[i].edge));
        assert forall|i: int| 0 <= i < ranks.len() implies 0 <= #[trigger] ranks[i] < 2 * mesh_size(
            g,
        ) by {
            lemma_rank_bound(g, line[i].edge);
        }
        assert(0 <= 2 * mesh_size(g)) by (nonlinear_arith)
            requires
                mesh_size(g) == (g.width as int + 2) * (g.height as int + 2),
        ;
        let (i, j) = lemma_pigeonhole(ranks, 2 * mesh_size(g));
        lemma_rank_injective(g, line[i].edge, line[j].edge);
    }
}

/// Follows the contour at `threshold` from the crossed edge `start` once
/// round, until it is back at `start`.
pub fn trace(grid: &Grid, threshold: i64, start: Edge) -> (line: Vec<ContourPoint>)
    requires
        grid.wf(),
        is_crossed(grid@, threshold as int, start),
    ensures
        is_round(grid@, threshold as int, line@),
        line@[0].edge == start,
{
    let ghost g = grid@;
    let ghost t = threshold as int;
    let mut line: Vec<ContourPoint> = Vec::new();
    line.push(point_on(grid, threshold, start));
    let mut current = start;
    proof {
        lemma_crossing_fraction(g, threshold, start);
        lemma_distinct_bounded(g, line@);
    }
    loop
        invariant_except_break
            line@.len() <= 2 * mesh_size(g),
            line@.last().edge == current,
            distinct_edges(line@, line@.len() as int),
        invariant
            grid.wf(),
            g == grid@,
            t == threshold as int,
            is_crossed(g, t, start),
            line@.len() >= 1,
            line@[0].edge == start,
            follows(g, t, line@),
        ensures
            is_round(g, t, line@),
            line@[0].edge == start,
        decreases 2 * mesh_size(g) - line@.len(),
    {
        let ghost before = line@;
        proof {
            assert(is_crossed(g, t, before[before.len() - 1].edge));
            lemma_crossed_passes(g, t, current);
        }
        let next = next_edge(grid, threshold, current);
        proof {
            lemma_successor(g, t, current);
            assert forall|j: int| 1 <= j < before.len() implies (#[trigger] before[j]).edge
                != next by {
                let earlier = before[j - 1].edge;
                assert(successor(g, t, earlier) == Some(before[j].edge));
                assert(is_crossed(g, t, before[j - 1].edge));
                lemma_crossed_passes(g, t, earlier);
                lemma_successor(g, t, earlier);
            }
        }
        line.push(point_on(grid, threshold, next));
        proof {
            lemma_crossing_fraction(g, threshold, next);
            assert(forall|i: int| 0 <= i < before.len() ==> line@[i] == before[i]);
            assert(follows(g, t, line@)) by {
                assert forall|i: int, j: int|
                    0 <= i && j == i + 1 && j < line@.len() implies successor(
                    g,
                    t,
                    (#[trigger] line@[i]).edge,
                ) == Some((#[trigger] line@[j]).edge) by {
                    if j < before.len() {
                        assert(successor(g, t, before[i].edge) == Some(before[j].edge));
                    }
                }
            }
        }
        if next == start {
            assert(distinct_edges(line@, line@.len() - 1));
            break ;
        }
        current = next;
        proof {
            assert(distinct_edges(line@, line@.len() as int));
            lemma_distinct_bounded(g, line@);
        }
    }
    line
}

} // verus!
