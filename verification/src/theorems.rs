//! What holds of contours and sweeps in general.

use vstd::prelude::*;
use crate::canvas::Stroke;
use crate::contour::{contour_set, is_contour_set, lemma_line_is_ring, lemma_lines_apart};
use crate::grid::{highest, lemma_extremes, lemma_vertex_index, lowest, GridView};
use crate::levels::{level_count, lemma_thresholds_ascend};
use crate::lines::{distinct_edges, is_closed};
use crate::mesh::{
    diagonal_between, entered_cell, is_cut, lemma_crossed_passes, lemma_saddle_split, successor,
    ContourPoint, Edge,
};
use crate::sweep::{
    is_closed_path, level_color, level_strokes, level_threshold, pixel_line, sweep_strokes,
    SweepConfig,
};
use crate::unique::lemma_contour_set_unique;

verus! {

/// A grid that the contour cuts nowhere has an empty contour.
pub proof fn lemma_uncut_grid(g: GridView, t: int)
    requires
        forall|e: Edge| !is_cut(g, t, e),
    ensures
        is_contour_set(g, t, Seq::<Seq<ContourPoint>>::empty()),
        contour_set(g, t) == Seq::<Seq<ContourPoint>>::empty(),
{
    let none = Seq::<Seq<ContourPoint>>::empty();
    assert(is_contour_set(g, t, none)) by {
        reveal(is_contour_set);
    }
    lemma_contour_set_unique(g, t, none, contour_set(g, t));
}

/// A threshold that no sample lies below, or that lies above every sample,
/// gives an empty contour.
pub proof fn lemma_outside_range(g: GridView, t: int)
    requires
        g.wf(),
        t <= lowest(g.samples) || t > highest(g.samples),
    ensures
        is_contour_set(g, t, Seq::<Seq<ContourPoint>>::empty()),
        contour_set(g, t) == Seq::<Seq<ContourPoint>>::empty(),
{
    assert(g.samples.len() >= 1) by (nonlinear_arith)
        requires
            g.samples.len() == g.width * g.height,
            g.width >= 1,
            g.height >= 1,
    ;
    lemma_extremes(g.samples);
    assert forall|e: Edge| !is_cut(g, t, e) by {
        if is_cut(g, t, e) {
            lemma_vertex_index(g, e.column - 1, e.row - 1);
            lemma_vertex_index(g, e.far_column() - 1, e.far_row() - 1);
            let near = g.samples[(e.row - 1) * g.width + (e.column - 1)];
            let far = g.samples[(e.far_row() - 1) * g.width + (e.far_column() - 1)];
            assert(lowest(g.samples) <= near <= highest(g.samples));
            assert(lowest(g.samples) <= far <= highest(g.samples));
        }
    }
    lemma_uncut_grid(g, t);
}

/// A grid narrower or lower than two samples has an empty contour at every
/// threshold.
pub proof fn lemma_no_cell(g: GridView, t: int)
    requires
        g.width < 2 || g.height < 2,
    ensures
        is_contour_set(g, t, Seq::<Seq<ContourPoint>>::empty()),
        contour_set(g, t) == Seq::<Seq<ContourPoint>>::empty(),
{
    lemma_uncut_grid(g, t);
}

/// Every ring of a contour is closed: it ends on the point it began with.
/// Before that it runs through each of its edges once.
pub proof fn lemma_rings_close(g: GridView, t: int, lines: Seq<Seq<ContourPoint>>, k: int)
    requires
        is_contour_set(g, t, lines),
        0 <= k < lines.len(),
    ensures
        lines[k].len() >= 2,
        lines[k][0] == lines[k].last(),
        is_closed(lines[k]),
        distinct_edges(lines[k], lines[k].len() - 1),
{
    lemma_line_is_ring(g, t, lines, k);
}

/// A closed ring stays closed in pixels: the polyline of a ring of a
/// contour ends on the pixel it began with, and has a pixel for each point.
pub proof fn lemma_paths_close(
    g: GridView,
    t: int,
    lines: Seq<Seq<ContourPoint>>,
    k: int,
    scale: int,
)
    requires
        is_contour_set(g, t, lines),
        0 <= k < lines.len(),
    ensures
        pixel_line(lines[k], scale).len() == lines[k].len(),
        is_closed_path(pixel_line(lines[k], scale)),
{
    lemma_line_is_ring(g, t, lines, k);
}

/// No two steps of a contour cross inside a cell: two different steps, each
/// from one point of a ring to the next, either pass through different cells
/// of the mesh or have a diagonal of their common cell strictly between them.
pub proof fn lemma_steps_apart(
    g: GridView,
    t: i64,
    lines: Seq<Seq<ContourPoint>>,
    j: int,
    a: int,
    k: int,
    b: int,
)
    requires
        g.wf(),
        is_contour_set(g, t as int, lines),
        0 <= j < lines.len(),
        0 <= k < lines.len(),
        0 <= a < lines[j].len() - 1,
        0 <= b < lines[k].len() - 1,
        j != k || a != b,
    ensures
        ({
            let step_a = (lines[j][a], lines[j][a + 1]);
            let step_b = (lines[k][b], lines[k][b + 1]);
            let cell_a = entered_cell(g, t as int, step_a.0.edge);
            let cell_b = entered_cell(g, t as int, step_b.0.edge);
            ||| cell_a != cell_b
            ||| diagonal_between(step_a, step_b, cell_a)
            ||| diagonal_between(step_b, step_a, cell_a)
        }),
{
    let (x, y) = (lines[j], lines[k]);
    let (e, f) = (x[a].edge, y[b].edge);
    lemma_line_is_ring(g, t as int, lines, j);
    lemma_line_is_ring(g, t as int, lines, k);
    assert(successor(g, t as int, e) == Some(x[a + 1].edge));
    assert(successor(g, t as int, f) == Some(y[b + 1].edge));
    lemma_crossed_passes(g, t as int, e);
    lemma_crossed_passes(g, t as int, f);
    if j != k {
        lemma_lines_apart(g, t as int, lines, j, a, k, b);
    } else if a < b {
        assert(x[a].edge != x[b].edge);
    } else {
        assert(x[b].edge != x[a].edge);
    }
    if entered_cell(g, t as int, e) == entered_cell(g, t as int, f) {
        lemma_saddle_split(g, t, e, f);
    }
}

/// The strokes of the first `k` levels of a sweep are the first strokes of
/// any longer sweep: later levels only add strokes behind them.
pub proof fn lemma_sweep_grows(g: GridView, config: SweepConfig, k: nat, n: nat)
    requires
        k <= n,
    ensures
        sweep_strokes(g, config, k).len() <= sweep_strokes(g, config, n).len(),
        sweep_strokes(g, config, n).take(sweep_strokes(g, config, k).len() as int) == sweep_strokes(
            g,
            config,
            k,
        ),
    decreases n - k,
{
    let short = sweep_strokes(g, config, k);
    if k == n {
        assert(short.take(short.len() as int) =~= short);
    } else {
        lemma_sweep_grows(g, config, k, (n - 1) as nat);
        let shorter = sweep_strokes(g, config, (n - 1) as nat);
        assert(shorter.take(short.len() as int) == short);
        assert(sweep_strokes(g, config, n).take(short.len() as int) =~= shorter.take(
            short.len() as int,
        ));
    }
}

/// Sweep order: in the queue of a sweep of `n` levels, the strokes of level
/// `k` stand together, behind all strokes of the levels below `k` and before
/// all strokes of the levels above, so that a higher threshold is drawn
/// later.
pub proof fn lemma_sweep_order(g: GridView, config: SweepConfig, k: nat, n: nat)
    requires
        k < n,
    ensures
        sweep_strokes(g, config, k).len() <= sweep_strokes(g, config, k + 1).len()
            <= sweep_strokes(g, config, n).len(),
        sweep_strokes(g, config, n).subrange(
            sweep_strokes(g, config, k).len() as int,
            sweep_strokes(g, config, k + 1).len() as int,
        ) == level_strokes(
            g,
            level_threshold(g, config, k as int),
            config.scale as int,
            level_color(g, config, k as int),
            config.stroke_width,
        ),
{
    let below = sweep_strokes(g, config, k);
    let upto = sweep_strokes(g, config, k + 1);
    let all = sweep_strokes(g, config, n);
    let level = level_strokes(
        g,
        level_threshold(g, config, k as int),
        config.scale as int,
        level_color(g, config, k as int),
        config.stroke_width,
    );
    assert(upto == below + level);
    lemma_sweep_grows(g, config, k + 1, n);
    assert(all.take(upto.len() as int) == upto);
    assert(all.subrange(below.len() as int, upto.len() as int) =~= level) by {
        assert forall|i: int| 0 <= i < level.len() implies all[below.len() + i] == level[i] by {
            assert(all.take(upto.len() as int)[below.len() + i] == upto[below.len() + i]);
        }
    }
}

/// The thresholds of a sweep of a grid rise with the level, begin at the
/// least sample, and stay below the greatest unless all samples are equal.
pub proof fn lemma_levels_rise(g: GridView, config: SweepConfig, j: int, k: int)
    requires
        g.wf(),
        0 <= j <= k < config.num_steps,
    ensures
        level_threshold(g, config, 0) == lowest(g.samples),
        lowest(g.samples) <= level_threshold(g, config, j) <= level_threshold(g, config, k)
            <= highest(g.samples),
        lowest(g.samples) < highest(g.samples) ==> level_threshold(g, config, k) < highest(
            g.samples,
        ),
{
    lemma_bounds(g);
    lemma_thresholds_ascend(
        lowest(g.samples),
        highest(g.samples),
        config.num_steps as int,
        j,
        k,
    );
}

/// The least sample of a grid is no greater than the greatest.
pub proof fn lemma_bounds(g: GridView)
    requires
        g.wf(),
    ensures
        i64::MIN <= lowest(g.samples) <= highest(g.samples) <= i64::MAX,
{
    assert(g.samples.len() >= 1) by (nonlinear_arith)
        requires
            g.samples.len() == g.width * g.height,
            g.width >= 1,
            g.height >= 1,
    ;
    lemma_extremes(g.samples);
    assert(lowest(g.samples) <= g.samples[0] <= highest(g.samples));
    let lo = choose|i: int| 0 <= i < g.samples.len() && #[trigger] g.samples[i] == lowest(g.samples);
    let hi = choose|i: int|
        0 <= i < g.samples.len() && #[trigger] g.samples[i] == highest(g.samples);
}

/// A sweep of a grid whose samples are all equal draws nothing.
pub proof fn lemma_flat_grid(g: GridView, config: SweepConfig, n: nat)
    requires
        g.wf(),
        lowest(g.samples) == highest(g.samples),
        n <= level_count(config.num_steps as int),
    ensures
        sweep_strokes(g, config, n) == Seq::<Stroke>::empty(),
    decreases n,
{
    if n > 0 {
        let k = (n - 1) as nat;
        lemma_flat_grid(g, config, k);
        lemma_levels_rise(g, config, k as int, k as int);
        let t = level_threshold(g, config, k as int);
        lemma_outside_range(g, t);
        let level = level_strokes(
            g,
            t,
            config.scale as int,
            level_color(g, config, k as int),
            config.stroke_width,
        );
        assert(level =~= Seq::<Stroke>::empty());
        assert(sweep_strokes(g, config, n) =~= Seq::<Stroke>::empty());
    }
}

} // verus!
