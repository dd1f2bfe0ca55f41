//! The sweep: the contour at every threshold, drawn lowest level first.

use vstd::prelude::*;
use crate::canvas::{valid_dimension, Canvas, Rendering, Stroke};
use crate::contour::{contour_set, is_contour_set, lemma_points_within, views, ContourRing};
use crate::error::SweepError;
use crate::extract::extract;
use crate::gradient::{Color, Gradient};
use crate::grid::{highest, lowest, Bounds, Grid, GridView};
use crate::levels::{level_count, threshold, threshold_at};
use crate::mesh::ContourPoint;
use crate::theorems::{lemma_flat_grid, lemma_paths_close};
use crate::lines::is_closed;
use crate::transform::{pixel_of, to_pixel};

verus! {

/// What a sweep is run with.
#[derive(Clone, Copy, Debug, PartialEq, Eq, Structural)]
pub struct SweepConfig {
    /// The picture has `scale` pixels to each grid step.
    pub scale: u32,
    /// The number of threshold levels.
    pub num_steps: i32,
    /// The colour of the lowest level.
    pub low: Color,
    /// The colour of the upper end of the range.
    pub high: Color,
    /// The width of every stroke, in pixels.
    pub stroke_width: u32,
}

impl Default for SweepConfig {
    /// Twice the grid's size, a hundred levels, from white to black, one
    /// pixel wide.
    fn default() -> (config: SweepConfig)
        ensures
            config == (SweepConfig {
                scale: 2,
                num_steps: 100,
                low: Color { red: 255, green: 255, blue: 255 },
                high: Color { red: 0, green: 0, blue: 0 },
                stroke_width: 1,
            }),
    {
        SweepConfig {
            scale: 2,
            num_steps: 100,
            low: Color::white(),
            high: Color::black(),
            stroke_width: 1,
        }
    }
}

/// The pixels of the points of a line, in order.
pub open spec fn pixel_line(line: Seq<ContourPoint>, scale: int) -> Seq<(i32, i32)> {
    Seq::new(
        line.len(),
        |i: int| (pixel_of(line[i], scale).0 as i32, pixel_of(line[i], scale).1 as i32),
    )
}

/// Whether a polyline ends on the pixel it began with.
pub open spec fn is_closed_path(points: Seq<(i32, i32)>) -> bool {
    points.len() >= 2 && points[0] == points.last()
}

/// Whether every stroke ends on the pixel it began with.
pub open spec fn all_closed(strokes: Seq<Stroke>) -> bool {
    forall|i: int| 0 <= i < strokes.len() ==> is_closed_path((#[trigger] strokes[i]).points)
}

/// The strokes of one level: one for each ring of the contour at threshold
/// `t`, in the order of the contour set, all in the same colour and width.
/// Each stroke ends on the pixel it began with.
pub open spec fn level_strokes(
    g: GridView,
    t: int,
    scale: int,
    color: Color,
    stroke_width: u32,
) -> Seq<Stroke> {
    let lines = contour_set(g, t);
    Seq::new(
        lines.len(),
        |k: int| Stroke { points: pixel_line(lines[k], scale), color, stroke_width },
    )
}

/// The bounds of a grid's samples.
pub open spec fn bounds_of(g: GridView) -> Bounds {
    Bounds { min: lowest(g.samples) as i64, max: highest(g.samples) as i64 }
}

/// The threshold of level `k` of a sweep of grid `g`.
pub open spec fn level_threshold(g: GridView, config: SweepConfig, k: int) -> int {
    threshold_at(bounds_of(g).min as int, bounds_of(g).max as int, config.num_steps as int, k)
}

/// The colour of level `k` of a sweep of grid `g`: that of its threshold on
/// the gradient over the grid's bounds.
pub open spec fn level_color(g: GridView, config: SweepConfig, k: int) -> Color {
    (Gradient {
        low: config.low,
        high: config.high,
        min: bounds_of(g).min,
        max: bounds_of(g).max,
    }).spec_color_at(level_threshold(g, config, k))
}

/// The strokes of the first `levels` levels of a sweep, lowest level first.
pub open spec fn sweep_strokes(g: GridView, config: SweepConfig, levels: nat) -> Seq<Stroke>
    decreases levels,
{
    if levels == 0 {
        Seq::empty()
    } else {
        let k = (levels - 1) as nat;
        sweep_strokes(g, config, k) + level_strokes(
            g,
            level_threshold(g, config, k as int),
            config.scale as int,
            level_color(g, config, k as int),
            config.stroke_width,
        )
    }
}

/// The pixel polyline of one contour ring of a grid of the given size: the
/// pixel of each of its points, in order.
pub fn single_contour(ring: &ContourRing, grid_width: usize, grid_height: usize, scale: u32) -> (path:
    Vec<(i32, i32)>)
    requires
        forall|i: int|
            0 <= i < ring@.len() ==> (#[trigger] ring@[i]).within(
                grid_width as int,
                grid_height as int,
            ),
    ensures
        path@ == pixel_line(ring@, scale as int),
        path@.len() == ring@.len(),
        is_closed(ring@) ==> is_closed_path(path@),
{
    let mut path: Vec<(i32, i32)> = Vec::new();
    let mut i: usize = 0;
    while i < ring.points.len()
        invariant
            0 <= i <= ring@.len(),
            forall|j: int|
                0 <= j < ring@.len() ==> (#[trigger] ring@[j]).within(
                    grid_width as int,
                    grid_height as int,
                ),
            path@ == pixel_line(ring@, scale as int).take(i as int),
        decreases ring@.len() - i,
    {
        let point = ring.points[i];
        assert(ring@[i as int].within(grid_width as int, grid_height as int));
        let pixel = to_pixel(point, grid_width, grid_height, scale);
        path.push(pixel);
        i += 1;
        assert(path@ =~= pixel_line(ring@, scale as int).take(i as int));
    }
    assert(path@ =~= pixel_line(ring@, scale as int));
    path
}

/// Draws the contour of `grid` at `threshold` on the canvas: one stroke for
/// each of its rings, in the order of the contour set.
pub fn draw_contour(
    canvas: &mut Canvas,
    grid: &Grid,
    threshold: i64,
    scale: u32,
    color: Color,
    stroke_width: u32,
)
    requires
        grid.wf(),
    ensures
        final(canvas).strokes() == old(canvas).strokes() + level_strokes(
            grid@,
            threshold as int,
            scale as int,
            color,
            stroke_width,
        ),
        all_closed(level_strokes(grid@, threshold as int, scale as int, color, stroke_width)),
        final(canvas).width() == old(canvas).width(),
        final(canvas).height() == old(canvas).height(),
{
    let ghost g = grid@;
    let ghost level = level_strokes(g, threshold as int, scale as int, color, stroke_width);
    let ghost before = canvas.strokes();
    let width = grid.width();
    let height = grid.height();
    let contours = extract(grid, threshold);
    let mut k: usize = 0;
    assert(before =~= before + level.take(0));
    while k < contours.len()
        invariant
            grid.wf(),
            g == grid@,
            width == g.width,
            height == g.height,
            0 <= k <= contours@.len(),
            is_contour_set(g, threshold as int, views(contours@)),
            views(contours@) == contour_set(g, threshold as int),
            level == level_strokes(g, threshold as int, scale as int, color, stroke_width),
            canvas.strokes() == before + level.take(k as int),
            canvas.width() == old(canvas).width(),
            canvas.height() == old(canvas).height(),
        decreases contours@.len() - k,
    {
        let ring = &contours[k];
        proof {
            assert(views(contours@)[k as int] == ring@);
            assert forall|i: int| 0 <= i < ring@.len() implies (#[trigger] ring@[i]).within(
                width as int,
                height as int,
            ) by {
                lemma_points_within(g, threshold, views(contours@), k as int, i);
            }
        }
        let path = single_contour(ring, width, height, scale);
        canvas.stroke_polyline(path, color, stroke_width);
        k += 1;
        proof {
            assert(level[k - 1] == (Stroke { points: path@, color, stroke_width }));
            assert(level.take(k as int) =~= level.take(k - 1).push(level[k - 1]));
            assert(canvas.strokes() =~= before + level.take(k as int));
        }
    }
    proof {
        assert(level.take(k as int) =~= level);
        assert forall|i: int| 0 <= i < level.len() implies is_closed_path(
            (#[trigger] level[i]).points,
        ) by {
            lemma_paths_close(g, threshold as int, views(contours@), i, scale as int);
        }
    }
}

/// The pixel extent of `length` grid steps at `scale` pixels a step, if it
/// is a valid dimension.
pub fn pixel_dimension(length: usize, scale: u32) -> (pixels: Option<u32>)
    ensures
        pixels is Some <==> valid_dimension(length * scale),
        pixels is Some ==> pixels->0 == length * scale,
{
    assert(length * scale <= 0xffff_ffff_ffff_ffff * 0xffff_ffff) by (nonlinear_arith)
        requires
            0 <= length <= 0xffff_ffff_ffff_ffff,
            0 <= scale <= 0xffff_ffff,
    ;
    let product: u128 = (length as u128) * (scale as u128);
    if product == 0 || product > 0x7fff_ffff {
        None
    } else {
        Some(product as u32)
    }
}

/// Sweeps `grid` from its least sample toward its greatest in
/// `config.num_steps` equal steps and draws the contour at each threshold,
/// lowest first, in the colour that the gradient from `config.low` to
/// `config.high` gives that threshold. Every stroke is a closed polyline. Fails exactly when the picture's size
/// is not valid; a number of steps that is not positive gives a picture
/// without strokes.
pub fn sweep(grid: &Grid, config: &SweepConfig) -> (result: Result<Rendering, SweepError>)
    requires
        grid.wf(),
    ensures
        result is Ok <==> valid_dimension(grid@.width * config.scale) && valid_dimension(
            grid@.height * config.scale,
        ),
        match result {
            Ok(rendering) => {
                &&& rendering.pixel_width == grid@.width * config.scale
                &&& rendering.pixel_height == grid@.height * config.scale
                &&& rendering@ == sweep_strokes(
                    grid@,
                    *config,
                    level_count(config.num_steps as int),
                )
                &&& lowest(grid@.samples) == highest(grid@.samples) ==> rendering@.len() == 0
                &&& all_closed(rendering@)
            },
            Err(e) => e == SweepError::RenderTarget,
        },
{
    let ghost g = grid@;
    let pixel_width = match pixel_dimension(grid.width(), config.scale) {
        Some(n) => n,
        None => {
            return Err(SweepError::RenderTarget);
        },
    };
    let pixel_height = match pixel_dimension(grid.height(), config.scale) {
        Some(n) => n,
        None => {
            return Err(SweepError::RenderTarget);
        },
    };
    let mut canvas = match Canvas::create(pixel_width, pixel_height) {
        Ok(canvas) => canvas,
        Err(e) => {
            return Err(e);
        },
    };
    let bounds = grid.bounds();
    let gradient = Gradient::with_domain(bounds, config.low, config.high);
    let mut k: i32 = 0;
    while k < config.num_steps
        invariant
            grid.wf(),
            g == grid@,
            bounds == bounds_of(g),
            bounds.wf(),
            gradient == (Gradient {
                low: config.low,
                high: config.high,
                min: bounds.min,
                max: bounds.max,
            }),
            0 <= k,
            k as nat <= level_count(config.num_steps as int),
            canvas.strokes() == sweep_strokes(g, *config, k as nat),
            all_closed(canvas.strokes()),
            canvas.width() == pixel_width,
            canvas.height() == pixel_height,
        decreases config.num_steps - k,
    {
        let level = threshold(bounds, config.num_steps, k);
        let color = gradient.color_at(level);
        draw_contour(&mut canvas, grid, level, config.scale, color, config.stroke_width);
        k = k + 1;
    }
    proof {
        if lowest(g.samples) == highest(g.samples) {
            lemma_flat_grid(g, *config, level_count(config.num_steps as int));
        }
    }
    Ok(canvas.finalize())
}

} // verus!
