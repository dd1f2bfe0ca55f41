//! The canvas: a queue of strokes for a picture of fixed size.

use vstd::prelude::*;
use crate::error::SweepError;
use crate::gradient::Color;

verus! {

/// A polyline in pixel coordinates with the colour and the width of its
/// stroke: one draw command for the renderer.
#[derive(Debug)]
pub struct StyledPolyline {
    pub points: Vec<(i32, i32)>,
    pub color: Color,
    pub stroke_width: u32,
}

/// The mathematical content of a [`StyledPolyline`].
pub struct Stroke {
    pub points: Seq<(i32, i32)>,
    pub color: Color,
    pub stroke_width: u32,
}

impl View for StyledPolyline {
    type V = Stroke;

    open spec fn view(&self) -> Stroke {
        Stroke { points: self.points@, color: self.color, stroke_width: self.stroke_width }
    }
}

/// The contents of a queue of draw commands.
pub open spec fn strokes_of(queue: Seq<StyledPolyline>) -> Seq<Stroke> {
    Seq::new(queue.len(), |i: int| queue[i]@)
}

/// Whether a picture can be `n` pixels wide or high: at least one pixel, and
/// every pixel within reach of a signed 32-bit coordinate.
pub open spec fn valid_dimension(n: int) -> bool {
    1 <= n <= i32::MAX
}

/// A raster surface of fixed size that takes strokes one after another. It
/// keeps them in the order of submission; the renderer paints them in that
/// order, later strokes over earlier ones.
#[derive(Debug)]
pub struct Canvas {
    pixel_width: u32,
    pixel_height: u32,
    queue: Vec<StyledPolyline>,
}

/// A finished picture: its size and all its strokes, first submitted first.
#[derive(Debug)]
pub struct Rendering {
    pub pixel_width: u32,
    pub pixel_height: u32,
    pub strokes: Vec<StyledPolyline>,
}

impl View for Rendering {
    type V = Seq<Stroke>;

    open spec fn view(&self) -> Seq<Stroke> {
        strokes_of(self.strokes@)
    }
}

impl Canvas {
    /// The width in pixels.
    pub closed spec fn width(&self) -> int {
        self.pixel_width as int
    }

    /// The height in pixels.
    pub closed spec fn height(&self) -> int {
        self.pixel_height as int
    }

    /// The strokes submitted so far, in order.
    pub closed spec fn strokes(&self) -> Seq<Stroke> {
        strokes_of(self.queue@)
    }

    /// An empty canvas of the given size. Fails exactly when a dimension is
    /// not valid.
    pub fn create(pixel_width: u32, pixel_height: u32) -> (result: Result<Canvas, SweepError>)
        ensures
            result is Ok <==> valid_dimension(pixel_width as int) && valid_dimension(
                pixel_height as int,
            ),
            match result {
                Ok(canvas) => {
                    &&& canvas.width() == pixel_width
                    &&& canvas.height() == pixel_height
                    &&& canvas.strokes() == Seq::<Stroke>::empty()
                },
                Err(e) => e == SweepError::RenderTarget,
            },
    {
        if pixel_width == 0 || pixel_height == 0 || pixel_width > 0x7fff_ffff || pixel_height
            > 0x7fff_ffff {
            return Err(SweepError::RenderTarget);
        }
        let canvas = Canvas { pixel_width, pixel_height, queue: Vec::new() };
        assert(canvas.strokes() =~= Seq::<Stroke>::empty());
        Ok(canvas)
    }

    /// Submits one stroke. It goes behind all strokes submitted before.
    pub fn stroke_polyline(&mut self, points: Vec<(i32, i32)>, color: Color, stroke_width: u32)
        ensures
            final(self).strokes() == old(self).strokes().push(
                Stroke { points: points@, color, stroke_width },
            ),
            final(self).width() == old(self).width(),
            final(self).height() == old(self).height(),
    {
        let ghost before = self.queue@;
        self.queue.push(StyledPolyline { points, color, stroke_width });
        assert(strokes_of(self.queue@) =~= strokes_of(before).push(
            Stroke { points: points@, color, stroke_width },
        ));
    }

    /// The number of strokes submitted so far.
    pub fn stroke_count(&self) -> (n: usize)
        ensures
            n == self.strokes().len(),
    {
        self.queue.len()
    }

    /// Closes the canvas and hands over the picture. The canvas is used up:
    /// a canvas is finalized once.
    pub fn finalize(self) -> (rendering: Rendering)
        ensures
            rendering.pixel_width == self.width(),
            rendering.pixel_height == self.height(),
            rendering@ == self.strokes(),
    {
        Rendering { pixel_width: self.pixel_width, pixel_height: self.pixel_height, strokes: self.queue }
    }
}

} // verus!
