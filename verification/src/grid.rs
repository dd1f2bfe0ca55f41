//! The grid: a scalar field sampled at the vertices of a rectangular mesh, and
//! the bounds of its samples.

use vstd::prelude::*;
use crate::error::SweepError;

verus! {

/// The mathematical content of a [`Grid`]: its dimensions and its samples in
/// row-major order.
pub struct GridView {
    pub width: nat,
    pub height: nat,
    pub samples: Seq<i64>,
}

impl GridView {
    /// Both dimensions are positive and there is one sample per grid vertex.
    pub open spec fn wf(self) -> bool {
        &&& self.width >= 1
        &&& self.height >= 1
        &&& self.width <= usize::MAX
        &&& self.height <= usize::MAX
        &&& self.samples.len() == self.width * self.height
        &&& self.samples.len() <= usize::MAX
    }

    /// Whether `(column, row)` is a vertex of the grid.
    pub open spec fn has_vertex(self, column: int, row: int) -> bool {
        0 <= column < self.width && 0 <= row < self.height
    }

    /// The sample at vertex `(column, row)`.
    pub open spec fn sample(self, column: int, row: int) -> int {
        self.samples[row * self.width + column] as int
    }

    /// Whether the sample at `(column, row)` reaches the threshold.
    pub open spec fn inside(self, threshold: int, column: int, row: int) -> bool {
        self.sample(column, row) >= threshold
    }
}

/// The least element of a non-empty sequence of samples.
pub open spec fn lowest(samples: Seq<i64>) -> int
    decreases samples.len(),
{
    if samples.len() <= 1 {
        samples[0] as int
    } else {
        let rest = lowest(samples.drop_last());
        if samples.last() < rest {
            samples.last() as int
        } else {
            rest
        }
    }
}

/// The greatest element of a non-empty sequence of samples.
pub open spec fn highest(samples: Seq<i64>) -> int
    decreases samples.len(),
{
    if samples.len() <= 1 {
        samples[0] as int
    } else {
        let rest = highest(samples.drop_last());
        if samples.last() > rest {
            samples.last() as int
        } else {
            rest
        }
    }
}

/// `lowest` is a lower bound that some sample attains, and `highest` an upper
/// bound that some sample attains.
pub proof fn lemma_extremes(samples: Seq<i64>)
    requires
        samples.len() >= 1,
    ensures
        forall|i: int| 0 <= i < samples.len() ==> lowest(samples) <= #[trigger] samples[i] <= highest(samples),
        exists|i: int| 0 <= i < samples.len() && #[trigger] samples[i] == lowest(samples),
        exists|i: int| 0 <= i < samples.len() && #[trigger] samples[i] == highest(samples),
    decreases samples.len(),
{
    if samples.len() <= 1 {
        assert(samples[0] == lowest(samples));
        assert(samples[0] == highest(samples));
    } else {
        let rest = samples.drop_last();
        lemma_extremes(rest);
        let last = samples.len() - 1;
        assert forall|i: int| 0 <= i < samples.len() implies lowest(samples) <= #[trigger] samples[i]
            <= highest(samples) by {
            if i < last {
                assert(rest[i] == samples[i]);
            }
        }
        let lo = choose|i: int| 0 <= i < rest.len() && #[trigger] rest[i] == lowest(rest);
        assert(samples[lo] == rest[lo]);
        if samples.last() < lowest(rest) {
            assert(samples[last] == lowest(samples));
        } else {
            assert(samples[lo] == lowest(samples));
        }
        let hi = choose|i: int| 0 <= i < rest.len() && #[trigger] rest[i] == highest(rest);
        assert(samples[hi] == rest[hi]);
        if samples.last() > highest(rest) {
            assert(samples[last] == highest(samples));
        } else {
            assert(samples[hi] == highest(samples));
        }
    }
}

/// A vertex of a well-formed grid has a sample: its row-major index is in range.
pub proof fn lemma_vertex_index(g: GridView, column: int, row: int)
    requires
        g.wf(),
        g.has_vertex(column, row),
    ensures
        0 <= row * g.width + column < g.samples.len(),
{
    assert(0 <= row * g.width) by (nonlinear_arith)
        requires
            0 <= row,
            0 <= g.width,
    ;
    assert(row * g.width + g.width <= g.width * g.height) by (nonlinear_arith)
        requires
            0 <= row < g.height,
            0 <= g.width,
    ;
}

/// The least and the greatest sample of a grid.
#[derive(Clone, Copy, Debug, PartialEq, Eq, Structural)]
pub struct Bounds {
    pub min: i64,
    pub max: i64,
}

impl Bounds {
    /// The lower bound does not exceed the upper one.
    pub open spec fn wf(self) -> bool {
        self.min <= self.max
    }
}

/// An immutable two-dimensional scalar field, stored row by row.
#[derive(Debug)]
pub struct Grid {
    width: usize,
    height: usize,
    samples: Vec<i64>,
}

impl View for Grid {
    type V = GridView;

    closed spec fn view(&self) -> GridView {
        GridView { width: self.width as nat, height: self.height as nat, samples: self.samples@ }
    }
}

impl Grid {
    /// The grid's invariant: see [`GridView::wf`].
    pub open spec fn wf(&self) -> bool {
        self@.wf()
    }

    /// Builds a grid from its dimensions and its samples in row-major order.
    /// Fails exactly when a dimension is zero or the number of samples is not
    /// `width * height`.
    pub fn new(width: usize, height: usize, samples: Vec<i64>) -> (result: Result<Grid, SweepError>)
        ensures
            match result {
                Ok(grid) => {
                    &&& grid.wf()
                    &&& grid@.width == width
                    &&& grid@.height == height
                    &&& grid@.samples == samples@
                },
                Err(e) => {
                    &&& e == SweepError::MalformedInput
                    &&& (width == 0 || height == 0 || samples@.len() != width * height)
                },
            },
            result is Ok <==> width >= 1 && height >= 1 && samples@.len() == width * height,
    {
        if width == 0 || height == 0 {
            return Err(SweepError::MalformedInput);
        }
        let wide: u128 = width as u128;
        let high: u128 = height as u128;
        assert(wide * high <= 0xffff_ffff_ffff_ffff * 0xffff_ffff_ffff_ffff) by (nonlinear_arith)
            requires
                0 <= wide <= 0xffff_ffff_ffff_ffff,
                0 <= high <= 0xffff_ffff_ffff_ffff,
        ;
        if wide * high != samples.len() as u128 {
            return Err(SweepError::MalformedInput);
        }
        Ok(Grid { width, height, samples })
    }

    /// The number of columns.
    pub fn width(&self) -> (w: usize)
        ensures
            w == self@.width,
    {
        self.width
    }

    /// The number of rows.
    pub fn height(&self) -> (h: usize)
        ensures
            h == self@.height,
    {
        self.height
    }

    /// The number of vertices, which is the number of samples.
    pub fn vertex_count(&self) -> (n: usize)
        ensures
            n == self@.samples.len(),
    {
        self.samples.len()
    }

    /// The place of vertex `(column, row)` in row-major order.
    pub fn index_of(&self, column: usize, row: usize) -> (at: usize)
        requires
            self.wf(),
            self@.has_vertex(column as int, row as int),
        ensures
            at == row * self@.width + column,
            at < self@.samples.len(),
    {
        proof {
            lemma_vertex_index(self@, column as int, row as int);
            assert(0 <= row * self.width <= row * self.width + column) by (nonlinear_arith)
                requires
                    0 <= row,
                    0 <= self.width,
                    0 <= column,
            ;
        }
        row * self.width + column
    }

    /// The sample at `(column, row)`.
    pub fn sample(&self, column: usize, row: usize) -> (value: i64)
        requires
            self.wf(),
            self@.has_vertex(column as int, row as int),
        ensures
            value == self@.sample(column as int, row as int),
    {
        let at = self.index_of(column, row);
        self.samples[at]
    }

    /// The least and the greatest sample.
    pub fn bounds(&self) -> (b: Bounds)
        requires
            self.wf(),
        ensures
            b.min == lowest(self@.samples),
            b.max == highest(self@.samples),
            b.wf(),
    {
        proof {
            assert(self.samples@.len() >= 1) by (nonlinear_arith)
                requires
                    self.samples@.len() == self@.width * self@.height,
                    self@.width >= 1,
                    self@.height >= 1,
            ;
        }
        let mut min: i64 = self.samples[0];
        let mut max: i64 = self.samples[0];
        let mut i: usize = 1;
        assert(self.samples@.take(1).drop_last().len() == 0);
        while i < self.samples.len()
            invariant
                1 <= i <= self.samples@.len(),
                min == lowest(self.samples@.take(i as int)),
                max == highest(self.samples@.take(i as int)),
                min <= max,
            decreases self.samples@.len() - i,
        {
            let value: i64 = self.samples[i];
            proof {
                let next = self.samples@.take(i + 1);
                assert(next.drop_last() =~= self.samples@.take(i as int));
                assert(next.last() == value);
            }
            if value < min {
                min = value;
            }
            if value > max {
                max = value;
            }
            i += 1;
        }
        assert(self.samples@.take(i as int) =~= self.samples@);
        Bounds { min, max }
    }
}

} // verus!
