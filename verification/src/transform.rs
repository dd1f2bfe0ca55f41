//! From grid-index space to pixels.

use vstd::prelude::*;
use vstd::arithmetic::div_mod::{
    lemma_div_is_ordered, lemma_div_multiples_vanish, lemma_div_pos_is_pos,
    lemma_fundamental_div_mod, lemma_fundamental_div_mod_converse, lemma_mod_pos_bound,
};
use crate::mesh::ContourPoint;

verus! {

/// A pixel coordinate brought within reach of a signed 32-bit number: what
/// lies beyond the greatest goes to the greatest.
pub open spec fn clip(n: int) -> int {
    if n > i32::MAX {
        i32::MAX as int
    } else {
        n
    }
}

/// The pixel of a point, for a picture with `scale` pixels to each grid
/// step: the point's column and row on the grid (one less than in the mesh,
/// which has its frame before the grid's first column and row), each
/// multiplied by `scale` and rounded down. No axis is turned: grid row 0 is
/// pixel row 0.
pub open spec fn pixel_of(point: ContourPoint, scale: int) -> (int, int) {
    (
        clip((scale * (point.column_times_den() - point.den)) / (point.den as int)),
        clip((scale * (point.row_times_den() - point.den)) / (point.den as int)),
    )
}

/// `scale` times a coordinate `whole + num / den`, rounded down, is `scale`
/// times `whole` plus the rounded part, and lies within `scale` of it.
proof fn lemma_scaled(scale: int, whole: int, num: int, den: int)
    requires
        0 <= scale,
        0 <= whole,
        0 <= num <= den,
        1 <= den,
    ensures
        (scale * (whole * den + num)) / den == scale * whole + (scale * num) / den,
        0 <= (scale * num) / den <= scale,
        num == 0 ==> (scale * num) / den == 0,
        0 <= scale * whole,
{
    assert(scale * (whole * den + num) == den * (scale * whole) + scale * num) by (nonlinear_arith);
    assert(0 <= scale * num <= scale * den) by (nonlinear_arith)
        requires
            0 <= scale,
            0 <= num <= den,
    ;
    lemma_div_pos_is_pos(scale * num, den);
    lemma_div_is_ordered(scale * num, scale * den, den);
    lemma_div_multiples_vanish(scale, den);
    assert(scale * den == den * scale) by (nonlinear_arith);
    let part = scale * num;
    lemma_fundamental_div_mod(part, den);
    lemma_mod_pos_bound(part, den);
    let q = scale * whole + part / den;
    let r = part % den;
    assert(den * (scale * whole) + part == q * den + r) by (nonlinear_arith)
        requires
            part == den * (part / den) + r,
            q == scale * whole + part / den,
    ;
    lemma_fundamental_div_mod_converse(den * (scale * whole) + part, den, q, r);
    if num == 0 {
        assert(scale * num == 0) by (nonlinear_arith)
            requires
                num == 0,
        ;
    }
    assert(0 <= scale * whole) by (nonlinear_arith)
        requires
            0 <= scale,
            0 <= whole,
    ;
}

/// One pixel coordinate: `scale` times the grid coordinate
/// `mesh - 1 + num / den`, rounded down and clipped. `times_den` is the
/// mesh coordinate times `den`.
fn scaled(mesh: usize, num: u64, den: u64, scale: u32, Ghost(times_den): Ghost<int>) -> (pixel: i32)
    requires
        0 <= num <= den,
        1 <= den,
        times_den == mesh * den + num,
        den <= times_den,
    ensures
        pixel == clip((scale * (times_den - den)) / (den as int)),
        0 <= pixel,
{
    let (whole, part): (usize, u64) = if mesh == 0 {
        (0, 0)
    } else {
        (mesh - 1, num)
    };
    proof {
        assert(0 * den == 0 && (whole + 1) * den == whole * den + den) by (nonlinear_arith);
        assert(times_den - den == whole * den + part);
        lemma_scaled(scale as int, whole as int, part as int, den as int);
        assert(scale * part <= 0xffff_ffff * 0xffff_ffff_ffff_ffff) by (nonlinear_arith)
            requires
                0 <= scale <= 0xffff_ffff,
                0 <= part <= 0xffff_ffff_ffff_ffff,
        ;
        assert(scale * whole <= 0xffff_ffff * 0xffff_ffff_ffff_ffff) by (nonlinear_arith)
            requires
                0 <= scale <= 0xffff_ffff,
                0 <= whole <= 0xffff_ffff_ffff_ffff,
        ;
    }
    let along: u128 = (scale as u128) * (part as u128) / (den as u128);
    let reach: u128 = (scale as u128) * (whole as u128) + along;
    if reach > 0x7fff_ffff {
        0x7fff_ffff
    } else {
        reach as i32
    }
}

/// Maps a point of a grid of the given size to its pixel. A pixel that a
/// signed 32-bit coordinate cannot reach goes to the greatest that it can.
#[allow(unused_variables)]
pub fn to_pixel(point: ContourPoint, grid_width: usize, grid_height: usize, scale: u32) -> (pixel: (
    i32,
    i32,
))
    requires
        point.within(grid_width as int, grid_height as int),
    ensures
        pixel.0 == pixel_of(point, scale as int).0,
        pixel.1 == pixel_of(point, scale as int).1,
        0 <= pixel.0 <= (grid_width - 1) * scale,
        0 <= pixel.1 <= (grid_height - 1) * scale,
{
    let (across, down): (u64, u64) = if point.edge.horizontal {
        (point.num, 0)
    } else {
        (0, point.num)
    };
    proof {
        lemma_reach(
            scale as int,
            point.column_times_den() - point.den,
            grid_width as int,
            point.den as int,
        );
        lemma_reach(
            scale as int,
            point.row_times_den() - point.den,
            grid_height as int,
            point.den as int,
        );
    }
    (
        scaled(point.edge.column, across, point.den, scale, Ghost(point.column_times_den())),
        scaled(point.edge.row, down, point.den, scale, Ghost(point.row_times_den())),
    )
}

/// A coordinate within a grid of `count` vertices stays, scaled, within the
/// scaled extent of the grid.
proof fn lemma_reach(scale: int, n: int, count: int, den: int)
    requires
        0 <= scale,
        1 <= den,
        0 <= n,
        n + den <= count * den,
    ensures
        clip((scale * n) / den) <= (count - 1) * scale,
{
    assert((count - 1) * den == count * den - den) by (nonlinear_arith);
    assert(scale * n <= scale * ((count - 1) * den) && scale * ((count - 1) * den) == den * ((count
        - 1) * scale)) by (nonlinear_arith)
        requires
            0 <= scale,
            n <= (count - 1) * den,
    ;
    lemma_div_is_ordered(scale * n, den * ((count - 1) * scale), den);
    lemma_div_multiples_vanish((count - 1) * scale, den);
}

} // verus!
