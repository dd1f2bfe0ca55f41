//! Colours, and the linear gradient that gives each threshold its colour.

use vstd::prelude::*;
use vstd::arithmetic::div_mod::{
    lemma_div_is_ordered, lemma_div_multiples_vanish, lemma_div_pos_is_pos,
};
use vstd::arithmetic::mul::{
    lemma_mul_inequality, lemma_mul_is_commutative, lemma_mul_nonnegative,
};
use crate::grid::Bounds;

verus! {

/// A colour without transparency, with 8-bit red, green and blue channels.
#[derive(Clone, Copy, Debug, PartialEq, Eq, Structural)]
pub struct Color {
    pub red: u8,
    pub green: u8,
    pub blue: u8,
}

/// The named colour `palette::named::WHITE`, channel by channel. Not
/// verified: that the constant holds 255 in each channel is taken from
/// palette's table of named colours.
#[verifier::external_body]
fn named_white() -> (c: Color)
    ensures
        c == (Color { red: 255, green: 255, blue: 255 }),
{
    let named = palette::named::WHITE;
    Color { red: named.red, green: named.green, blue: named.blue }
}

/// The named colour `palette::named::BLACK`, channel by channel. Not
/// verified: that the constant holds 0 in each channel is taken from
/// palette's table of named colours.
#[verifier::external_body]
fn named_black() -> (c: Color)
    ensures
        c == (Color { red: 0, green: 0, blue: 0 }),
{
    let named = palette::named::BLACK;
    Color { red: named.red, green: named.green, blue: named.blue }
}

impl Color {
    /// White, as palette names it.
    pub fn white() -> (c: Color)
        ensures
            c == (Color { red: 255, green: 255, blue: 255 }),
    {
        named_white()
    }

    /// Black, as palette names it.
    pub fn black() -> (c: Color)
        ensures
            c == (Color { red: 0, green: 0, blue: 0 }),
    {
        named_black()
    }
}

/// `value` brought into `[min, max]`.
pub open spec fn clamped(value: int, min: int, max: int) -> int {
    if value < min {
        min
    } else if value > max {
        max
    } else {
        value
    }
}

/// One channel, `num / den` of the way from `low` to `high`, rounded toward
/// `low`. With nowhere to go (`den <= 0`) it stays at `low`.
pub open spec fn blend(low: int, high: int, num: int, den: int) -> int {
    if den <= 0 {
        low
    } else if low <= high {
        low + ((high - low) * num) / den
    } else {
        low - ((low - high) * num) / den
    }
}

/// A part `num / den` of a span, rounded down, is no more than the span and
/// grows with `num`.
proof fn lemma_part(span: int, a: int, b: int, den: int)
    requires
        0 <= span,
        0 <= a <= b <= den,
        0 < den,
    ensures
        0 <= (span * a) / den <= (span * b) / den <= span,
        (span * 0) / den == 0,
        (span * den) / den == span,
{
    lemma_mul_nonnegative(span, a);
    lemma_div_pos_is_pos(span * a, den);
    lemma_mul_is_commutative(span, a);
    lemma_mul_is_commutative(span, b);
    lemma_mul_is_commutative(span, den);
    lemma_mul_inequality(a, b, span);
    lemma_div_is_ordered(span * a, span * b, den);
    lemma_mul_inequality(b, den, span);
    lemma_div_is_ordered(span * b, span * den, den);
    lemma_div_multiples_vanish(span, den);
    assert(span * 0 == 0);
}

/// A linear colour gradient over the values from `min` to `max`: `low` at
/// `min`, `high` at `max`.
#[derive(Clone, Copy, Debug, PartialEq, Eq, Structural)]
pub struct Gradient {
    pub low: Color,
    pub high: Color,
    pub min: i64,
    pub max: i64,
}

impl Gradient {
    /// The colour of `value`: each channel interpolated linearly between
    /// the end colours, by the place of `value`, clamped to the domain,
    /// between `min` and `max`. An empty or one-point domain gives `low`.
    pub open spec fn spec_color_at(self, value: int) -> Color {
        let num = clamped(value, self.min as int, self.max as int) - self.min;
        let den = self.max - self.min;
        Color {
            red: blend(self.low.red as int, self.high.red as int, num, den) as u8,
            green: blend(self.low.green as int, self.high.green as int, num, den) as u8,
            blue: blend(self.low.blue as int, self.high.blue as int, num, den) as u8,
        }
    }

    /// The gradient from `low` at `bounds.min` to `high` at `bounds.max`.
    pub fn with_domain(bounds: Bounds, low: Color, high: Color) -> (gradient: Gradient)
        ensures
            gradient == (Gradient { low, high, min: bounds.min, max: bounds.max }),
    {
        Gradient { low, high, min: bounds.min, max: bounds.max }
    }

    /// One channel of the colour `num / den` of the way through the domain.
    fn channel(low: u8, high: u8, num: u64, den: u64) -> (c: u8)
        requires
            0 <= num <= den,
            0 < den,
        ensures
            c == blend(low as int, high as int, num as int, den as int),
    {
        if low <= high {
            let span: u128 = (high - low) as u128;
            proof {
                lemma_part(span as int, num as int, num as int, den as int);
                assert(span * num <= 255 * 0xffff_ffff_ffff_ffff) by (nonlinear_arith)
                    requires
                        0 <= span <= 255,
                        0 <= num <= 0xffff_ffff_ffff_ffff,
                ;
            }
            let part: u128 = span * (num as u128) / (den as u128);
            low + (part as u8)
        } else {
            let span: u128 = (low - high) as u128;
            proof {
                lemma_part(span as int, num as int, num as int, den as int);
                assert(span * num <= 255 * 0xffff_ffff_ffff_ffff) by (nonlinear_arith)
                    requires
                        0 <= span <= 255,
                        0 <= num <= 0xffff_ffff_ffff_ffff,
                ;
            }
            let part: u128 = span * (num as u128) / (den as u128);
            low - (part as u8)
        }
    }

    /// The colour of `value`. Values outside the domain take the colour of
    /// the nearer end.
    pub fn color_at(&self, value: i64) -> (color: Color)
        ensures
            color == self.spec_color_at(value as int),
    {
        if self.max <= self.min {
            return self.low;
        }
        let inside: i64 = if value < self.min {
            self.min
        } else if value > self.max {
            self.max
        } else {
            value
        };
        let num: u64 = (inside as i128 - self.min as i128) as u64;
        let den: u64 = (self.max as i128 - self.min as i128) as u64;
        Color {
            red: Self::channel(self.low.red, self.high.red, num, den),
            green: Self::channel(self.low.green, self.high.green, num, den),
            blue: Self::channel(self.low.blue, self.high.blue, num, den),
        }
    }
}

/// Whether channel value `c` lies between `low` and `high`, whichever way
/// they are ordered.
pub open spec fn between(low: u8, c: u8, high: u8) -> bool {
    low <= c <= high || high <= c <= low
}

/// Whether going from channel value `a` to `b` is no step back on the way
/// from `low` to `high`.
pub open spec fn toward(low: u8, high: u8, a: u8, b: u8) -> bool {
    if low <= high {
        a <= b
    } else {
        a >= b
    }
}

/// A blended channel lies between the two ends, moves toward `high` as the
/// fraction grows, and reaches `high` when the fraction is one.
proof fn lemma_side(low: u8, high: u8, a: int, b: int, den: int)
    requires
        0 <= a <= b <= den,
        0 < den,
    ensures
        between(low, blend(low as int, high as int, a, den) as u8, high),
        between(low, blend(low as int, high as int, b, den) as u8, high),
        toward(
            low,
            high,
            blend(low as int, high as int, a, den) as u8,
            blend(low as int, high as int, b, den) as u8,
        ),
        blend(low as int, high as int, den, den) == high,
        blend(low as int, high as int, 0, den) == low,
{
    if low <= high {
        lemma_part(high - low, a, b, den);
    } else {
        lemma_part(low - high, a, b, den);
    }
}

/// At the lower end of its domain, and below it, a gradient gives its low
/// colour.
pub proof fn lemma_low_end(gradient: Gradient, value: int)
    requires
        value <= gradient.min,
    ensures
        gradient.spec_color_at(value) == gradient.low,
{
    let den = gradient.max - gradient.min;
    let (low, high) = (gradient.low, gradient.high);
    if den > 0 {
        lemma_side(low.red, high.red, 0, 0, den);
        lemma_side(low.green, high.green, 0, 0, den);
        lemma_side(low.blue, high.blue, 0, 0, den);
    }
}

/// At the upper end of a domain of more than one point, and above it, a
/// gradient gives its high colour.
pub proof fn lemma_high_end(gradient: Gradient, value: int)
    requires
        gradient.min < gradient.max,
        value >= gradient.max,
    ensures
        gradient.spec_color_at(value) == gradient.high,
{
    let den = gradient.max - gradient.min;
    let (low, high) = (gradient.low, gradient.high);
    lemma_side(low.red, high.red, den, den, den);
    lemma_side(low.green, high.green, den, den, den);
    lemma_side(low.blue, high.blue, den, den, den);
}

/// On a domain of no more than one point a gradient gives its low colour
/// everywhere.
pub proof fn lemma_flat(gradient: Gradient, value: int)
    requires
        gradient.max <= gradient.min,
    ensures
        gradient.spec_color_at(value) == gradient.low,
{
}

/// A gradient is monotonic: as the value grows, each channel moves from its
/// low end toward its high end and never back, and stays between the two.
pub proof fn lemma_monotonic(gradient: Gradient, a: int, b: int)
    requires
        a <= b,
    ensures
        toward(
            gradient.low.red,
            gradient.high.red,
            gradient.spec_color_at(a).red,
            gradient.spec_color_at(b).red,
        ),
        toward(
            gradient.low.green,
            gradient.high.green,
            gradient.spec_color_at(a).green,
            gradient.spec_color_at(b).green,
        ),
        toward(
            gradient.low.blue,
            gradient.high.blue,
            gradient.spec_color_at(a).blue,
            gradient.spec_color_at(b).blue,
        ),
        between(gradient.low.red, gradient.spec_color_at(a).red, gradient.high.red),
        between(gradient.low.green, gradient.spec_color_at(a).green, gradient.high.green),
        between(gradient.low.blue, gradient.spec_color_at(a).blue, gradient.high.blue),
{
    let den = gradient.max - gradient.min;
    let (low, high) = (gradient.low, gradient.high);
    if den > 0 {
        let na = clamped(a, gradient.min as int, gradient.max as int) - gradient.min;
        let nb = clamped(b, gradient.min as int, gradient.max as int) - gradient.min;
        lemma_side(low.red, high.red, na, nb, den);
        lemma_side(low.green, high.green, na, nb, den);
        lemma_side(low.blue, high.blue, na, nb, den);
    }
}

} // verus!
