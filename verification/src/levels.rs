//! The thresholds of a sweep: equal steps up from the least sample.

use vstd::prelude::*;
use vstd::arithmetic::div_mod::{
    lemma_div_is_ordered, lemma_div_multiples_vanish, lemma_div_pos_is_pos,
    lemma_fundamental_div_mod, lemma_mod_pos_bound, lemma_small_div_converse,
};
use crate::grid::Bounds;

verus! {

/// The `k`th threshold of a sweep of `steps` levels over `[min, max]`:
/// `k / steps` of the way from `min` to `max`, rounded down to a whole
/// sample unit.
pub open spec fn threshold_at(min: int, max: int, steps: int, k: int) -> int {
    min + (k * (max - min)) / steps
}

/// The number of levels that a sweep asked to make `num_steps` steps works
/// through: none if the number is not positive.
pub open spec fn level_count(num_steps: int) -> nat {
    if num_steps > 0 {
        num_steps as nat
    } else {
        0
    }
}

/// The thresholds of a sweep rise from `min` and all stay within the range;
/// `max` itself is not among them unless the range is a single point.
pub proof fn lemma_thresholds_ascend(min: int, max: int, steps: int, j: int, k: int)
    requires
        min <= max,
        0 <= j <= k < steps,
    ensures
        threshold_at(min, max, steps, 0) == min,
        min <= threshold_at(min, max, steps, j) <= threshold_at(min, max, steps, k) <= max,
        min < max ==> threshold_at(min, max, steps, k) < max,
        0 <= k * (max - min) <= steps * (max - min),
{
    let range = max - min;
    assert(0 * range == 0);
    assert(0 <= j * range <= k * range) by (nonlinear_arith)
        requires
            0 <= j <= k,
            0 <= range,
    ;
    assert(k * range + range <= steps * range) by (nonlinear_arith)
        requires
            0 <= k < steps,
            0 <= range,
    ;
    lemma_div_pos_is_pos(j * range, steps);
    lemma_div_is_ordered(j * range, k * range, steps);
    lemma_div_is_ordered(k * range, steps * range, steps);
    lemma_div_multiples_vanish(range, steps);
    lemma_small_div_converse(0, steps);
    if min < max {
        lemma_fundamental_div_mod(k * range, steps);
        lemma_mod_pos_bound(k * range, steps);
        let q = (k * range) / steps;
        assert(q < range) by (nonlinear_arith)
            requires
                steps * q <= k * range,
                k * range < steps * range,
                0 < steps,
        ;
    }
}

/// The threshold of level `k` of a sweep of `num_steps` levels over
/// `bounds`.
pub fn threshold(bounds: Bounds, num_steps: i32, k: i32) -> (t: i64)
    requires
        bounds.wf(),
        0 <= k < num_steps,
    ensures
        t == threshold_at(bounds.min as int, bounds.max as int, num_steps as int, k as int),
{
    let range: i128 = bounds.max as i128 - bounds.min as i128;
    proof {
        lemma_thresholds_ascend(
            bounds.min as int,
            bounds.max as int,
            num_steps as int,
            k as int,
            k as int,
        );
        assert(k * range <= 0x7fff_ffff * 0xffff_ffff_ffff_ffff) by (nonlinear_arith)
            requires
                0 <= k <= 0x7fff_ffff,
                0 <= range <= 0xffff_ffff_ffff_ffff,
        ;
    }
    (bounds.min as i128 + ((k as i128) * range) / (num_steps as i128)) as i64
}

/// The thresholds of a sweep of `num_steps` levels over `bounds`, lowest
/// first. A number of steps that is not positive gives none.
pub fn thresholds(bounds: Bounds, num_steps: i32) -> (levels: Vec<i64>)
    requires
        bounds.wf(),
    ensures
        levels@.len() == level_count(num_steps as int),
        forall|k: int|
            0 <= k < levels@.len() ==> #[trigger] levels@[k] == threshold_at(
                bounds.min as int,
                bounds.max as int,
                num_steps as int,
                k,
            ),
{
    let mut levels: Vec<i64> = Vec::new();
    let mut k: i32 = 0;
    while k < num_steps
        invariant
            bounds.wf(),
            0 <= k,
            k as nat <= level_count(num_steps as int),
            levels@.len() == k,
            forall|j: int|
                0 <= j < k ==> #[trigger] levels@[j] == threshold_at(
                    bounds.min as int,
                    bounds.max as int,
                    num_steps as int,
                    j,
                ),
        decreases num_steps - k,
    {
        levels.push(threshold(bounds, num_steps, k));
        k = k + 1;
    }
    levels
}

} // verus!
