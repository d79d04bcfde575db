use vstd::arithmetic::div_mod::{lemma_div_is_ordered_by_denominator, lemma_div_pos_is_pos};
use vstd::prelude::*;

use crate::curve::Curve;

verus! {

/// One smoothing step for a remaining distance `diff`: `diff / fps` truncated
/// toward zero, but at least one unit toward the target while `diff != 0`.
pub open spec fn step_size(diff: int, fps: int) -> int {
    let q = if diff >= 0 { diff / fps } else { -((-diff) / fps) };
    if q == 0 && diff != 0 {
        if diff > 0 { 1 } else { -1 }
    } else {
        q
    }
}

/// `v` saturated into the device range `[0, max]`.
pub open spec fn saturate(v: int, max: int) -> int {
    if v < 0 { 0 } else if v > max { max } else { v }
}

/// The device value after one smoothing step from `current`.
pub open spec fn smoothed(diff: int, current: int, max: int, fps: int) -> int {
    saturate(current + step_size(diff, fps), max)
}

/// The device value after `n` smoothing steps from `current` toward `target`.
pub open spec fn smoothed_steps(current: int, target: int, max: int, fps: int, n: nat) -> int
    decreases n,
{
    if n == 0 {
        current
    } else {
        smoothed_steps(
            smoothed(target - current, current, max, fps),
            target,
            max,
            fps,
            (n - 1) as nat,
        )
    }
}

/// One step never leaves `[0, max]`; toward a target inside that range it moves
/// at least one unit and never passes the target.
pub proof fn lemma_smoothing_step(diff: int, current: int, max: int, fps: int)
    requires
        fps >= 1,
        0 <= max,
    ensures
        0 <= smoothed(diff, current, max, fps) <= max,
        0 <= current <= max && 0 <= current + diff <= max ==> {
            let v = smoothed(diff, current, max, fps);
            &&& diff > 0 ==> current < v <= current + diff
            &&& diff < 0 ==> current + diff <= v < current
            &&& diff == 0 ==> v == current
        },
{
    if diff > 0 {
        lemma_div_is_ordered_by_denominator(diff, 1, fps);
        lemma_div_pos_is_pos(diff, fps);
    } else if diff < 0 {
        lemma_div_is_ordered_by_denominator(-diff, 1, fps);
        lemma_div_pos_is_pos(-diff, fps);
    }
}

/// From any value of the device range, smoothing toward a target of that range
/// reaches the target within `|target - current|` steps and stays there.
pub proof fn lemma_smoothing_converges(current: int, target: int, max: int, fps: int, n: nat)
    requires
        fps >= 1,
        0 <= current <= max,
        0 <= target <= max,
        n >= if target >= current { target - current } else { current - target },
    ensures
        smoothed_steps(current, target, max, fps, n) == target,
    decreases n,
{
    if n > 0 {
        let next = smoothed(target - current, current, max, fps);
        lemma_smoothing_step(target - current, current, max, fps);
        lemma_smoothing_converges(next, target, max, fps, (n - 1) as nat);
    }
}

/// Smooth animation of a device value toward a target.
pub trait Smooth {
    /// The value to write next when the device reads `current`, its range is
    /// `0..=max`, and the target lies `diff` units away.
    fn adjust(diff: i64, current: u32, max: u32, fps: u8) -> (r: u32)
        requires
            fps >= 1,
        ensures
            r == smoothed(diff as int, current as int, max as int, fps as int),
    {
        let rate = fps as u64;
        let step_up: bool = diff >= 0;
        let distance: u64 = if step_up {
            diff as u64
        } else {
            ((-(diff + 1)) as u64) + 1
        };
        let mut step: u64 = distance / rate;
        if step == 0 && distance != 0 {
            step = 1;
        }
        if step_up {
            let raised: u64 = current as u64 + step;
            if raised > max as u64 {
                max
            } else {
                raised as u32
            }
        } else if step >= current as u64 {
            0
        } else {
            let lowered: u32 = current - step as u32;
            if lowered > max {
                max
            } else {
                lowered
            }
        }
    }
}

impl Smooth for Curve {}

} // verus!
