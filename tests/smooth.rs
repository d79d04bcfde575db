use prescurve::curve::Curve;
use prescurve::smooth::Smooth;

#[test]
fn scenario_first_step_moves_one_unit() {
    assert_eq!(Curve::adjust(90, 10, 255, 60), 11);
}

#[test]
fn scenario_reaches_target_without_overshoot() {
    let target: u32 = 100;
    let mut current: u32 = 10;
    let mut ticks = 0;
    while current != target {
        let next = Curve::adjust(target as i64 - current as i64, current, 255, 60);
        assert!(current < next && next <= target);
        current = next;
        ticks += 1;
    }
    // one unit per tick: every remaining distance here is below 2 * fps
    assert_eq!(ticks, 90);
    assert_eq!(Curve::adjust(0, current, 255, 60), 100);
}

#[test]
fn after_sixty_ticks_the_device_reads_seventy() {
    let mut current: u32 = 10;
    for _ in 0..60 {
        current = Curve::adjust(100 - current as i64, current, 255, 60);
    }
    assert_eq!(current, 70);
}

#[test]
fn step_scales_with_distance() {
    assert_eq!(Curve::adjust(600, 0, 1000, 60), 10);
    assert_eq!(Curve::adjust(-600, 1000, 1000, 60), 990);
    assert_eq!(Curve::adjust(-90, 100, 255, 60), 99);
    assert_eq!(Curve::adjust(-119, 119, 255, 60), 118);
    assert_eq!(Curve::adjust(-120, 120, 255, 60), 118);
}

#[test]
fn short_distance_still_moves() {
    assert_eq!(Curve::adjust(30, 10, 255, 60), 11);
    assert_eq!(Curve::adjust(-1, 10, 255, 60), 9);
    assert_eq!(Curve::adjust(0, 10, 255, 60), 10);
}

#[test]
fn step_saturates_at_device_range() {
    assert_eq!(Curve::adjust(100, 250, 255, 1), 255);
    assert_eq!(Curve::adjust(-100, 5, 255, 1), 0);
    assert_eq!(Curve::adjust(i64::MIN, 5, 255, 1), 0);
    assert_eq!(Curve::adjust(i64::MAX, 5, u32::MAX, 1), u32::MAX);
    assert_eq!(Curve::adjust(0, 300, 255, 1), 255);
}

#[test]
fn convergence_bound_holds_for_many_starts() {
    for fps in 1..=8u8 {
        for start in 0..=40u32 {
            for target in 0..=40u32 {
                let mut v = start;
                let bound = if target > start { target - start } else { start - target };
                for _ in 0..bound {
                    v = Curve::adjust(target as i64 - v as i64, v, 40, fps);
                    assert!(v <= 40);
                }
                assert_eq!(v, target);
            }
        }
    }
}
