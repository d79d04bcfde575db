use std::path::PathBuf;

use prescurve::control::{Action, Controller, Phase, Settings};
use prescurve::curve::Curve;
use prescurve::devices::Backlight;
use prescurve::error::Error;

fn settings() -> Settings {
    Settings { fps: 60, sample_frequency: 1000, sample_size: 10, manual_adjust_wait: 10 }
}

fn controller(requested: u32) -> Controller {
    let curve = Curve::new(100, 1, 100).ok().unwrap();
    let backlight = Backlight { path: PathBuf::from("/sys/class/backlight/x/brightness"), max: 100, requested };
    Controller::new(curve, backlight, settings()).ok().unwrap()
}

#[test]
fn zero_rate_is_refused() {
    let curve = Curve::new(100, 1, 100).ok().unwrap();
    let backlight = Backlight { path: PathBuf::from("b"), max: 100, requested: 1 };
    let s = Settings { fps: 0, ..settings() };
    assert!(matches!(Controller::new(curve, backlight, s), Err(Error::Config)));
}

#[test]
fn tracking_steps_toward_target() {
    let mut c = controller(1);
    match c.handle(1, 50) {
        Ok(Action::Write { value, wait_ms }) => {
            assert_eq!(value, 2);
            assert_eq!(wait_ms, 16);
        }
        other => panic!("unexpected {:?}", other),
    }
    assert_eq!(c.backlight().requested, 2);
    match c.handle(2, 0) {
        Ok(Action::Write { value, .. }) => assert_eq!(value, 1),
        other => panic!("unexpected {:?}", other),
    }
    assert_eq!(c.phase(), Phase::Tracking);
}

#[test]
fn at_target_waits_a_full_window() {
    let mut c = controller(1);
    match c.handle(1, 0) {
        Ok(Action::Idle { wait_ms }) => assert_eq!(wait_ms, 10_000),
        other => panic!("unexpected {:?}", other),
    }
    assert_eq!(c.backlight().requested, 1);
}

#[test]
fn average_past_sensor_max_is_out_of_range() {
    let mut c = controller(1);
    assert!(matches!(c.handle(1, 101), Err(Error::OutOfRange)));
    assert_eq!(c.backlight().requested, 1);
    assert_eq!(c.phase(), Phase::Tracking);
}

#[test]
fn blank_screen_during_settle_is_discarded() {
    let mut c = controller(1);
    match c.handle(70, 50) {
        Ok(Action::Settle { wait_secs }) => assert_eq!(wait_secs, 10),
        other => panic!("unexpected {:?}", other),
    }
    assert_eq!(c.phase(), Phase::Settling);
    assert!(matches!(c.handle(0, 50), Ok(Action::Discard)));
    assert_eq!(c.phase(), Phase::Tracking);
    assert_eq!(c.curve().points(), &vec![(0, 1), (100, 100)]);
    assert_eq!(c.backlight().requested, 1);
}

#[test]
fn settled_change_is_learned_and_persisted() {
    let mut c = controller(1);
    assert!(matches!(c.handle(70, 50), Ok(Action::Settle { .. })));
    match c.handle(70, 50) {
        Ok(Action::Persist { keys, values }) => {
            assert_eq!(keys, vec![0, 50, 100]);
            assert_eq!(values, vec![1, 70, 100]);
        }
        other => panic!("unexpected {:?}", other),
    }
    assert_eq!(c.backlight().requested, 70);
    assert_eq!(c.phase(), Phase::Tracking);
    assert_eq!(c.curve().lookup(50), Ok(70));
    assert!(matches!(c.handle(70, 50), Ok(Action::Idle { .. })));
}

#[test]
fn settled_change_outside_domain_is_out_of_range() {
    let mut c = controller(1);
    assert!(matches!(c.handle(70, 150), Ok(Action::Settle { .. })));
    assert!(matches!(c.handle(70, 150), Err(Error::OutOfRange)));
    assert_eq!(c.phase(), Phase::Settling);
    assert_eq!(c.curve().points(), &vec![(0, 1), (100, 100)]);
}
