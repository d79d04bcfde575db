//! Ambient-light-adaptive backlight control: a brightness curve over sensor
//! readings, the smoothing step that animates the backlight toward the curve,
//! the running average of the sensor, and the per-tick decisions of the
//! control loop.

pub mod config;
pub mod control;
pub mod curve;
pub mod devices;
pub mod error;
pub mod sampler;
pub mod smooth;
