use vstd::prelude::*;

use crate::control::Settings;
use crate::curve::{domain_max, valid_points, zip_points, Curve};
use crate::error::Error;

verus! {

/// Smoothing steps per second when none is configured.
pub const DEFAULT_FPS: u8 = 60;

/// Milliseconds between sensor samples when none is configured.
pub const DEFAULT_SAMPLE_FREQUENCY: u16 = 1000;

/// Samples in the running average when none is configured.
pub const DEFAULT_SAMPLE_SIZE: u8 = 10;

/// Seconds to let a manual change settle when none is configured.
pub const DEFAULT_MANUAL_ADJUST_WAIT: u64 = 10;

/// Brightness of the darkest point of a fresh curve.
pub const MIN_BRIGHTNESS: u32 = 1;

/// `o`'s value, or `d` when it has none.
pub open spec fn or_default<T>(o: Option<T>, d: T) -> T {
    match o {
        Some(v) => v,
        None => d,
    }
}

/// The persisted configuration: device locations and ranges, timing, and the
/// learned curve.
pub struct Config {
    pub device_path: String,
    pub device_max_path: Option<String>,
    pub device_max: Option<u32>,
    pub sensor_path: String,
    pub sensor_max_path: Option<String>,
    pub sensor_max: Option<u32>,
    pub fps: Option<u8>,
    pub sample_frequency: Option<u16>,
    pub sample_size: Option<u8>,
    pub manual_adjust_wait: Option<u64>,
    pub curve_keys: Option<Vec<u32>>,
    pub curve_values: Option<Vec<u32>>,
}

impl Config {
    /// The timing settings, with defaults for what is absent. A rate of zero
    /// steps per second, or an empty sample window, is refused.
    pub fn settings(&self) -> (r: Result<Settings, Error>)
        ensures
            ({
                let fps = or_default(self.fps, DEFAULT_FPS);
                let sample_size = or_default(self.sample_size, DEFAULT_SAMPLE_SIZE);
                &&& (fps == 0 || sample_size == 0) <==> r is Err
                &&& r is Err ==> r == Err::<Settings, Error>(Error::Config)
                &&& r is Ok ==> r == Ok::<Settings, Error>(
                    Settings {
                        fps,
                        sample_frequency: or_default(
                            self.sample_frequency,
                            DEFAULT_SAMPLE_FREQUENCY,
                        ),
                        sample_size,
                        manual_adjust_wait: or_default(
                            self.manual_adjust_wait,
                            DEFAULT_MANUAL_ADJUST_WAIT,
                        ),
                    },
                )
            }),
    {
        let fps = match self.fps {
            Some(v) => v,
            None => DEFAULT_FPS,
        };
        let sample_frequency = match self.sample_frequency {
            Some(v) => v,
            None => DEFAULT_SAMPLE_FREQUENCY,
        };
        let sample_size = match self.sample_size {
            Some(v) => v,
            None => DEFAULT_SAMPLE_SIZE,
        };
        let manual_adjust_wait = match self.manual_adjust_wait {
            Some(v) => v,
            None => DEFAULT_MANUAL_ADJUST_WAIT,
        };
        if fps == 0 || sample_size == 0 {
            return Err(Error::Config);
        }
        Ok(Settings { fps, sample_frequency, sample_size, manual_adjust_wait })
    }

    /// The curve to start from: the persisted points when both keys and values
    /// are present, else the two points `(0, MIN_BRIGHTNESS)` and
    /// `(sensor_max, device_max)`.
    pub fn initial_curve(&self, sensor_max: u32, device_max: u32) -> (r: Result<Curve, Error>)
        ensures
            r is Err ==> r == Err::<Curve, Error>(Error::Config),
            match (self.curve_keys, self.curve_values) {
                (Some(k), Some(v)) => {
                    &&& (k@.len() == v@.len() && valid_points(zip_points(k@, v@)) && domain_max(
                        zip_points(k@, v@),
                    ) == sensor_max) <==> r is Ok
                    &&& r matches Ok(c) ==> c@ == zip_points(k@, v@)
                },
                _ => {
                    &&& sensor_max == 0 <==> r is Err
                    &&& r matches Ok(c) ==> c@ == seq![(0u32, MIN_BRIGHTNESS), (sensor_max, device_max)]
                },
            },
    {
        if let Some(k) = &self.curve_keys {
            if let Some(v) = &self.curve_values {
                return Curve::from_points(k, v, sensor_max);
            }
        }
        Curve::new(sensor_max, MIN_BRIGHTNESS, device_max)
    }

    /// Replaces the stored curve by `keys` and `values`, leaving the rest as is.
    pub fn set_curve(&mut self, keys: Vec<u32>, values: Vec<u32>)
        ensures
            final(self).curve_keys == Some(keys),
            final(self).curve_values == Some(values),
            final(self).device_path == old(self).device_path,
            final(self).device_max_path == old(self).device_max_path,
            final(self).device_max == old(self).device_max,
            final(self).sensor_path == old(self).sensor_path,
            final(self).sensor_max_path == old(self).sensor_max_path,
            final(self).sensor_max == old(self).sensor_max,
            final(self).fps == old(self).fps,
            final(self).sample_frequency == old(self).sample_frequency,
            final(self).sample_size == old(self).sample_size,
            final(self).manual_adjust_wait == old(self).manual_adjust_wait,
    {
        self.curve_keys = Some(keys);
        self.curve_values = Some(values);
    }
}

} // verus!
