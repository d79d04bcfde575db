use vstd::prelude::*;

use crate::curve::{domain_max, interpolate, monotone_insert, Curve, Monotonic};
use crate::devices::Backlight;
use crate::error::Error;
use crate::smooth::{smoothed, Smooth};

verus! {

/// Timing of the control loops.
#[derive(Debug, Clone, Copy, PartialEq, Eq, Structural)]
pub struct Settings {
    /// Smoothing steps per second; also the divisor of the remaining distance.
    pub fps: u8,
    /// Milliseconds between two sensor samples.
    pub sample_frequency: u16,
    /// Number of samples in the running average.
    pub sample_size: u8,
    /// Seconds to wait for a manual change to settle before reading it.
    pub manual_adjust_wait: u64,
}

/// Where the control loop stands.
#[derive(Debug, Clone, Copy, PartialEq, Eq, Structural)]
pub enum Phase {
    /// The backlight follows the curve.
    Tracking,
    /// A change from outside was seen; the next reading is taken once it settled.
    Settling,
}

/// What the loop around the controller does next.
#[derive(Debug)]
pub enum Action {
    /// Write `value` to the backlight, then wait `wait_ms` milliseconds.
    Write { value: u32, wait_ms: u64 },
    /// The backlight is at its target: wait `wait_ms` milliseconds.
    Idle { wait_ms: u64 },
    /// A manual change was seen: wait `wait_secs` seconds, then report the reading again.
    Settle { wait_secs: u64 },
    /// The settled reading was the off value `0`: nothing was learned.
    Discard,
    /// The curve took the settled reading: store these points.
    Persist { keys: Vec<u32>, values: Vec<u32> },
}

/// The decisions of the backlight control loop, one reading at a time.
pub struct Controller {
    curve: Curve,
    backlight: Backlight,
    settings: Settings,
    phase: Phase,
}

impl Controller {
    /// The settings allow a smoothing step: at least one step per second.
    pub closed spec fn well_formed(&self) -> bool {
        self.settings.fps >= 1
    }

    pub closed spec fn curve_spec(&self) -> Curve {
        self.curve
    }

    pub closed spec fn requested_spec(&self) -> u32 {
        self.backlight.requested
    }

    pub closed spec fn max_spec(&self) -> u32 {
        self.backlight.max
    }

    pub closed spec fn settings_spec(&self) -> Settings {
        self.settings
    }

    pub closed spec fn phase_spec(&self) -> Phase {
        self.phase
    }

    /// A controller that starts out tracking `curve` with `backlight`; a rate of
    /// zero steps per second is a configuration error.
    pub fn new(curve: Curve, backlight: Backlight, settings: Settings) -> (r: Result<Controller, Error>)
        ensures
            settings.fps == 0 <==> r is Err,
            r is Err ==> r == Err::<Controller, Error>(Error::Config),
            r matches Ok(c) ==> {
                &&& c.well_formed()
                &&& c.curve_spec() == curve
                &&& c.requested_spec() == backlight.requested
                &&& c.max_spec() == backlight.max
                &&& c.settings_spec() == settings
                &&& c.phase_spec() == Phase::Tracking
            },
    {
        if settings.fps == 0 {
            return Err(Error::Config);
        }
        Ok(Controller { curve, backlight, settings, phase: Phase::Tracking })
    }

    /// The curve being followed.
    pub fn curve(&self) -> (r: &Curve)
        ensures
            *r == self.curve_spec(),
    {
        &self.curve
    }

    /// The backlight state: its range and the value last requested.
    pub fn backlight(&self) -> (r: &Backlight)
        ensures
            r.requested == self.requested_spec(),
            r.max == self.max_spec(),
    {
        &self.backlight
    }

    /// Where the loop stands.
    pub fn phase(&self) -> (r: Phase)
        ensures
            r == self.phase_spec(),
    {
        self.phase
    }

    /// One turn of the loop: `reading` is what the backlight reports now and
    /// `average` the running average of the sensor.
    ///
    /// While tracking, a reading other than the value last requested is a
    /// manual change and starts the settle wait; a device that has not yet
    /// caught up with the last write is taken as changed too. Otherwise the target is the
    /// curve at `average`; away from it, one smoothing step is written.
    ///
    /// After the settle wait, a reading of `0` (the screen blanked) is
    /// discarded. Any other reading becomes the requested value and the point
    /// `(average, reading)` is inserted into the curve, to be persisted.
    pub fn handle(&mut self, reading: u32, average: u32) -> (r: Result<Action, Error>)
        requires
            old(self).well_formed(),
        ensures
            final(self).well_formed(),
            ({
                let curve = old(self).curve_spec()@;
                let requested = old(self).requested_spec();
                let settings = old(self).settings_spec();
                let target = interpolate(curve, average as int);
                &&& final(self).settings_spec() == settings
                &&& final(self).max_spec() == old(self).max_spec()
                &&& r is Err ==> r == Err::<Action, Error>(Error::OutOfRange) && *final(self)
                    == *old(self)
                &&& old(self).phase_spec() == Phase::Tracking ==> {
                    &&& reading != requested ==> {
                        &&& r matches Ok(Action::Settle { wait_secs })
                        &&& wait_secs == settings.manual_adjust_wait
                        &&& final(self).phase_spec() == Phase::Settling
                        &&& final(self).curve_spec() == old(self).curve_spec()
                        &&& final(self).requested_spec() == requested
                    }
                    &&& reading == requested && average > domain_max(curve) ==> r is Err
                    &&& reading == requested && average <= domain_max(curve) && target != requested
                        ==> {
                        &&& r matches Ok(Action::Write { value, wait_ms })
                        &&& value == smoothed(
                            target - requested,
                            requested as int,
                            old(self).max_spec() as int,
                            settings.fps as int,
                        )
                        &&& wait_ms == 1000int / (settings.fps as int)
                        &&& final(self).requested_spec() == value
                        &&& final(self).curve_spec() == old(self).curve_spec()
                        &&& final(self).phase_spec() == Phase::Tracking
                    }
                    &&& reading == requested && average <= domain_max(curve) && target == requested
                        ==> {
                        &&& r matches Ok(Action::Idle { wait_ms })
                        &&& wait_ms == settings.sample_frequency as int
                            * settings.sample_size as int
                        &&& *final(self) == *old(self)
                    }
                }
                &&& old(self).phase_spec() == Phase::Settling ==> {
                    &&& reading == 0 ==> {
                        &&& r matches Ok(Action::Discard)
                        &&& final(self).curve_spec() == old(self).curve_spec()
                        &&& final(self).requested_spec() == requested
                        &&& final(self).phase_spec() == Phase::Tracking
                    }
                    &&& reading != 0 && average > domain_max(curve) ==> r is Err
                    &&& reading != 0 && average <= domain_max(curve) ==> {
                        &&& r matches Ok(Action::Persist { keys, values })
                        &&& final(self).curve_spec()@ == monotone_insert(
                            curve,
                            average,
                            reading,
                            domain_max(curve) as u32,
                        )
                        &&& keys@ == final(self).curve_spec()@.map_values(
                            |e: (u32, u32)| e.0,
                        )
                        &&& values@ == final(self).curve_spec()@.map_values(
                            |e: (u32, u32)| e.1,
                        )
                        &&& final(self).requested_spec() == reading
                        &&& final(self).phase_spec() == Phase::Tracking
                    }
                }
            }),
    {
        match self.phase {
            Phase::Tracking => {
                if self.backlight.changed(reading) {
                    self.phase = Phase::Settling;
                    return Ok(Action::Settle { wait_secs: self.settings.manual_adjust_wait });
                }
                let target = match self.curve.lookup(average) {
                    Ok(t) => t,
                    Err(e) => return Err(e),
                };
                let requested = self.backlight.requested;
                if target != requested {
                    let fps = self.settings.fps;
                    let value = Curve::adjust(
                        target as i64 - requested as i64,
                        requested,
                        self.backlight.max,
                        fps,
                    );
                    self.backlight.requested = value;
                    Ok(Action::Write { value, wait_ms: 1000 / fps as u64 })
                } else {
                    assert(self.settings.sample_frequency as u64 * self.settings.sample_size as u64
                        <= 0xffff * 0xff) by (nonlinear_arith)
                        requires
                            self.settings.sample_frequency <= 0xffff,
                            self.settings.sample_size <= 0xff,
                    ;
                    Ok(
                        Action::Idle {
                            wait_ms: self.settings.sample_frequency as u64
                                * self.settings.sample_size as u64,
                        },
                    )
                }
            },
            Phase::Settling => {
                if reading == 0 {
                    self.phase = Phase::Tracking;
                    return Ok(Action::Discard);
                }
                let top = self.curve.sensor_max();
                if let Err(e) = self.curve.add(average, reading, top) {
                    return Err(e);
                }
                self.backlight.requested = reading;
                self.phase = Phase::Tracking;
                Ok(Action::Persist { keys: self.curve.keys(), values: self.curve.values() })
            },
        }
    }
}

} // verus!
