//! The three brightness-controller strategies.
//!
//! Each controller is bound to one [`Device`] snapshot and translates its own
//! user-facing unit into the device's raw range.  Setting a value never
//! touches the device before validation: a successful `set_brightness`
//! returns the raw value the caller must write to the `brightness` file,
//! and an error returns no write value at all.

use vstd::prelude::*;

use crate::device::Device;
use crate::errors::BrightnessError;
use crate::logmath::{log_from_raw, is_log_raw_target, log_percent, log_raw_target};

verus! {

/// The outcome the shared range check assigns to `value` against `max`:
/// too-high wins over too-low, and both errors carry the offending numbers.
pub open spec fn spec_validate(value: i32, max: i32) -> Result<(), BrightnessError> {
    if value > max {
        Err(BrightnessError::TooHigh { value, max })
    } else if value < 0 {
        Err(BrightnessError::TooLow { value })
    } else {
        Ok(())
    }
}

/// The range check every controller runs, in its own unit space, before any
/// write value is produced: accepts exactly `0 <= value <= max`.
pub fn check_brightness_value(value: i32, max: i32) -> (r: Result<(), BrightnessError>)
    ensures
        r == spec_validate(value, max),
        r is Ok <==> 0 <= value <= max,
{
    if value > max {
        Err(BrightnessError::TooHigh { value, max })
    } else if value < 0 {
        Err(BrightnessError::TooLow { value })
    } else {
        Ok(())
    }
}

/// Operates directly in the device's native integer range `[0, max]`.
pub struct RawController {
    /// The snapshot of the device this controller is bound to.
    pub device: Device,
}

/// The device state a successful raw write of `value` leaves behind.
pub open spec fn raw_set_result(d: Device, value: i32) -> Device {
    Device { brightness: value, max_brightness: d.max_brightness }
}

impl RawController {
    /// Binds a raw controller to one device snapshot.
    pub fn new(device: Device) -> (r: Self)
        ensures
            r.device == device,
    {
        RawController { device }
    }

    /// The current raw brightness.
    pub fn get_brightness(&self) -> (r: i32)
        ensures
            r == self.device.brightness,
    {
        self.device.brightness
    }

    /// The device's raw ceiling.
    pub fn get_max_brightness(&self) -> (r: i32)
        ensures
            r == self.device.max_brightness,
    {
        self.device.max_brightness
    }

    /// Validates `value` against the device ceiling and, on success, applies
    /// it to the snapshot and returns it as the raw value to write.
    ///
    /// On an error the snapshot is untouched and no write value exists, so a
    /// caller cannot reach the device file with an out-of-range value.
    pub fn set_brightness(&mut self, value: i32) -> (r: Result<i32, BrightnessError>)
        ensures
            r is Ok <==> 0 <= value <= old(self).device.max_brightness,
            r is Ok ==> r->Ok_0 == value && final(self).device == raw_set_result(
                old(self).device,
                value,
            ),
            r is Err ==> *final(self) == *old(self) && Err::<(), BrightnessError>(r->Err_0)
                == spec_validate(value, old(self).device.max_brightness),
            old(self).device.well_formed() ==> final(self).device.well_formed(),
    {
        match check_brightness_value(value, self.device.max_brightness) {
            Ok(()) => {
                self.device = Device { brightness: value, max_brightness: self.device.max_brightness };
                Ok(value)
            },
            Err(e) => Err(e),
        }
    }
}

/// The percentage the linear scale shows for a raw value: truncation of
/// `brightness * 100 / max`, with an empty raw range pinned to 0.
pub open spec fn lin_from_raw(brightness: int, max: int) -> int {
    if max <= 0 {
        0
    } else {
        brightness * 100 / max
    }
}

/// The raw value a linear percentage stands for: the product is formed
/// before the division, so no precision is lost to an intermediate quotient.
pub open spec fn lin_to_raw(value: int, max: int) -> int {
    value * max / 100
}

/// Wraps a raw controller to expose a linear 0–100 percentage scale over
/// the device's raw range.
pub struct LinController {
    /// The raw controller every operation is delegated to.
    pub parent_controller: RawController,
}

impl LinController {
    /// Binds a linear controller to one device snapshot.
    pub fn new(device: Device) -> (r: Self)
        ensures
            r.parent_controller.device == device,
    {
        LinController { parent_controller: RawController::new(device) }
    }

    /// The current brightness as a linear percentage of the raw ceiling.
    pub fn get_brightness(&self) -> (r: i32)
        requires
            self.parent_controller.device.well_formed(),
        ensures
            r == lin_from_raw(
                self.parent_controller.device.brightness as int,
                self.parent_controller.device.max_brightness as int,
            ),
            0 <= r <= 100,
    {
        let d = &self.parent_controller.device;
        if d.max_brightness <= 0 {
            0
        } else {
            let scaled: u64 = (d.brightness as u64) * 100;
            let percent: u64 = scaled / (d.max_brightness as u64);
            proof {
                assert((d.brightness as int) * 100 / (d.max_brightness as int) <= 100
                    && (d.brightness as int) * 100 / (d.max_brightness as int) >= 0)
                    by (nonlinear_arith)
                    requires
                        0 <= d.brightness as int <= d.max_brightness as int,
                        0 < d.max_brightness as int,
                ;
            }
            percent as i32
        }
    }

    /// The ceiling of the linear scale: the constant percentage 100.
    pub fn get_max_brightness(&self) -> (r: i32)
        ensures
            r == 100,
    {
        100
    }

    /// Validates `value` on the percentage scale and, on success, applies
    /// the converted value `value * max / 100` through the raw controller
    /// and returns it as the raw value to write.
    pub fn set_brightness(&mut self, value: i32) -> (r: Result<i32, BrightnessError>)
        requires
            old(self).parent_controller.device.well_formed(),
        ensures
            r is Ok <==> 0 <= value <= 100,
            r is Ok ==> r->Ok_0 == lin_to_raw(
                value as int,
                old(self).parent_controller.device.max_brightness as int,
            ) && final(self).parent_controller.device == raw_set_result(
                old(self).parent_controller.device,
                r->Ok_0,
            ),
            r is Err ==> *final(self) == *old(self) && Err::<(), BrightnessError>(r->Err_0)
                == spec_validate(value, 100),
            final(self).parent_controller.device.well_formed(),
    {
        let ghost m: int = self.parent_controller.device.max_brightness as int;
        match check_brightness_value(value, 100) {
            Ok(()) => {
                let max = self.parent_controller.device.max_brightness;
                proof {
                    assert((value as int) * m <= 100 * m && 0 <= (value as int) * m
                        && (value as int) * m / 100 <= m && (value as int) * m / 100 >= 0)
                        by (nonlinear_arith)
                        requires
                            0 <= value as int <= 100,
                            0 <= m,
                    ;
                }
                let target: u64 = (value as u64) * (max as u64) / 100;
                let target_i32: i32 = target as i32;
                self.parent_controller.set_brightness(target_i32)
            },
            Err(e) => Err(e),
        }
    }
}

/// Wraps a raw controller to expose a 0–100 percentage scale that follows
/// the logarithm of the raw range, approximating perceived brightness.
/// The conversions are the exact integer values of the logarithmic
/// formulas, computed over big-integer powers; raw value 0, whose
/// logarithm is undefined, is pinned to 0.
pub struct LogController {
    /// The raw controller every operation is delegated to.
    pub parent_controller: RawController,
}

impl LogController {
    /// Binds a logarithmic controller to one device snapshot.
    pub fn new(device: Device) -> (r: Self)
        ensures
            r.parent_controller.device == device,
    {
        LogController { parent_controller: RawController::new(device) }
    }

    /// The current brightness as a logarithmic percentage of the raw range:
    /// exactly `floor(100 * log(brightness) / log(max))`.
    pub fn get_brightness(&self) -> (r: i32)
        requires
            self.parent_controller.device.well_formed(),
        ensures
            r == log_from_raw(
                self.parent_controller.device.brightness as int,
                self.parent_controller.device.max_brightness as int,
            ),
            0 <= r <= 100,
    {
        let d = &self.parent_controller.device;
        if d.brightness <= 0 {
            0
        } else if d.brightness >= d.max_brightness {
            100
        } else {
            log_percent(d.brightness as u32, d.max_brightness as u32) as i32
        }
    }

    /// The ceiling of the logarithmic scale: the constant percentage 100.
    pub fn get_max_brightness(&self) -> (r: i32)
        ensures
            r == 100,
    {
        100
    }

    /// Validates `value` on the percentage scale and, on success, applies
    /// the raw value `trunc(max^(value/100))` — the largest raw whose
    /// hundredth power does not exceed `max^value` — through the raw
    /// controller and returns it as the raw value to write.
    pub fn set_brightness(&mut self, value: i32) -> (r: Result<i32, BrightnessError>)
        requires
            old(self).parent_controller.device.well_formed(),
        ensures
            r is Ok <==> 0 <= value <= 100,
            r is Ok ==> is_log_raw_target(
                r->Ok_0 as int,
                value as int,
                old(self).parent_controller.device.max_brightness as int,
            ) && 0 <= r->Ok_0 <= old(self).parent_controller.device.max_brightness
                && final(self).parent_controller.device == raw_set_result(
                    old(self).parent_controller.device,
                    r->Ok_0,
                ),
            r is Err ==> *final(self) == *old(self) && Err::<(), BrightnessError>(r->Err_0)
                == spec_validate(value, 100),
            final(self).parent_controller.device.well_formed(),
    {
        match check_brightness_value(value, 100) {
            Ok(()) => {
                let max = self.parent_controller.device.max_brightness;
                let w: i32;
                if max <= 0 {
                    w = 0;
                } else {
                    w = log_raw_target(value as u32, max as u32) as i32;
                }
                self.parent_controller.set_brightness(w)
            },
            Err(e) => Err(e),
        }
    }
}

/// The target of a relative increase: the current value plus the step,
/// clamped to the controller's ceiling so the request stays settable.
pub fn clamped_increase(current: i32, delta: i32, max: i32) -> (r: i32)
    requires
        0 <= current,
    ensures
        r as int == if current + delta > max {
            max as int
        } else {
            current + delta
        },
{
    let sum: i64 = (current as i64) + (delta as i64);
    if sum > (max as i64) {
        max
    } else {
        sum as i32
    }
}

/// The target of a relative decrease: the current value minus the step,
/// clamped to zero from below.
pub fn clamped_decrease(current: i32, delta: i32) -> (r: i32)
    requires
        0 <= current,
        current - delta <= 0x7fff_ffff,
    ensures
        r as int == if current - delta < 0 {
            0
        } else {
            current - delta
        },
{
    let diff: i64 = (current as i64) - (delta as i64);
    if diff < 0 {
        0
    } else {
        diff as i32
    }
}

/// The raw round trip: writing an in-range raw value and reading it back
/// yields the value unchanged, with the ceiling untouched.
pub proof fn lemma_raw_round_trip(d: Device, value: i32)
    requires
        d.well_formed(),
        0 <= value <= d.max_brightness,
    ensures
        raw_set_result(d, value).brightness == value,
        raw_set_result(d, value).max_brightness == d.max_brightness,
        raw_set_result(d, value).well_formed(),
{
}

} // verus!
