//! The model of one controllable device: a snapshot of the two integer
//! attributes its sysfs directory exposes.

use vstd::prelude::*;

verus! {

/// One device's brightness state, as read from its `brightness` and
/// `max_brightness` attribute files.
///
/// The device files are owned by the kernel, not by this library; a `Device`
/// value is the snapshot a caller took of them.  A snapshot taken from a sane
/// device satisfies [`Device::well_formed`].
#[derive(Clone, Copy, Debug, PartialEq, Eq, Structural)]
pub struct Device {
    /// Current raw brightness, the contents of the `brightness` file.
    pub brightness: i32,
    /// Device ceiling, the contents of the `max_brightness` file.
    pub max_brightness: i32,
}

impl Device {
    /// The resting invariant of a device: `0 <= brightness <= max_brightness`.
    pub open spec fn well_formed(self) -> bool {
        0 <= self.brightness <= self.max_brightness
    }

    /// Builds a device snapshot from the two raw values, rejecting a pair
    /// that breaks the resting invariant.
    pub fn new(brightness: i32, max_brightness: i32) -> (r: Option<Device>)
        ensures
            r is Some <==> 0 <= brightness <= max_brightness,
            r is Some ==> r->0 == (Device { brightness, max_brightness }),
            r is Some ==> r->0.well_formed(),
    {
        if 0 <= brightness && brightness <= max_brightness {
            Some(Device { brightness, max_brightness })
        } else {
            None
        }
    }
}

} // verus!
