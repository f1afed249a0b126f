//! Error taxonomy of the library, and the mapping of each error class to
//! the conventional process exit code it terminates with.

use vstd::prelude::*;

verus! {

/// A requested brightness value fell outside the valid range of the
/// controller it was handed to, in that controller's own unit.
///
/// Validation always precedes the device-file write, so when a controller
/// reports one of these no write value is produced at all.
#[derive(Clone, Copy, Debug, PartialEq, Eq, Structural)]
pub enum BrightnessError {
    /// The value exceeds the controller's maximum; carries both numbers.
    TooHigh { value: i32, max: i32 },
    /// The value is negative; carries the offending value.
    TooLow { value: i32 },
}

/// The device scan found nothing to control: an unrecoverable
/// configuration error for this tool.
#[derive(Clone, Copy, Debug, PartialEq, Eq, Structural)]
pub enum ConfigError {
    /// Neither scan root held a device directory.
    NoDevices,
}

/// Relies on `exitcode::DATAERR`: the sysexits "input data was incorrect"
/// code, the constant 65.
#[verifier::external_body]
fn dataerr_code() -> (r: i32)
    ensures
        r == 65,
{
    exitcode::DATAERR
}

impl BrightnessError {
    /// The process exit status a value-range error terminates with: the
    /// data-error code of the sysexits convention.
    pub fn exit_code(&self) -> (r: i32)
        ensures
            r == 65,
    {
        dataerr_code()
    }
}

} // verus!
