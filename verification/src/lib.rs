//! Verified core of a backlight-brightness utility.
//!
//! The library models a backlight (or LED) device as the pair of integer
//! values exposed by its two sysfs attribute files, and verifies the three
//! unit-conversion strategies (raw, linear percentage, logarithmic
//! percentage) together with the validation, parsing and device-discovery
//! rules around them.  All file and terminal I/O lives outside the library,
//! which exchanges plain values with its callers.

pub mod controllers;
pub mod device;
pub mod discovery;
pub mod errors;
pub mod logmath;
pub mod parse;
