use rslight::controllers::{clamped_decrease, clamped_increase, check_brightness_value,
    LinController, LogController, RawController};
use rslight::device::Device;
use rslight::errors::BrightnessError;

fn device(brightness: i32, max_brightness: i32) -> Device {
    Device::new(brightness, max_brightness).unwrap()
}

#[test]
fn device_new_accepts_well_formed() {
    let d = device(128, 255);
    assert_eq!(d.brightness, 128);
    assert_eq!(d.max_brightness, 255);
}

#[test]
fn device_new_rejects_inverted_range() {
    assert!(Device::new(300, 255).is_none());
    assert!(Device::new(-1, 255).is_none());
}

#[test]
fn check_value_accepts_range() {
    assert_eq!(check_brightness_value(0, 255), Ok(()));
    assert_eq!(check_brightness_value(255, 255), Ok(()));
}

#[test]
fn check_value_rejects_high_with_both_numbers() {
    assert_eq!(
        check_brightness_value(300, 255),
        Err(BrightnessError::TooHigh { value: 300, max: 255 })
    );
}

#[test]
fn check_value_rejects_low_with_value() {
    assert_eq!(
        check_brightness_value(-3, 255),
        Err(BrightnessError::TooLow { value: -3 })
    );
}

#[test]
fn raw_round_trip() {
    // every in-range raw value written comes back unchanged
    for r in [0, 1, 127, 254, 255] {
        let mut c = RawController::new(device(128, 255));
        assert_eq!(c.set_brightness(r), Ok(r));
        assert_eq!(c.get_brightness(), r);
        assert_eq!(c.get_max_brightness(), 255);
    }
}

#[test]
fn raw_rejects_too_high_and_leaves_device() {
    let mut c = RawController::new(device(128, 255));
    let e = c.set_brightness(300).unwrap_err();
    assert_eq!(e, BrightnessError::TooHigh { value: 300, max: 255 });
    assert_eq!(c.get_brightness(), 128);
    assert_eq!(e.exit_code(), exitcode::DATAERR);
    assert_eq!(e.exit_code(), 65);
}

#[test]
fn raw_rejects_too_low_and_leaves_device() {
    let mut c = RawController::new(device(128, 255));
    let e = c.set_brightness(-1).unwrap_err();
    assert_eq!(e, BrightnessError::TooLow { value: -1 });
    assert_eq!(c.get_brightness(), 128);
    assert_eq!(e.exit_code(), 65);
}

#[test]
fn lin_get_is_truncated_percentage() {
    let c = LinController::new(device(128, 255));
    assert_eq!(c.get_brightness(), 50);
    assert_eq!(c.get_max_brightness(), 100);
}

#[test]
fn lin_get_edges() {
    assert_eq!(LinController::new(device(0, 255)).get_brightness(), 0);
    assert_eq!(LinController::new(device(255, 255)).get_brightness(), 100);
    assert_eq!(LinController::new(device(0, 0)).get_brightness(), 0);
}

#[test]
fn lin_set_converts_percent_to_raw() {
    let mut c = LinController::new(device(128, 255));
    assert_eq!(c.set_brightness(25), Ok(63));
    assert_eq!(c.parent_controller.get_brightness(), 63);
    assert_eq!(c.parent_controller.get_max_brightness(), 255);
}

#[test]
fn lin_set_multiplies_before_dividing() {
    // 50 * 3 / 100 == 1; dividing first would floor 50/100 to 0
    let mut c = LinController::new(device(0, 3));
    assert_eq!(c.set_brightness(50), Ok(1));
    // 2 * 149 / 100 == 2
    let mut c = LinController::new(device(0, 149));
    assert_eq!(c.set_brightness(2), Ok(2));
}

#[test]
fn lin_set_rejects_out_of_scale() {
    let mut c = LinController::new(device(128, 255));
    assert_eq!(
        c.set_brightness(101),
        Err(BrightnessError::TooHigh { value: 101, max: 100 })
    );
    assert_eq!(
        c.set_brightness(-1),
        Err(BrightnessError::TooLow { value: -1 })
    );
    assert_eq!(c.parent_controller.get_brightness(), 128);
}

#[test]
fn log_get_edges() {
    assert_eq!(LogController::new(device(0, 255)).get_brightness(), 0);
    assert_eq!(LogController::new(device(255, 255)).get_brightness(), 100);
    assert_eq!(LogController::new(device(1, 1)).get_brightness(), 100);
    assert_eq!(LogController::new(device(0, 0)).get_brightness(), 0);
    assert_eq!(LogController::new(device(128, 255)).get_max_brightness(), 100);
}

#[test]
fn log_get_exact_percentage() {
    // floor(100 * log(128) / log(255)) == 87
    assert_eq!(LogController::new(device(128, 255)).get_brightness(), 87);
    // floor(100 * log(3) / log(10)) == 47
    assert_eq!(LogController::new(device(3, 10)).get_brightness(), 47);
    // floor(100 * log(15) / log(255)) == 48
    assert_eq!(LogController::new(device(15, 255)).get_brightness(), 48);
}

#[test]
fn log_get_is_monotone_over_the_raw_range() {
    let mut last = 0;
    for r in 0..=255 {
        let g = LogController::new(device(r, 255)).get_brightness();
        assert!(g >= last, "dropped at raw {}", r);
        last = g;
    }
    assert_eq!(last, 100);
}

#[test]
fn log_set_full_and_zero() {
    let mut c = LogController::new(device(128, 255));
    assert_eq!(c.set_brightness(100), Ok(255));
    assert_eq!(c.set_brightness(0), Ok(1));
    assert_eq!(c.parent_controller.get_brightness(), 1);
}

#[test]
fn log_set_truncates_the_exponential() {
    // trunc(255^(50/100)) == trunc(15.97) == 15
    let mut c = LogController::new(device(128, 255));
    assert_eq!(c.set_brightness(50), Ok(15));
    // trunc(255^(25/100)) == trunc(3.99) == 3
    let mut c = LogController::new(device(128, 255));
    assert_eq!(c.set_brightness(25), Ok(3));
    // trunc(100^(50/100)) == 10 exactly
    let mut c = LogController::new(device(0, 100));
    assert_eq!(c.set_brightness(50), Ok(10));
}

#[test]
fn log_set_rejects_out_of_scale() {
    let mut c = LogController::new(device(128, 255));
    assert_eq!(
        c.set_brightness(101),
        Err(BrightnessError::TooHigh { value: 101, max: 100 })
    );
    assert_eq!(
        c.set_brightness(-5),
        Err(BrightnessError::TooLow { value: -5 })
    );
    assert_eq!(c.parent_controller.get_brightness(), 128);
}

#[test]
fn log_set_tiny_ceiling() {
    // a ceiling of 1 pins every percentage to raw 1: trunc(1^x) == 1
    let mut c = LogController::new(device(0, 1));
    assert_eq!(c.set_brightness(99), Ok(1));
    assert_eq!(c.set_brightness(100), Ok(1));
    assert_eq!(c.set_brightness(0), Ok(1));
}

#[test]
fn increase_clamps_to_ceiling() {
    assert_eq!(clamped_increase(90, 20, 100), 100);
    assert_eq!(clamped_increase(40, 20, 100), 60);
    assert_eq!(clamped_increase(40, -50, 100), -10);
}

#[test]
fn decrease_clamps_to_zero() {
    assert_eq!(clamped_decrease(10, 20), 0);
    assert_eq!(clamped_decrease(90, 20), 70);
    assert_eq!(clamped_decrease(10, -20), 30);
}
