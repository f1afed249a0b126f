use rslight::controllers::{LinController, RawController};
use rslight::device::Device;
use rslight::errors::BrightnessError;
use rslight::parse::{format_raw_value, parse_raw_value};

#[test]
fn parses_plain_decimal() {
    assert_eq!(parse_raw_value(b"128"), Some(128));
    assert_eq!(parse_raw_value(b"0"), Some(0));
    assert_eq!(parse_raw_value(b"00128"), Some(128));
}

#[test]
fn parses_with_surrounding_whitespace() {
    assert_eq!(parse_raw_value(b"128\n"), Some(128));
    assert_eq!(parse_raw_value(b" 42 \t\n"), Some(42));
    assert_eq!(parse_raw_value(b"\n\n7"), Some(7));
}

#[test]
fn parses_signs() {
    assert_eq!(parse_raw_value(b"-5"), Some(-5));
    assert_eq!(parse_raw_value(b"+7\n"), Some(7));
    assert_eq!(parse_raw_value(b"-0"), Some(0));
}

#[test]
fn rejects_malformed_text() {
    assert_eq!(parse_raw_value(b""), None);
    assert_eq!(parse_raw_value(b"   \n"), None);
    assert_eq!(parse_raw_value(b"-"), None);
    assert_eq!(parse_raw_value(b"+"), None);
    assert_eq!(parse_raw_value(b"12a"), None);
    assert_eq!(parse_raw_value(b"a12"), None);
    assert_eq!(parse_raw_value(b"1 2"), None);
    assert_eq!(parse_raw_value(b"--4"), None);
}

#[test]
fn honours_the_i32_bounds() {
    assert_eq!(parse_raw_value(b"2147483647"), Some(i32::MAX));
    assert_eq!(parse_raw_value(b"2147483648"), None);
    assert_eq!(parse_raw_value(b"-2147483648"), Some(i32::MIN));
    assert_eq!(parse_raw_value(b"-2147483649"), None);
    assert_eq!(parse_raw_value(b"99999999999999999999999999"), None);
}

#[test]
fn formats_canonical_decimal() {
    assert_eq!(format_raw_value(0), b"0");
    assert_eq!(format_raw_value(63), b"63");
    assert_eq!(format_raw_value(255), b"255");
    assert_eq!(format_raw_value(i32::MAX), b"2147483647");
}

#[test]
fn format_then_parse_round_trips() {
    for v in [0, 1, 9, 10, 63, 100, 128, 255, 4095, i32::MAX] {
        assert_eq!(parse_raw_value(&format_raw_value(v)), Some(v));
    }
}

#[test]
fn fixture_end_to_end() {
    // a device whose files hold max_brightness=255 and brightness=128
    let max = parse_raw_value(b"255\n").unwrap();
    let cur = parse_raw_value(b"128\n").unwrap();
    let dev = Device::new(cur, max).unwrap();

    // --type lin --get prints 50
    assert_eq!(LinController::new(dev).get_brightness(), 50);

    // --type lin --set 25 writes 63 to the brightness file
    let mut lin = LinController::new(dev);
    let written = lin.set_brightness(25).unwrap();
    assert_eq!(written, 63);
    assert_eq!(format_raw_value(written), b"63");

    // --type raw --set 300 is a data error and writes nothing
    let mut raw = RawController::new(dev);
    let e = raw.set_brightness(300).unwrap_err();
    assert_eq!(e, BrightnessError::TooHigh { value: 300, max: 255 });
    assert_eq!(e.exit_code(), 65);
    assert_eq!(raw.get_brightness(), 128);
}
