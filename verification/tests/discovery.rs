use rslight::discovery::{get_controllers, get_path, DeviceEntry};
use rslight::errors::ConfigError;

fn entry(name: &str, path: &str) -> DeviceEntry {
    DeviceEntry { name: String::from(name), path: String::from(path) }
}

#[test]
fn empty_scan_is_a_configuration_error() {
    assert_eq!(get_controllers(Vec::new()).unwrap_err(), ConfigError::NoDevices);
}

#[test]
fn two_roots_merge_into_one_mapping() {
    // two entries under the first root, one under the second
    let found = vec![
        entry("edp", "/a/edp"),
        entry("acpi", "/a/acpi"),
        entry("kbd", "/b/kbd"),
    ];
    let (default, map) = get_controllers(found).unwrap();
    assert_eq!(default, "edp");
    assert_eq!(map.len(), 3);
    assert_eq!(get_path(&map, &String::from("edp")).unwrap(), "/a/edp");
    assert_eq!(get_path(&map, &String::from("acpi")).unwrap(), "/a/acpi");
    assert_eq!(get_path(&map, &String::from("kbd")).unwrap(), "/b/kbd");
    assert!(get_path(&map, &String::from("none")).is_none());
}

#[test]
fn default_is_first_entry_of_the_scan() {
    let found = vec![entry("acpi", "/a/acpi"), entry("edp", "/a/edp")];
    let (default, _) = get_controllers(found).unwrap();
    assert_eq!(default, "acpi");
}

#[test]
fn colliding_name_keeps_the_later_path() {
    let found = vec![
        entry("dev", "/a/dev"),
        entry("other", "/a/other"),
        entry("dev", "/b/dev"),
    ];
    let (default, map) = get_controllers(found).unwrap();
    assert_eq!(default, "dev");
    assert_eq!(map.len(), 2);
    assert_eq!(get_path(&map, &String::from("dev")).unwrap(), "/b/dev");
    assert_eq!(get_path(&map, &String::from("other")).unwrap(), "/a/other");
}

#[test]
fn listing_keeps_first_occurrence_order() {
    let found = vec![
        entry("edp", "/a/edp"),
        entry("acpi", "/a/acpi"),
        entry("edp", "/b/edp"),
        entry("kbd", "/b/kbd"),
    ];
    let (_, map) = get_controllers(found).unwrap();
    let names: Vec<&str> = map.iter().map(|e| e.name.as_str()).collect();
    assert_eq!(names, ["edp", "acpi", "kbd"]);
    assert_eq!(get_path(&map, &String::from("edp")).unwrap(), "/b/edp");
}

#[test]
fn single_device_scan() {
    let (default, map) = get_controllers(vec![entry("kbd", "/b/kbd")]).unwrap();
    assert_eq!(default, "kbd");
    assert_eq!(map.len(), 1);
    assert_eq!(get_path(&map, &String::from("kbd")).unwrap(), "/b/kbd");
}
