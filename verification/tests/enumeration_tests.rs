use bus_exporter::devices::AddressMode;
use bus_exporter::enumeration::{resolve_dynamic_address, SysfsDevice};

fn dev(path: &str, pid: Option<&str>, dcr: Option<&str>, addr: Option<&str>) -> SysfsDevice {
    SysfsDevice {
        path: path.to_string(),
        pid: pid.map(|s| s.to_string()),
        dcr: dcr.map(|s| s.to_string()),
        dynamic_address: addr.map(|s| s.to_string()),
    }
}

fn bus() -> Vec<SysfsDevice> {
    vec![
        dev("/sys/bus/i3c/devices/0-b", Some("0x0123456789AB\n"), Some("temperature-sensor\n"), Some("0x0a\n")),
        dev("/sys/bus/i3c/devices/0-a", Some("0x0000000000FF\n"), Some("temperature-sensor\n"), Some("0x09\n")),
        dev("/sys/bus/i3c/devices/0-c", None, Some("humidity\n"), Some("0x0b\n")),
    ]
}

#[test]
fn static_mode_needs_no_enumeration() {
    assert_eq!(resolve_dynamic_address(&AddressMode::Static(0x30), &Vec::new()), Ok(0x30));
}

#[test]
fn pid_is_compared_lowercased_without_prefix() {
    let mode = AddressMode::Pid("0x0123456789ab".to_string());
    assert_eq!(resolve_dynamic_address(&mode, &bus()), Ok(0x0a));
    let upper = AddressMode::Pid("0123456789AB".to_string());
    assert_eq!(resolve_dynamic_address(&upper, &bus()), Ok(0x0a));
}

#[test]
fn unknown_pid_is_reported() {
    let mode = AddressMode::Pid("0xDEADBEEF".to_string());
    assert_eq!(resolve_dynamic_address(&mode, &bus()), Err("no I3C device found with PID 0xDEADBEEF".to_string()));
}

#[test]
fn pid_match_without_readable_address_is_skipped() {
    let devices = vec![
        dev("/sys/bus/i3c/devices/0-a", Some("0x01"), None, None),
        dev("/sys/bus/i3c/devices/0-b", Some("0x01"), None, Some("0x2f")),
    ];
    assert_eq!(resolve_dynamic_address(&AddressMode::Pid("0x01".to_string()), &devices), Ok(0x2f));
}

#[test]
fn device_class_instances_follow_path_order() {
    let first = AddressMode::DeviceClass { class: "temperature-sensor".to_string(), instance: 0 };
    let second = AddressMode::DeviceClass { class: "temperature-sensor".to_string(), instance: 1 };
    assert_eq!(resolve_dynamic_address(&first, &bus()), Ok(0x09));
    assert_eq!(resolve_dynamic_address(&second, &bus()), Ok(0x0a));
}

#[test]
fn missing_class_instance_is_reported() {
    let mode = AddressMode::DeviceClass { class: "humidity".to_string(), instance: 1 };
    assert_eq!(
        resolve_dynamic_address(&mode, &bus()),
        Err("no I3C device found for class 'humidity' instance 1".to_string())
    );
}

#[test]
fn unreadable_class_address_is_reported() {
    let devices = vec![dev("/sys/bus/i3c/devices/0-a", None, Some("adc"), None)];
    let mode = AddressMode::DeviceClass { class: "adc".to_string(), instance: 0 };
    assert_eq!(resolve_dynamic_address(&mode, &devices), Err("reading dynamic_address".to_string()));
}

#[test]
fn address_text_errors_read_like_integer_parsing() {
    let mode = AddressMode::DeviceClass { class: "adc".to_string(), instance: 0 };
    let with = |text: &str| vec![dev("/sys/bus/i3c/devices/0-a", None, Some("adc"), Some(text))];
    assert_eq!(resolve_dynamic_address(&mode, &with(" 0x7f ")), Ok(0x7f));
    assert_eq!(resolve_dynamic_address(&mode, &with("+1F")), Ok(0x1f));
    assert_eq!(
        resolve_dynamic_address(&mode, &with("0x")),
        Err("cannot parse integer from empty string".to_string())
    );
    assert_eq!(resolve_dynamic_address(&mode, &with("0xzz")), Err("invalid digit found in string".to_string()));
    assert_eq!(
        resolve_dynamic_address(&mode, &with("0x100")),
        Err("number too large to fit in target type".to_string())
    );
    for text in ["0x7f", "+", "-1", "fff", "12", "0x0x10"] {
        let expected = u8::from_str_radix(text.trim().trim_start_matches("0x"), 16).map_err(|e| e.to_string());
        assert_eq!(resolve_dynamic_address(&mode, &with(text)), expected, "text {text:?}");
    }
}

#[test]
fn class_numbering_does_not_depend_on_listing_order() {
    let mut reversed = bus();
    reversed.reverse();
    for instance in 0..3u8 {
        let mode = AddressMode::DeviceClass { class: "temperature-sensor".to_string(), instance };
        assert_eq!(resolve_dynamic_address(&mode, &reversed), resolve_dynamic_address(&mode, &bus()));
    }
}
