use brack::change::Percent;
use brack::cli::{collect_devices, DeviceEntry};
use brack::device::{Device, DeviceError};

fn intel_backlight() -> Result<Device, DeviceError> {
    Device::from_contents(
        "tests/backlight/intel_backlight".to_string(),
        Some("intel_backlight".to_string()),
        "1388\n",
        "388\n",
    )
}

fn value(p: &Percent) -> f32 {
    let v = p.numer as f32 / p.denom as f32;
    if p.negative {
        -v
    } else {
        v
    }
}

fn whole(n: u64) -> Percent {
    Percent { negative: false, numer: n, denom: 1 }
}

fn minus(n: u64) -> Percent {
    Percent { negative: true, numer: n, denom: 1 }
}

#[test]
fn read_intel_backlight() {
    let _dev = intel_backlight().unwrap();
}

#[test]
fn dev_percent() {
    let dev = intel_backlight().unwrap();
    println!("{}", value(&dev.percent()));
    assert!(value(&dev.percent()) == 27.95389);
}

#[test]
fn increase_percent() {
    let mut dev = intel_backlight().unwrap();
    assert!(value(&dev.percent()) == 27.95389);
    dev.change(whole(10));
    println!("{}", value(&dev.percent()));
    assert!(value(&dev.percent()) == 37.896255);
}

#[test]
fn decrease_percent() {
    let mut dev = intel_backlight().unwrap();
    assert!(value(&dev.percent()) == 27.95389);
    dev.change(minus(10));
    println!("{}", value(&dev.percent()));
    assert!(value(&dev.percent()) == 17.939482);
}

#[test]
fn read_all_devices() {
    let entries = vec![DeviceEntry {
        path: "tests/backlight/intel_backlight".to_string(),
        name: Some("intel_backlight".to_string()),
        is_dir: true,
        max_text: Some("1388\n".to_string()),
        current_text: Some("388\n".to_string()),
    }];
    let devs = collect_devices(&entries);
    assert!(devs.len() == 1);
}

fn entry(name: &str, is_dir: bool, max: Option<&str>, current: Option<&str>) -> DeviceEntry {
    DeviceEntry {
        path: format!("/sys/class/backlight/{}", name),
        name: Some(name.to_string()),
        is_dir,
        max_text: max.map(|s| s.to_string()),
        current_text: current.map(|s| s.to_string()),
    }
}

#[test]
fn listing_skips_files_and_broken_devices() {
    let entries = vec![
        entry("README", false, None, None),
        entry("acpi_video0", true, Some("abc"), Some("3")),
        entry("intel_backlight", true, Some("1388\n"), Some("388\n")),
        entry("unreadable", true, None, Some("3")),
        entry("zero", true, Some("0"), Some("0")),
        entry("notes.txt", false, Some("10"), Some("5")),
    ];
    let devs = collect_devices(&entries);
    assert_eq!(devs.len(), 1);
    assert_eq!(devs[0].name(), "intel_backlight");
    assert_eq!(devs[0].max(), 1388);
    assert_eq!(devs[0].current(), 388);
}

#[test]
fn listing_keeps_order() {
    let entries = vec![
        entry("b", true, Some("10"), Some("5")),
        entry("a", true, Some("20"), Some("1")),
    ];
    let devs = collect_devices(&entries);
    assert_eq!(devs.len(), 2);
    assert_eq!(devs[0].name(), "b");
    assert_eq!(devs[1].name(), "a");
}

#[test]
fn reading_errors() {
    let no_name = Device::from_contents("/".to_string(), None, "10", "5");
    assert_eq!(no_name.unwrap_err(), DeviceError::NoName);
    let bad_max = Device::from_contents("d".to_string(), Some("d".to_string()), "ten", "5");
    assert_eq!(bad_max.unwrap_err(), DeviceError::BadMax);
    let bad_current = Device::from_contents("d".to_string(), Some("d".to_string()), "10", "-5");
    assert_eq!(bad_current.unwrap_err(), DeviceError::BadCurrent);
    let zero = Device::from_contents("d".to_string(), Some("d".to_string()), "0", "0");
    assert_eq!(zero.unwrap_err(), DeviceError::ZeroMax);
    let too_big = Device::from_contents("d".to_string(), Some("d".to_string()), "4294967296", "0");
    assert_eq!(too_big.unwrap_err(), DeviceError::BadMax);
}

#[test]
fn reading_trims_whitespace() {
    let dev = Device::from_contents("d".to_string(), Some("d".to_string()), " \t4294967295\r\n", "+0012\n").unwrap();
    assert_eq!(dev.max(), 4294967295);
    assert_eq!(dev.current(), 12);
    assert_eq!(dev.path(), "d");
}

#[test]
fn set_lands_within_one_count() {
    let mut dev = intel_backlight().unwrap();
    for p in 0..=100u64 {
        dev.set(whole(p));
        let c = dev.current() as u64;
        assert!(c <= 1388);
        assert!(c * 100 <= p * 1388);
        assert!(p * 1388 < (c + 1) * 100);
    }
}

#[test]
fn set_clamps() {
    let mut dev = intel_backlight().unwrap();
    dev.set(whole(150));
    assert_eq!(dev.current(), 1388);
    dev.set(minus(5));
    assert_eq!(dev.current(), 0);
    dev.set(Percent { negative: false, numer: 505, denom: 10 });
    assert_eq!(dev.current(), 700);
}

#[test]
fn change_clamps() {
    let mut dev = intel_backlight().unwrap();
    dev.change(whole(500));
    assert_eq!(dev.current(), 1388);
    dev.change(minus(500));
    assert_eq!(dev.current(), 0);
}

#[test]
fn change_round_trip_after_saturation_differs() {
    let mut dev = Device::from_contents("d".to_string(), Some("d".to_string()), "100", "95").unwrap();
    dev.change(whole(10));
    assert_eq!(dev.current(), 100);
    dev.change(minus(10));
    assert_eq!(dev.current(), 90);
}

#[test]
fn change_round_trip_without_clamping() {
    let mut dev = Device::from_contents("d".to_string(), Some("d".to_string()), "200", "50").unwrap();
    dev.change(whole(25));
    assert_eq!(dev.current(), 100);
    dev.change(minus(25));
    assert_eq!(dev.current(), 50);
}

#[test]
fn display_line() {
    let dev = intel_backlight().unwrap();
    assert_eq!(dev.display(), "intel_backlight 27% (388/1388)");
    let short = Device::from_contents("d".to_string(), Some("acpi".to_string()), "10", "10").unwrap();
    assert_eq!(short.display(), "acpi            100% (10/10)");
    assert_eq!(dev.brightness_text(), "388");
}

#[test]
fn brightness_text_after_change() {
    let mut dev = intel_backlight().unwrap();
    dev.change(whole(10));
    assert_eq!(dev.brightness_text(), "526");
}
