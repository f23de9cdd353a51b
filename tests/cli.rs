use brack::change::{Change, ParseError, Percent};
use brack::cli::{collect_devices, decide, default_device, find_device, plan, Action, Command, DeviceEntry};
use brack::device::Device;

fn args(v: &[&str]) -> Vec<String> {
    v.iter().map(|s| s.to_string()).collect()
}

fn devices(names: &[&str]) -> Vec<Device> {
    let entries: Vec<DeviceEntry> = names
        .iter()
        .map(|n| DeviceEntry {
            path: format!("/sys/class/backlight/{}", n),
            name: Some(n.to_string()),
            is_dir: true,
            max_text: Some("100".to_string()),
            current_text: Some("50".to_string()),
        })
        .collect();
    collect_devices(&entries)
}

fn defaults() -> Vec<String> {
    args(&["intel_backlight", "radeon_backlight"])
}

#[test]
fn no_arguments_list() {
    assert_eq!(plan(&args(&[])), Command::List);
    let devs = devices(&["a", "b"]);
    assert_eq!(decide(&Command::List, &devs, &defaults()), Ok(Action::List));
}

#[test]
fn help_anywhere() {
    assert_eq!(plan(&args(&["-h"])), Command::Usage);
    assert_eq!(plan(&args(&["intel_backlight", "--help"])), Command::Usage);
    assert_eq!(plan(&args(&["a", "b", "c"])), Command::Usage);
    assert_eq!(decide(&Command::Usage, &devices(&[]), &defaults()), Ok(Action::Usage));
}

#[test]
fn one_argument() {
    assert_eq!(plan(&args(&["+10"])), Command::Apply { device: None, change: "+10".to_string() });
    assert_eq!(plan(&args(&["-x"])), Command::Apply { device: None, change: "-x".to_string() });
    assert_eq!(plan(&args(&["50"])), Command::Apply { device: None, change: "50".to_string() });
    assert_eq!(plan(&args(&["intel_backlight"])), Command::Show("intel_backlight".to_string()));
}

#[test]
fn two_arguments() {
    assert_eq!(
        plan(&args(&["intel_backlight", "+10"])),
        Command::Apply { device: Some("intel_backlight".to_string()), change: "+10".to_string() }
    );
}

#[test]
fn missing_device_does_nothing() {
    let devs = devices(&["intel_backlight"]);
    let cmd = plan(&args(&["nonexistent", "+10"]));
    assert_eq!(decide(&cmd, &devs, &defaults()), Ok(Action::Nothing));
    let cmd = plan(&args(&["nonexistent", "+abc"]));
    assert_eq!(decide(&cmd, &devs, &defaults()), Ok(Action::Nothing));
    let cmd = plan(&args(&["nonexistent"]));
    assert_eq!(decide(&cmd, &devs, &defaults()), Ok(Action::Nothing));
}

#[test]
fn named_device_is_changed() {
    let devs = devices(&["acpi_video0", "intel_backlight"]);
    let cmd = plan(&args(&["intel_backlight", "+10"]));
    let ten = Percent { negative: false, numer: 10, denom: 1 };
    assert_eq!(decide(&cmd, &devs, &defaults()), Ok(Action::Update(1, Change::Relative(ten))));
    let cmd = plan(&args(&["intel_backlight", "+abc"]));
    assert_eq!(decide(&cmd, &devs, &defaults()), Err(ParseError));
    let cmd = plan(&args(&["acpi_video0"]));
    assert_eq!(decide(&cmd, &devs, &defaults()), Ok(Action::Show(0)));
}

#[test]
fn default_device_choice() {
    let devs = devices(&["acpi_video0", "radeon_backlight", "intel_backlight"]);
    assert_eq!(default_device(&devs, &defaults()), Some(1));
    let cmd = plan(&args(&["50"]));
    let fifty = Percent { negative: false, numer: 50, denom: 1 };
    assert_eq!(decide(&cmd, &devs, &defaults()), Ok(Action::Update(1, Change::Absolute(fifty))));
    let none = devices(&["acpi_video0"]);
    assert_eq!(default_device(&none, &defaults()), None);
    assert_eq!(decide(&cmd, &none, &defaults()), Ok(Action::Nothing));
}

#[test]
fn find_first_of_name() {
    let devs = devices(&["a", "b", "a"]);
    assert_eq!(find_device(&devs, &"a".to_string()), Some(0));
    assert_eq!(find_device(&devs, &"b".to_string()), Some(1));
    assert_eq!(find_device(&devs, &"c".to_string()), None);
}
