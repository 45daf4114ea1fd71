use bottom::harvest::TempHarvest;
use bottom::layout::Axis;
use bottom::temperature::{
    get_temperature_data, humanize_name, hwmon_sensor_name, name_thermal_zones, HwmonResults,
};

fn temp(name: &str, t: f32) -> TempHarvest<f32> {
    TempHarvest { name: name.to_string(), temperature: t }
}

#[test]
fn humanize_name_trims_sensor_name() {
    let sensor = "  amdgpu \n".to_string();
    assert_eq!(humanize_name("card0".to_string(), Some(&sensor)), "card0 (amdgpu)");
    assert_eq!(humanize_name("nvme0".to_string(), None), "nvme0");
}

#[test]
fn hwmon_sensor_name_joins_trimmed_parts() {
    assert_eq!(
        hwmon_sensor_name(Some(" k10temp\n".to_string()), Some("Tctl \n".to_string())),
        "k10temp: Tctl"
    );
    assert_eq!(hwmon_sensor_name(None, Some("Tctl\n".to_string())), "Tctl\n");
    assert_eq!(hwmon_sensor_name(Some("acpitz".to_string()), None), "acpitz");
    assert_eq!(hwmon_sensor_name(None, None), "");
}

#[test]
fn thermal_zones_number_repeated_types() {
    let types: Vec<String> = ["acpitz", "x86_pkg_temp", "acpitz", "acpitz"]
        .iter()
        .map(|s| s.to_string())
        .collect();
    assert_eq!(
        name_thermal_zones(&types),
        vec!["acpitz", "x86_pkg_temp", "acpitz (1)", "acpitz (2)"]
    );
}

#[test]
fn thermal_zones_count_past_nine() {
    let types: Vec<String> = (0..12).map(|_| "zone".to_string()).collect();
    let names = name_thermal_zones(&types);
    assert_eq!(names[0], "zone");
    assert_eq!(names[11], "zone (11)");
}

#[test]
fn temperature_data_falls_back_to_thermal_zones() {
    let none = HwmonResults { temperatures: vec![], num_hwmon: 0 };
    assert!(none.needs_thermal_zones());
    let r = get_temperature_data(none, vec![temp("acpitz", 40.0)]).unwrap();
    assert_eq!(r.len(), 1);
    assert_eq!(r[0].name, "acpitz");

    let some = HwmonResults { temperatures: vec![temp("k10temp: Tctl", 50.0)], num_hwmon: 1 };
    assert!(!some.needs_thermal_zones());
    let r = get_temperature_data(some, vec![temp("acpitz", 40.0)]).unwrap();
    assert_eq!(r.len(), 1);
    assert_eq!(r[0].name, "k10temp: Tctl");
}

#[test]
fn axis_values_differ() {
    assert!(Axis::Horizontal != Axis::Vertical);
    assert!(Axis::Vertical == Axis::Vertical);
}
