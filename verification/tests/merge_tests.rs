use rustfk::merge::merge_at;
use rustfk::merge::merge_modules;
use rustfk::merge::merge_sensors;
use rustfk::model::Battery;
use rustfk::model::DeviceId;
use rustfk::model::Firmware;
use rustfk::model::Module;
use rustfk::model::ModuleHeader;
use rustfk::model::Sensor;
use rustfk::model::Solar;
use rustfk::model::Station;
use rustfk::model::Stream;

fn sensor(number: u32, key: &str) -> Sensor {
    Sensor {
        id: None,
        module_id: None,
        number,
        flags: 0,
        key: key.to_owned(),
        calibrated_uom: "m".to_owned(),
        uncalibrated_uom: "mV".to_owned(),
        value: None,
        previous_value: None,
        removed: false,
    }
}

fn module(hardware_id: &str, position: u32) -> Module {
    Module {
        id: None,
        station_id: None,
        hardware_id: hardware_id.to_owned(),
        header: ModuleHeader { manufacturer: 1, kind: 2, version: 3 },
        flags: 0,
        position,
        key: hardware_id.to_owned(),
        path: "".to_owned(),
        configuration: None,
        removed: false,
        sensors: vec![sensor(0, "sensor-0")],
    }
}

fn station(modules: Vec<Module>) -> Station {
    Station {
        id: Some(7),
        device_id: DeviceId("0011aabb".to_owned()),
        generation_id: "generation-0".to_owned(),
        name: "Hoppy Kangaroo".to_owned(),
        firmware: Firmware { label: "fw-1000".to_owned(), time: 1000 },
        last_seen: 11,
        meta: Stream { size: 0, records: 0 },
        data: Stream { size: 0, records: 0 },
        battery: Battery { percentage: 0, voltage: 0 },
        solar: Solar { voltage: 0 },
        status: "idle".to_owned(),
        last_seen_location: None,
        modules,
    }
}

#[test]
fn test_merge_with_itself_only_refreshes_last_seen() {
    let existing = station(vec![module("basic-0", 0), module("basic-1", 1)]);
    let incoming = station(vec![module("basic-0", 0), module("basic-1", 1)]);

    let merged = merge_at(Some(existing), incoming, 99);
    assert_eq!(merged.last_seen, 99);
    assert_eq!(merged.id, Some(7));
    assert_eq!(merged.name, "Hoppy Kangaroo");
    assert_eq!(merged.modules.len(), 2);
    assert_eq!(merged.modules[0].hardware_id, "basic-0");
    assert_eq!(merged.modules[1].hardware_id, "basic-1");
    assert!(!merged.modules[0].removed);
    assert_eq!(merged.modules[0].sensors.len(), 1);
    assert_eq!(merged.modules[0].sensors[0].key, "sensor-0");
}

#[test]
fn test_merge_without_existing_returns_incoming() {
    let incoming = station(vec![module("basic-0", 0)]);
    let merged = merge_at(None, incoming, 99);
    // With nothing stored the observation passes through untouched.
    assert_eq!(merged.last_seen, 11);
    assert_eq!(merged.modules.len(), 1);
}

#[test]
fn test_merge_modules_tombstones_and_revives() {
    let mut existing = module("basic-0", 0);
    existing.id = Some(3);

    // Absent from the incoming tree: tombstoned, id kept.
    let merged = merge_modules(vec![existing], Vec::new());
    assert_eq!(merged.len(), 1);
    assert_eq!(merged[0].id, Some(3));
    assert!(merged[0].removed);

    // Reintroduced: the same row revives with the tombstone lifted.
    let revived = merge_modules(merged, vec![module("basic-0", 0)]);
    assert_eq!(revived.len(), 1);
    assert_eq!(revived[0].id, Some(3));
    assert!(!revived[0].removed);
}

#[test]
fn test_merge_modules_sorts_by_position_then_key() {
    let merged = merge_modules(
        Vec::new(),
        vec![module("bb", 1), module("aa", 1), module("zz", 0)],
    );
    assert_eq!(merged.len(), 3);
    assert_eq!(merged[0].hardware_id, "zz");
    assert_eq!(merged[1].hardware_id, "aa");
    assert_eq!(merged[2].hardware_id, "bb");
}

#[test]
fn test_merge_sensors_keeps_identity_and_takes_observation() {
    let mut existing = sensor(0, "sensor-0");
    existing.id = Some(9);
    existing.previous_value = Some(rustfk::model::LiveValue { time: 1, value: 2, uncalibrated: 3 });

    let mut incoming = sensor(0, "renamed");
    incoming.value = Some(rustfk::model::LiveValue { time: 4, value: 5, uncalibrated: 6 });

    let merged = merge_sensors(vec![existing], vec![incoming, sensor(1, "new-1")]);
    assert_eq!(merged.len(), 2);
    assert_eq!(merged[0].id, Some(9));
    assert_eq!(merged[0].key, "renamed");
    assert_eq!(merged[0].value.map(|v| v.value), Some(5));
    assert_eq!(merged[0].previous_value.map(|v| v.value), Some(2));
    assert_eq!(merged[1].number, 1);
    assert_eq!(merged[1].key, "new-1");
}
