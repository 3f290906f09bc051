use rustfk::model::Battery;
use rustfk::model::DeviceId;
use rustfk::model::Firmware;
use rustfk::model::Module;
use rustfk::model::ModuleHeader;
use rustfk::model::Sensor;
use rustfk::model::Solar;
use rustfk::model::Station;
use rustfk::model::StationDownload;
use rustfk::model::Stream;
use rustfk::store::Db;

fn build_station() -> Station {
    Station {
        id: None,
        device_id: DeviceId("0011aabb".to_owned()),
        generation_id: "generation-0".to_owned(),
        name: "Hoppy Kangaroo".to_owned(),
        firmware: Firmware { label: "fw-1000".to_owned(), time: 1000 },
        last_seen: 0,
        meta: Stream { size: 0, records: 0 },
        data: Stream { size: 0, records: 0 },
        battery: Battery { percentage: 0, voltage: 0 },
        solar: Solar { voltage: 0 },
        status: "idle".to_owned(),
        last_seen_location: None,
        modules: Vec::new(),
    }
}

fn build_sensor(number: u32, key: &str) -> Sensor {
    Sensor {
        id: None,
        module_id: None,
        number,
        flags: 0,
        key: key.to_owned(),
        calibrated_uom: "m".to_owned(),
        uncalibrated_uom: "mV".to_owned(),
        value: None,
        previous_value: None,
        removed: false,
    }
}

fn build_module(hardware_id: &str) -> Module {
    Module {
        id: None,
        station_id: None,
        hardware_id: hardware_id.to_owned(),
        header: ModuleHeader { manufacturer: 1, kind: 2, version: 3 },
        flags: 0,
        position: 0,
        key: hardware_id.to_owned(),
        path: "".to_owned(),
        configuration: None,
        removed: false,
        sensors: vec![build_sensor(0, "sensor-0"), build_sensor(1, "sensor-1")],
    }
}

fn station_with_basic_module(key: &str) -> Station {
    let mut station = build_station();
    station.modules.push(build_module(key));
    station
}

fn build_download(station_id: Option<i64>) -> StationDownload {
    StationDownload {
        id: None,
        station_id: station_id.unwrap_or(0),
        generation_id: "generation-0".to_owned(),
        started: 100,
        begin: 0,
        end: 10,
        path: "downloads/0".to_owned(),
        uploaded: false,
        finished: None,
        size: 4096,
        error: None,
    }
}

#[test]
fn test_opening_in_memory_db() {
    let mut db = Db::new();
    db.open_in_memory();
}

#[test]
fn test_adding_new_station() {
    let mut db = Db::new();
    db.open_in_memory();

    let added = db.add_station(&build_station()).unwrap();
    assert_ne!(added.id, None);
}

#[test]
fn test_querying_all_stations() {
    let mut db = Db::new();
    db.open_in_memory();

    db.persist_station(&station_with_basic_module("basic-0")).unwrap();

    let stations = db.get_stations().unwrap();
    assert_eq!(stations.len(), 1);
    assert_eq!(stations[0].modules.len(), 1);
    assert_eq!(stations[0].modules[0].sensors.len(), 2);
}

#[test]
fn test_updating_station() {
    let mut db = Db::new();
    db.open_in_memory();

    let mut added = db.add_station(&build_station()).unwrap();

    let stations = db.get_stations().unwrap();
    assert_eq!(stations.len(), 1);
    assert_eq!(stations.get(0).unwrap().name, "Hoppy Kangaroo");

    added.name = "Tired Kangaroo".to_owned();
    db.update_station(&added).unwrap();

    let stations = db.get_stations().unwrap();
    assert_eq!(stations.len(), 1);
    assert_eq!(stations.get(0).unwrap().name, "Tired Kangaroo");
}

#[test]
fn test_updating_station_location() {
    let mut db = Db::new();
    db.open_in_memory();

    let added = db.add_station(&build_station()).unwrap();

    assert_eq!(added.last_seen_location.is_none(), true);

    db.update_station_location(&added.device_id, (1.0f64).to_bits(), (2.0f64).to_bits()).unwrap();

    let station = db.get_station_by_device_id(&added.device_id).unwrap().unwrap();

    assert_eq!(station.last_seen_location.as_ref().unwrap().latitude, (1.0f64).to_bits());
    assert_eq!(station.last_seen_location.as_ref().unwrap().longitude, (2.0f64).to_bits());
}

#[test]
fn test_adding_module() {
    let mut db = Db::new();
    db.open_in_memory();

    let station = db.add_station(&build_station()).unwrap();
    assert_ne!(station.id, None);

    let mut adding = build_module("module-0");
    adding.station_id = station.id;
    adding.sensors = Vec::new();
    let module = db.add_module(&adding).unwrap();
    assert_ne!(module.id, None);

    let modules = db.get_modules(station.id.expect("No station id")).unwrap();
    assert_eq!(modules.len(), 1);
}

#[test]
fn test_updating_module() {
    let mut db = Db::new();
    db.open_in_memory();

    let station = db.add_station(&build_station()).unwrap();
    assert_ne!(station.id, None);

    let mut adding = build_module("module-0");
    adding.station_id = station.id;
    adding.sensors = Vec::new();
    let mut added = db.add_module(&adding).unwrap();

    let modules = db.get_modules(station.id.expect("No station id")).unwrap();
    assert_eq!(modules.len(), 1);
    assert_eq!(modules.get(0).unwrap().key, "module-0");

    added.key = "renamed-module-0".to_owned();
    db.update_module(&added).unwrap();

    let modules = db.get_modules(station.id.expect("No station id")).unwrap();
    assert_eq!(modules.len(), 1);
    assert_eq!(modules.get(0).unwrap().key, "renamed-module-0");
}

#[test]
fn test_adding_sensor() {
    let mut db = Db::new();
    db.open_in_memory();

    let station = db.add_station(&build_station()).unwrap();
    assert_ne!(station.id, None);

    let mut adding = build_module("module-0");
    adding.station_id = station.id;
    adding.sensors = Vec::new();
    let module = db.add_module(&adding).unwrap();
    assert_ne!(module.id, None);

    let mut sensor = build_sensor(0, "sensor-0");
    sensor.module_id = module.id;
    let sensor = db.add_sensor(&sensor).unwrap();
    assert_ne!(sensor.id, None);

    let sensors = db.get_sensors(module.id.expect("No module id")).unwrap();
    assert_eq!(sensors.len(), 1);
}

#[test]
fn test_updating_sensor() {
    let mut db = Db::new();
    db.open_in_memory();

    let station = db.add_station(&build_station()).unwrap();
    assert_ne!(station.id, None);

    let mut adding = build_module("module-0");
    adding.station_id = station.id;
    adding.sensors = Vec::new();
    let module = db.add_module(&adding).unwrap();
    assert_ne!(module.id, None);

    let mut sensor = build_sensor(0, "sensor-0");
    sensor.module_id = module.id;
    let mut sensor = db.add_sensor(&sensor).unwrap();
    assert_ne!(sensor.id, None);

    let sensors = db.get_sensors(module.id.expect("No module id")).unwrap();
    assert_eq!(sensors.len(), 1);
    assert_eq!(sensors.get(0).unwrap().key, "sensor-0");

    sensor.key = "renamed-sensor-0".to_owned();
    db.update_sensor(&sensor).unwrap();

    let sensors = db.get_sensors(module.id.expect("No module id")).unwrap();
    assert_eq!(sensors.len(), 1);
    assert_eq!(sensors.get(0).unwrap().key, "renamed-sensor-0");
}

#[test]
fn test_sync_new_station() {
    let mut db = Db::new();
    db.open_in_memory();

    let incoming = station_with_basic_module("basic-0");
    let station = db.synchronize(incoming).unwrap();

    assert!(station.id.is_some());

    for module in station.modules {
        assert!(module.id.is_some());
        for sensor in module.sensors {
            assert!(sensor.id.is_some());
        }
    }
}

#[test]
fn test_sync_station_with_only_field_changes() {
    let mut db = Db::new();
    db.open_in_memory();

    let incoming = station_with_basic_module("basic-0");
    let first = db.synchronize(incoming).unwrap();

    assert!(first.id.is_some());

    let mut incoming = station_with_basic_module("basic-0");
    incoming.name = "Renamed".to_owned();
    let second = db.synchronize(incoming).unwrap();

    assert_eq!(first.id, second.id);
    assert_eq!(second.name, "Renamed");
}

#[test]
fn test_sync_station_with_module_removed() {
    let mut db = Db::new();
    db.open_in_memory();

    let incoming = station_with_basic_module("basic-0");
    let first = db.synchronize(incoming).unwrap();

    assert!(first.id.is_some());

    let incoming = build_station();
    let second = db.synchronize(incoming).unwrap();

    assert_eq!(first.id, second.id);
    assert_eq!(second.modules.len(), 1);
    assert_eq!(second.modules.get(0).map(|m| m.removed), Some(true));

    let queried = db.get_stations().unwrap();
    assert_eq!(queried[0].modules.len(), 0);
}

#[test]
fn test_sync_station_with_module_removed_and_brought_back_uses_same_row() {
    let mut db = Db::new();
    db.open_in_memory();

    let incoming = station_with_basic_module("basic-0");
    let first = db.synchronize(incoming).unwrap();

    assert!(first.id.is_some());

    let incoming = build_station();
    let second = db.synchronize(incoming).unwrap();

    assert_eq!(first.id, second.id);
    assert_eq!(second.modules.len(), 1);
    assert_eq!(second.modules.get(0).map(|m| m.removed), Some(true));

    let queried = db.get_stations().unwrap();
    assert_eq!(queried[0].modules.len(), 0);

    let incoming = station_with_basic_module("basic-0");
    let second = db.synchronize(incoming).unwrap();
    assert_eq!(second.modules.len(), 1);
    assert_eq!(second.modules.get(0).map(|m| m.removed), Some(false));

    let queried = db.get_stations().unwrap();
    assert_eq!(queried[0].modules.len(), 1);
}

#[test]
fn test_sync_station_with_module_added() {
    let mut db = Db::new();
    db.open_in_memory();

    let incoming = station_with_basic_module("basic-0");
    let first = db.synchronize(incoming).unwrap();

    assert!(first.id.is_some());

    let mut incoming = station_with_basic_module("basic-0");
    incoming.modules.push(build_module("basic-1"));
    let second = db.synchronize(incoming).unwrap();

    assert_eq!(first.id, second.id);
    assert_eq!(second.modules.len(), 2);
}

#[test]
fn test_sync_module_keeps_row_id_and_takes_incoming_fields() {
    let mut db = Db::new();
    db.open_in_memory();

    let first = db.synchronize(station_with_basic_module("basic-0")).unwrap();
    let first_module_id = first.modules[0].id;

    let mut incoming = station_with_basic_module("basic-0");
    incoming.modules[0].position = 7;
    let second = db.synchronize(incoming).unwrap();

    assert_eq!(second.modules.len(), 1);
    assert_eq!(second.modules[0].id, first_module_id);
    assert_eq!(second.modules[0].position, 7);
}

#[test]
fn test_sync_preserves_location_when_incoming_has_none() {
    let mut db = Db::new();
    db.open_in_memory();

    let added = db.synchronize(build_station()).unwrap();
    db.update_station_location(&added.device_id, (10.5f64).to_bits(), (-3.25f64).to_bits())
        .unwrap();

    let incoming = build_station();
    assert!(incoming.last_seen_location.is_none());
    db.synchronize(incoming).unwrap();

    let hydrated = db.hydrate_station(&added.device_id).unwrap().unwrap();
    let location = hydrated.last_seen_location.unwrap();
    assert_eq!(location.latitude, (10.5f64).to_bits());
    assert_eq!(location.longitude, (-3.25f64).to_bits());
}

#[test]
fn test_update_sensor_shifts_previous_reading() {
    let mut db = Db::new();
    db.open_in_memory();

    let station = db.add_station(&build_station()).unwrap();
    let mut adding = build_module("module-0");
    adding.station_id = station.id;
    adding.sensors = Vec::new();
    let module = db.add_module(&adding).unwrap();

    let mut sensor = build_sensor(0, "sensor-0");
    sensor.module_id = module.id;
    sensor.value = Some(rustfk::model::LiveValue { time: 5, value: 17, uncalibrated: 9 });
    let mut added = db.add_sensor(&sensor).unwrap();
    assert!(added.previous_value.is_none());

    added.value = Some(rustfk::model::LiveValue { time: 6, value: 18, uncalibrated: 10 });
    let updated = db.update_sensor(&added).unwrap();
    assert_eq!(updated.previous_value.map(|v| v.value), Some(17));
    assert_eq!(updated.value.map(|v| v.value), Some(18));
}

#[test]
fn test_adding_new_station_download() {
    let mut db = Db::new();
    db.open_in_memory();

    let station = db.add_station(&build_station()).unwrap();
    let adding = build_download(station.id);
    let added = db.add_station_download(&adding).unwrap();
    assert_ne!(added.id, None);
}

#[test]
fn test_querying_station_downloads() {
    let mut db = Db::new();
    db.open_in_memory();

    let station = db.add_station(&build_station()).unwrap();
    let adding = build_download(station.id);
    db.add_station_download(&adding).unwrap();

    let stations = db.get_station_downloads(station.id.unwrap()).unwrap();
    assert_eq!(stations.len(), 1);
}

#[test]
fn test_updating_station_download() {
    let mut db = Db::new();
    db.open_in_memory();

    let station = db.add_station(&build_station()).unwrap();
    let adding = build_download(station.id);
    let mut added = db.add_station_download(&adding).unwrap();

    let stations = db.get_station_downloads(station.id.unwrap()).unwrap();
    assert_eq!(stations.len(), 1);
    assert!(stations.get(0).unwrap().finished.is_none());

    added.finished = Some(12345);
    db.update_station_download(&added).unwrap();

    let stations = db.get_station_downloads(station.id.unwrap()).unwrap();
    assert_eq!(stations.len(), 1);
    assert!(stations.get(0).unwrap().finished.is_some());
}

#[test]
fn test_delete_station() {
    let mut db = Db::new();
    db.open_in_memory();

    let station = db.add_station(&build_station()).unwrap();
    let adding = build_download(station.id);
    db.add_station_download(&adding).unwrap();

    let stations = db.get_station_downloads(station.id.unwrap()).unwrap();
    assert_eq!(stations.len(), 1);
    assert!(stations.get(0).unwrap().finished.is_none());

    db.delete_station(station.id.unwrap()).unwrap();

    assert!(db.get_all_stations().unwrap().is_empty());
}

#[test]
fn test_delete_station_by_devicec_id() {
    let mut db = Db::new();
    db.open_in_memory();

    let station = db.add_station(&build_station()).unwrap();
    let adding = build_download(station.id);
    db.add_station_download(&adding).unwrap();

    let stations = db.get_station_downloads(station.id.unwrap()).unwrap();
    assert_eq!(stations.len(), 1);
    assert!(stations.get(0).unwrap().finished.is_none());

    db.delete_station_by_device_id(&station.device_id).unwrap();

    assert!(db.get_all_stations().unwrap().is_empty());
}

#[test]
fn test_operations_before_open_are_refused() {
    let mut db = Db::new();
    assert_eq!(db.add_station(&build_station()).err(), Some(rustfk::store::DbError::NotOpened));
    assert_eq!(db.get_stations().err(), Some(rustfk::store::DbError::NotOpened));
    assert_eq!(db.delete_station(1), Err(rustfk::store::DbError::NotOpened));
}

#[test]
fn test_update_of_missing_row_is_refused() {
    let mut db = Db::new();
    db.open_in_memory();

    let mut station = build_station();
    station.id = Some(42);
    assert_eq!(db.update_station(&station).err(), Some(rustfk::store::DbError::RowConstraint));

    assert_eq!(
        db.update_station_location(&DeviceId("no-such".to_owned()), 0, 0),
        Err(rustfk::store::DbError::RowConstraint)
    );
}
