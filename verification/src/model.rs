//! The station tree: `Station` → `Module` → `Sensor`, plus the small leaf
//! records they carry. Floating-point readings and coordinates are held as
//! their IEEE-754 bit patterns (`u32` for single precision, `u64` for double
//! precision); times are microseconds since the Unix epoch. Each type has a
//! spec-level view (`StationV` and friends) over which every contract in the
//! store and the merge policy is stated.

use vstd::prelude::*;

verus! {

/// Opaque station identity: the lowercase-hex rendering of the station's
/// identity bytes. Equality is byte-exact.
#[derive(Debug)]
pub struct DeviceId(pub String);

impl Clone for DeviceId {
    fn clone(&self) -> (r: DeviceId)
        ensures
            r@ == self@,
    {
        DeviceId(self.0.clone())
    }
}

impl View for DeviceId {
    type V = Seq<char>;

    open spec fn view(&self) -> Seq<char> {
        self.0@
    }
}

impl DeviceId {
    /// The hex text itself; the stable natural key of a station.
    pub fn into_string(self) -> (r: String)
        ensures
            r@ == self@,
    {
        self.0
    }
}

impl PartialEq for DeviceId {
    fn eq(&self, other: &DeviceId) -> (r: bool) {
        self.0 == other.0
    }
}

impl vstd::std_specs::cmp::PartialEqSpecImpl for DeviceId {
    open spec fn obeys_eq_spec() -> bool {
        true
    }

    open spec fn eq_spec(&self, other: &DeviceId) -> bool {
        self@ == other@
    }
}

/// Copy of one byte buffer, element for element.
pub fn clone_bytes(v: &Vec<u8>) -> (r: Vec<u8>)
    ensures
        r@ == v@,
{
    let mut r: Vec<u8> = Vec::new();
    let mut i: usize = 0;
    while i < v.len()
        invariant
            i <= v.len(),
            r@ == v@.take(i as int),
        decreases v.len() - i,
    {
        r.push(v[i]);
        proof {
            assert(v@.take(i as int + 1) =~= v@.take(i as int).push(v@[i as int]));
        }
        i = i + 1;
    }
    proof {
        assert(v@.take(v@.len() as int) =~= v@);
    }
    r
}

/// Firmware identity reported by a station.
#[derive(Debug)]
pub struct Firmware {
    pub label: String,
    pub time: i64,
}

impl Clone for Firmware {
    fn clone(&self) -> (r: Firmware)
        ensures
            r@ == self@,
    {
        Firmware { label: self.label.clone(), time: self.time }
    }
}

#[verifier::ext_equal]
pub struct FirmwareV {
    pub label: Seq<char>,
    pub time: i64,
}

impl View for Firmware {
    type V = FirmwareV;

    open spec fn view(&self) -> FirmwareV {
        FirmwareV { label: self.label@, time: self.time }
    }
}

/// Size and record count of one on-station stream.
#[derive(Clone, Copy, Debug)]
pub struct Stream {
    pub size: i64,
    pub records: i64,
}

/// Battery charge and voltage, as IEEE-754 single-precision bit patterns.
#[derive(Clone, Copy, Debug)]
pub struct Battery {
    pub percentage: u32,
    pub voltage: u32,
}

/// Solar panel voltage, as an IEEE-754 single-precision bit pattern.
#[derive(Clone, Copy, Debug)]
pub struct Solar {
    pub voltage: u32,
}

/// A position fix, each coordinate an IEEE-754 double-precision bit pattern.
#[derive(Clone, Copy, Debug)]
pub struct Coordinates {
    pub latitude: u64,
    pub longitude: u64,
}

/// One sensor reading: when it was taken and the calibrated and
/// uncalibrated values, as single-precision bit patterns.
#[derive(Clone, Copy, Debug)]
pub struct LiveValue {
    pub time: i64,
    pub value: u32,
    pub uncalibrated: u32,
}

/// A sensor row. Natural key within a module: `number`. The row id is
/// absent until first persistence; `removed` tombstones the row without
/// deleting it.
#[derive(Debug)]
pub struct Sensor {
    pub id: Option<i64>,
    pub module_id: Option<i64>,
    pub number: u32,
    pub flags: u32,
    pub key: String,
    pub calibrated_uom: String,
    pub uncalibrated_uom: String,
    pub value: Option<LiveValue>,
    pub previous_value: Option<LiveValue>,
    pub removed: bool,
}

#[verifier::ext_equal]
pub struct SensorV {
    pub id: Option<i64>,
    pub module_id: Option<i64>,
    pub number: u32,
    pub flags: u32,
    pub key: Seq<char>,
    pub calibrated_uom: Seq<char>,
    pub uncalibrated_uom: Seq<char>,
    pub value: Option<LiveValue>,
    pub previous_value: Option<LiveValue>,
    pub removed: bool,
}

impl View for Sensor {
    type V = SensorV;

    open spec fn view(&self) -> SensorV {
        SensorV {
            id: self.id,
            module_id: self.module_id,
            number: self.number,
            flags: self.flags,
            key: self.key@,
            calibrated_uom: self.calibrated_uom@,
            uncalibrated_uom: self.uncalibrated_uom@,
            value: self.value,
            previous_value: self.previous_value,
            removed: self.removed,
        }
    }
}

impl Clone for Sensor {
    fn clone(&self) -> (r: Sensor)
        ensures
            r@ == self@,
    {
        Sensor {
            id: self.id,
            module_id: self.module_id,
            number: self.number,
            flags: self.flags,
            key: self.key.clone(),
            calibrated_uom: self.calibrated_uom.clone(),
            uncalibrated_uom: self.uncalibrated_uom.clone(),
            value: self.value,
            previous_value: self.previous_value,
            removed: self.removed,
        }
    }
}

/// Hardware identity of a module: manufacturer, kind and version words.
#[derive(Clone, Copy, Debug)]
pub struct ModuleHeader {
    pub manufacturer: u32,
    pub kind: u32,
    pub version: u32,
}

/// A module row. Natural key within a station: `hardware_id`. The row id is
/// absent until first persistence; `removed` tombstones the row.
#[derive(Debug)]
pub struct Module {
    pub id: Option<i64>,
    pub station_id: Option<i64>,
    pub hardware_id: String,
    pub header: ModuleHeader,
    pub flags: u32,
    pub position: u32,
    pub key: String,
    pub path: String,
    pub configuration: Option<Vec<u8>>,
    pub removed: bool,
    pub sensors: Vec<Sensor>,
}

#[verifier::ext_equal]
pub struct ModuleV {
    pub id: Option<i64>,
    pub station_id: Option<i64>,
    pub hardware_id: Seq<char>,
    pub header: ModuleHeader,
    pub flags: u32,
    pub position: u32,
    pub key: Seq<char>,
    pub path: Seq<char>,
    pub configuration: Option<Seq<u8>>,
    pub removed: bool,
    pub sensors: Seq<SensorV>,
}

impl View for Module {
    type V = ModuleV;

    open spec fn view(&self) -> ModuleV {
        ModuleV {
            id: self.id,
            station_id: self.station_id,
            hardware_id: self.hardware_id@,
            header: self.header,
            flags: self.flags,
            position: self.position,
            key: self.key@,
            path: self.path@,
            configuration: match self.configuration {
                Some(c) => Some(c@),
                None => None,
            },
            removed: self.removed,
            sensors: sensors_view(self.sensors),
        }
    }
}

/// The sequence of sensor views behind a sensor vector.
pub open spec fn sensors_view(v: Vec<Sensor>) -> Seq<SensorV> {
    Seq::new(v@.len(), |i: int| v@[i]@)
}

/// The sequence of module views behind a module vector.
pub open spec fn modules_view(v: Vec<Module>) -> Seq<ModuleV> {
    Seq::new(v@.len(), |i: int| v@[i]@)
}

/// Copy of a sensor vector, element for element.
pub fn clone_sensors(v: &Vec<Sensor>) -> (r: Vec<Sensor>)
    ensures
        sensors_view(r) == sensors_view(*v),
{
    let mut r: Vec<Sensor> = Vec::new();
    let mut i: usize = 0;
    while i < v.len()
        invariant
            i <= v.len(),
            r@.len() == i,
            forall|k: int| 0 <= k < i ==> r@[k]@ == v@[k]@,
        decreases v.len() - i,
    {
        r.push(v[i].clone());
        i = i + 1;
    }
    proof {
        assert(sensors_view(r) =~= sensors_view(*v));
    }
    r
}

impl Clone for Module {
    fn clone(&self) -> (r: Module)
        ensures
            r@ == self@,
    {
        let r = Module {
            id: self.id,
            station_id: self.station_id,
            hardware_id: self.hardware_id.clone(),
            header: self.header,
            flags: self.flags,
            position: self.position,
            key: self.key.clone(),
            path: self.path.clone(),
            configuration: match &self.configuration {
                Some(c) => Some(clone_bytes(c)),
                None => None,
            },
            removed: self.removed,
            sensors: clone_sensors(&self.sensors),
        };
        proof {
            assert(r@ =~= self@);
        }
        r
    }
}

/// Copy of a module vector, element for element.
pub fn clone_modules(v: &Vec<Module>) -> (r: Vec<Module>)
    ensures
        modules_view(r) == modules_view(*v),
{
    let mut r: Vec<Module> = Vec::new();
    let mut i: usize = 0;
    while i < v.len()
        invariant
            i <= v.len(),
            r@.len() == i,
            forall|k: int| 0 <= k < i ==> r@[k]@ == v@[k]@,
        decreases v.len() - i,
    {
        r.push(v[i].clone());
        i = i + 1;
    }
    proof {
        assert(modules_view(r) =~= modules_view(*v));
    }
    r
}

/// A station row together with its module tree. The row id is absent until
/// first persistence; `device_id` is the stable natural key.
#[derive(Debug)]
pub struct Station {
    pub id: Option<i64>,
    pub device_id: DeviceId,
    pub generation_id: String,
    pub name: String,
    pub firmware: Firmware,
    pub last_seen: i64,
    pub meta: Stream,
    pub data: Stream,
    pub battery: Battery,
    pub solar: Solar,
    pub status: String,
    pub last_seen_location: Option<Coordinates>,
    pub modules: Vec<Module>,
}

#[verifier::ext_equal]
pub struct StationV {
    pub id: Option<i64>,
    pub device_id: Seq<char>,
    pub generation_id: Seq<char>,
    pub name: Seq<char>,
    pub firmware: FirmwareV,
    pub last_seen: i64,
    pub meta: Stream,
    pub data: Stream,
    pub battery: Battery,
    pub solar: Solar,
    pub status: Seq<char>,
    pub last_seen_location: Option<Coordinates>,
    pub modules: Seq<ModuleV>,
}

impl View for Station {
    type V = StationV;

    open spec fn view(&self) -> StationV {
        StationV {
            id: self.id,
            device_id: self.device_id@,
            generation_id: self.generation_id@,
            name: self.name@,
            firmware: self.firmware@,
            last_seen: self.last_seen,
            meta: self.meta,
            data: self.data,
            battery: self.battery,
            solar: self.solar,
            status: self.status@,
            last_seen_location: self.last_seen_location,
            modules: modules_view(self.modules),
        }
    }
}

impl Clone for Station {
    fn clone(&self) -> (r: Station)
        ensures
            r@ == self@,
    {
        let r = Station {
            id: self.id,
            device_id: self.device_id.clone(),
            generation_id: self.generation_id.clone(),
            name: self.name.clone(),
            firmware: self.firmware.clone(),
            last_seen: self.last_seen,
            meta: self.meta,
            data: self.data,
            battery: self.battery,
            solar: self.solar,
            status: self.status.clone(),
            last_seen_location: self.last_seen_location,
            modules: clone_modules(&self.modules),
        };
        proof {
            assert(r@ =~= self@);
        }
        r
    }
}

/// A historic record of one download session, kept for the delete cascade.
#[derive(Debug)]
pub struct StationDownload {
    pub id: Option<i64>,
    pub station_id: i64,
    pub generation_id: String,
    pub started: i64,
    pub begin: i64,
    pub end: i64,
    pub path: String,
    pub uploaded: bool,
    pub finished: Option<i64>,
    pub size: i64,
    pub error: Option<String>,
}

#[verifier::ext_equal]
pub struct StationDownloadV {
    pub id: Option<i64>,
    pub station_id: i64,
    pub generation_id: Seq<char>,
    pub started: i64,
    pub begin: i64,
    pub end: i64,
    pub path: Seq<char>,
    pub uploaded: bool,
    pub finished: Option<i64>,
    pub size: i64,
    pub error: Option<Seq<char>>,
}

impl Clone for StationDownload {
    fn clone(&self) -> (r: StationDownload)
        ensures
            r@ == self@,
    {
        StationDownload {
            id: self.id,
            station_id: self.station_id,
            generation_id: self.generation_id.clone(),
            started: self.started,
            begin: self.begin,
            end: self.end,
            path: self.path.clone(),
            uploaded: self.uploaded,
            finished: self.finished,
            size: self.size,
            error: match &self.error {
                Some(e) => Some(e.clone()),
                None => None,
            },
        }
    }
}

impl View for StationDownload {
    type V = StationDownloadV;

    open spec fn view(&self) -> StationDownloadV {
        StationDownloadV {
            id: self.id,
            station_id: self.station_id,
            generation_id: self.generation_id@,
            started: self.started,
            begin: self.begin,
            end: self.end,
            path: self.path@,
            uploaded: self.uploaded,
            finished: self.finished,
            size: self.size,
            error: match self.error {
                Some(ref e) => Some(e@),
                None => None,
            },
        }
    }
}

} // verus!
