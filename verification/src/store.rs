//! The station store: rows for stations, modules, sensors and downloads,
//! with relational persistence semantics — row ids handed out in insertion
//! order, updates addressed by id, coordinates never cleared once set, and
//! the sensor update that shifts the current reading into the previous one.
//! The whole state is held in memory; a host that wants the rows on disk
//! mirrors them from the values these operations return.

use vstd::prelude::*;

use crate::clock;
use crate::merge;
use crate::model::DeviceId;
use crate::model::Module;
use crate::model::ModuleV;
use crate::model::Sensor;
use crate::model::SensorV;
use crate::model::Station;
use crate::model::StationDownload;
use crate::model::StationDownloadV;
use crate::model::StationV;
use crate::model::modules_view;
use crate::model::sensors_view;

verus! {

/// Errors of the store. Every operation needs the store opened first; an
/// update addressed at a row that is not there, or an insert when no row id
/// is left, violates the exactly-one-row rule.
#[derive(Debug, PartialEq, Eq, Structural, Clone, Copy)]
pub enum DbError {
    /// Completely unexpected: the store ran out of row ids.
    SeriousBug,
    /// An operation was called before the store was opened.
    NotOpened,
    /// An insert or update did not address exactly one row.
    RowConstraint,
}

/// The station store.
pub struct Db {
    pub opened: bool,
    pub stations: Vec<Station>,
    pub modules: Vec<Module>,
    pub sensors: Vec<Sensor>,
    pub downloads: Vec<StationDownload>,
    pub next_station_id: i64,
    pub next_module_id: i64,
    pub next_sensor_id: i64,
    pub next_download_id: i64,
}

#[verifier::ext_equal]
pub struct DbV {
    pub opened: bool,
    pub stations: Seq<StationV>,
    pub modules: Seq<ModuleV>,
    pub sensors: Seq<SensorV>,
    pub downloads: Seq<StationDownloadV>,
    pub next_station_id: int,
    pub next_module_id: int,
    pub next_sensor_id: int,
    pub next_download_id: int,
}

impl View for Db {
    type V = DbV;

    open spec fn view(&self) -> DbV {
        DbV {
            opened: self.opened,
            stations: Seq::new(self.stations@.len(), |i: int| self.stations@[i]@),
            modules: modules_view(self.modules),
            sensors: sensors_view(self.sensors),
            downloads: Seq::new(self.downloads@.len(), |i: int| self.downloads@[i]@),
            next_station_id: self.next_station_id as int,
            next_module_id: self.next_module_id as int,
            next_sensor_id: self.next_sensor_id as int,
            next_download_id: self.next_download_id as int,
        }
    }
}

/// The id behind an `Option<i64>`, zero when absent.
pub open spec fn id_of(o: Option<i64>) -> i64 {
    match o {
        Some(x) => x,
        None => 0,
    }
}

/// Well-formedness of the store: every row carries an id below the next
/// free one and ids are never reused, child rows point at parent ids
/// already handed out, and rows never nest trees (a station row holds no
/// modules, a module row no sensors). Device-id uniqueness across station
/// rows is not part of this invariant: inserts do not check it, so a caller
/// adding the same device twice gets two rows, and reads by device id
/// resolve to the first; `update_station_location` enforces exactly one
/// matching row at its own boundary.
pub open spec fn db_wf(db: DbV) -> bool {
    &&& 1 <= db.next_station_id
    &&& 1 <= db.next_module_id
    &&& 1 <= db.next_sensor_id
    &&& 1 <= db.next_download_id
    &&& forall|k: int| 0 <= k < db.stations.len() ==> station_row_wf(#[trigger] db.stations[k], db.next_station_id)
    &&& forall|k: int|
        0 <= k < db.modules.len() ==> module_row_wf(
            #[trigger] db.modules[k],
            db.next_station_id,
            db.next_module_id,
        )
    &&& forall|k: int|
        0 <= k < db.sensors.len() ==> sensor_row_wf(
            #[trigger] db.sensors[k],
            db.next_module_id,
            db.next_sensor_id,
        )
    &&& forall|k: int|
        0 <= k < db.downloads.len() ==> download_row_wf(
            #[trigger] db.downloads[k],
            db.next_download_id,
        )
    &&& forall|k: int, l: int|
        0 <= k < l < db.stations.len() ==> db.stations[k].id != db.stations[l].id
    &&& forall|k: int, l: int| 0 <= k < l < db.modules.len() ==> db.modules[k].id != db.modules[l].id
    &&& forall|k: int, l: int| 0 <= k < l < db.sensors.len() ==> db.sensors[k].id != db.sensors[l].id
    &&& forall|k: int, l: int|
        0 <= k < l < db.downloads.len() ==> db.downloads[k].id != db.downloads[l].id
}

pub open spec fn station_row_wf(s: StationV, next_id: int) -> bool {
    &&& s.id is Some
    &&& 1 <= id_of(s.id) < next_id
    &&& s.modules.len() == 0
}

pub open spec fn module_row_wf(m: ModuleV, next_station_id: int, next_id: int) -> bool {
    &&& m.id is Some
    &&& 1 <= id_of(m.id) < next_id
    &&& m.station_id is Some
    &&& 1 <= id_of(m.station_id) < next_station_id
    &&& m.sensors.len() == 0
}

pub open spec fn sensor_row_wf(s: SensorV, next_module_id: int, next_id: int) -> bool {
    &&& s.id is Some
    &&& 1 <= id_of(s.id) < next_id
    &&& s.module_id is Some
    &&& 1 <= id_of(s.module_id) < next_module_id
}

pub open spec fn download_row_wf(d: StationDownloadV, next_id: int) -> bool {
    &&& d.id is Some
    &&& 1 <= id_of(d.id) < next_id
}

/// A store that has not been opened yet.
pub open spec fn db_closed() -> DbV {
    DbV {
        opened: false,
        stations: Seq::empty(),
        modules: Seq::empty(),
        sensors: Seq::empty(),
        downloads: Seq::empty(),
        next_station_id: 1,
        next_module_id: 1,
        next_sensor_id: 1,
        next_download_id: 1,
    }
}

// ---------------------------------------------------------------------------
// Row-level transitions.
// ---------------------------------------------------------------------------

/// The row an insert writes for a station: fresh id, no nested tree.
pub open spec fn station_row_of(s: StationV, id: int) -> StationV {
    StationV { id: Some(id as i64), modules: Seq::empty(), ..s }
}

/// The store after inserting a station row.
pub open spec fn add_station_spec(db: DbV, s: StationV) -> DbV {
    DbV {
        stations: db.stations.push(station_row_of(s, db.next_station_id)),
        next_station_id: db.next_station_id + 1,
        ..db
    }
}

/// The first row with the given station id, or -1.
pub open spec fn find_station_index(ss: Seq<StationV>, id: i64) -> int
    decreases ss.len(),
{
    if ss.len() == 0 {
        -1
    } else if ss[0].id == Some(id) {
        0
    } else {
        let r = find_station_index(ss.drop_first(), id);
        if r < 0 {
            -1
        } else {
            r + 1
        }
    }
}

proof fn lemma_find_station_index_props(ss: Seq<StationV>, id: i64)
    ensures
        find_station_index(ss, id) >= 0 ==> 0 <= find_station_index(ss, id) < ss.len()
            && ss[find_station_index(ss, id)].id == Some(id) && (forall|k: int|
            0 <= k < find_station_index(ss, id) ==> ss[k].id != Some(id)),
    decreases ss.len(),
{
    if ss.len() > 0 {
        lemma_find_station_index_props(ss.drop_first(), id);
        if ss[0].id != Some(id) && find_station_index(ss.drop_first(), id) >= 0 {
            assert forall|k: int|
                0 <= k < find_station_index(ss, id) implies ss[k].id != Some(id) by {
                if k > 0 {
                    assert(ss.drop_first()[k - 1] == ss[k]);
                }
            }
        }
    }
}

/// What an update writes over a station row: every observed field from the
/// update, identity (id and device id) from the row, and each coordinate
/// kept when the update carries none.
pub open spec fn updated_station_row(old_row: StationV, s: StationV) -> StationV {
    StationV {
        id: old_row.id,
        device_id: old_row.device_id,
        generation_id: s.generation_id,
        name: s.name,
        firmware: s.firmware,
        last_seen: s.last_seen,
        meta: s.meta,
        data: s.data,
        battery: s.battery,
        solar: s.solar,
        status: s.status,
        last_seen_location: match s.last_seen_location {
            Some(l) => Some(l),
            None => old_row.last_seen_location,
        },
        modules: Seq::empty(),
    }
}

/// The store after updating the station row addressed by `s.id`.
pub open spec fn update_station_spec(db: DbV, s: StationV) -> DbV {
    let j = find_station_index(db.stations, id_of(s.id));
    DbV { stations: db.stations.update(j, updated_station_row(db.stations[j], s)), ..db }
}

proof fn lemma_find_station_index_at(ss: Seq<StationV>, id: i64, j: int)
    requires
        0 <= j < ss.len(),
        ss[j].id == Some(id),
        forall|k: int| 0 <= k < j ==> ss[k].id != Some(id),
    ensures
        find_station_index(ss, id) == j,
    decreases j,
{
    if j > 0 {
        lemma_find_station_index_at(ss.drop_first(), id, j - 1);
    }
}

proof fn lemma_find_station_index_none(ss: Seq<StationV>, id: i64)
    requires
        forall|k: int| 0 <= k < ss.len() ==> ss[k].id != Some(id),
    ensures
        find_station_index(ss, id) == -1,
    decreases ss.len(),
{
    if ss.len() > 0 {
        lemma_find_station_index_none(ss.drop_first(), id);
    }
}

/// The row an insert writes for a module: fresh id, no nested sensors.
pub open spec fn module_row_of(m: ModuleV, id: int) -> ModuleV {
    ModuleV { id: Some(id as i64), sensors: Seq::empty(), ..m }
}

/// The store after inserting a module row.
pub open spec fn add_module_spec(db: DbV, m: ModuleV) -> DbV {
    DbV {
        modules: db.modules.push(module_row_of(m, db.next_module_id)),
        next_module_id: db.next_module_id + 1,
        ..db
    }
}

/// The first row with the given module id, or -1.
pub open spec fn find_module_index(ms: Seq<ModuleV>, id: i64) -> int
    decreases ms.len(),
{
    if ms.len() == 0 {
        -1
    } else if ms[0].id == Some(id) {
        0
    } else {
        let r = find_module_index(ms.drop_first(), id);
        if r < 0 {
            -1
        } else {
            r + 1
        }
    }
}

/// What an update writes over a module row: everything observed from the
/// update, while the id and the hardware id of the row stay.
pub open spec fn updated_module_row(old_row: ModuleV, m: ModuleV) -> ModuleV {
    ModuleV {
        id: old_row.id,
        hardware_id: old_row.hardware_id,
        station_id: m.station_id,
        header: m.header,
        flags: m.flags,
        position: m.position,
        key: m.key,
        path: m.path,
        configuration: m.configuration,
        removed: m.removed,
        sensors: Seq::empty(),
    }
}

/// The store after updating the module row addressed by `m.id`.
pub open spec fn update_module_spec(db: DbV, m: ModuleV) -> DbV {
    let j = find_module_index(db.modules, id_of(m.id));
    DbV { modules: db.modules.update(j, updated_module_row(db.modules[j], m)), ..db }
}

proof fn lemma_find_module_index_at(ms: Seq<ModuleV>, id: i64, j: int)
    requires
        0 <= j < ms.len(),
        ms[j].id == Some(id),
        forall|k: int| 0 <= k < j ==> ms[k].id != Some(id),
    ensures
        find_module_index(ms, id) == j,
    decreases j,
{
    if j > 0 {
        lemma_find_module_index_at(ms.drop_first(), id, j - 1);
    }
}

proof fn lemma_find_module_index_none(ms: Seq<ModuleV>, id: i64)
    requires
        forall|k: int| 0 <= k < ms.len() ==> ms[k].id != Some(id),
    ensures
        find_module_index(ms, id) == -1,
    decreases ms.len(),
{
    if ms.len() > 0 {
        lemma_find_module_index_none(ms.drop_first(), id);
    }
}

proof fn lemma_find_module_index_props(ms: Seq<ModuleV>, id: i64)
    ensures
        find_module_index(ms, id) >= 0 ==> 0 <= find_module_index(ms, id) < ms.len()
            && ms[find_module_index(ms, id)].id == Some(id) && (forall|k: int|
            0 <= k < find_module_index(ms, id) ==> ms[k].id != Some(id)),
    decreases ms.len(),
{
    if ms.len() > 0 {
        lemma_find_module_index_props(ms.drop_first(), id);
        if ms[0].id != Some(id) && find_module_index(ms.drop_first(), id) >= 0 {
            assert forall|k: int|
                0 <= k < find_module_index(ms, id) implies ms[k].id != Some(id) by {
                if k > 0 {
                    assert(ms.drop_first()[k - 1] == ms[k]);
                }
            }
        }
    }
}

/// The row an insert writes for a sensor: fresh id, no previous reading.
pub open spec fn sensor_row_of(s: SensorV, id: int) -> SensorV {
    SensorV { id: Some(id as i64), previous_value: None, ..s }
}

/// The store after inserting a sensor row.
pub open spec fn add_sensor_spec(db: DbV, s: SensorV) -> DbV {
    DbV {
        sensors: db.sensors.push(sensor_row_of(s, db.next_sensor_id)),
        next_sensor_id: db.next_sensor_id + 1,
        ..db
    }
}

/// The first row with the given sensor id, or -1.
pub open spec fn find_sensor_index(ss: Seq<SensorV>, id: i64) -> int
    decreases ss.len(),
{
    if ss.len() == 0 {
        -1
    } else if ss[0].id == Some(id) {
        0
    } else {
        let r = find_sensor_index(ss.drop_first(), id);
        if r < 0 {
            -1
        } else {
            r + 1
        }
    }
}

/// What an update writes over a sensor row: the observed fields from the
/// update, while id and parent module stay, and the row's current reading
/// moves into the previous one.
pub open spec fn updated_sensor_row(old_row: SensorV, s: SensorV) -> SensorV {
    SensorV {
        id: old_row.id,
        module_id: old_row.module_id,
        number: s.number,
        flags: s.flags,
        key: s.key,
        calibrated_uom: s.calibrated_uom,
        uncalibrated_uom: s.uncalibrated_uom,
        previous_value: old_row.value,
        value: s.value,
        removed: s.removed,
    }
}

/// The store after updating the sensor row addressed by `s.id`.
pub open spec fn update_sensor_spec(db: DbV, s: SensorV) -> DbV {
    let j = find_sensor_index(db.sensors, id_of(s.id));
    DbV { sensors: db.sensors.update(j, updated_sensor_row(db.sensors[j], s)), ..db }
}

proof fn lemma_find_sensor_index_at(ss: Seq<SensorV>, id: i64, j: int)
    requires
        0 <= j < ss.len(),
        ss[j].id == Some(id),
        forall|k: int| 0 <= k < j ==> ss[k].id != Some(id),
    ensures
        find_sensor_index(ss, id) == j,
    decreases j,
{
    if j > 0 {
        lemma_find_sensor_index_at(ss.drop_first(), id, j - 1);
    }
}

proof fn lemma_find_sensor_index_none(ss: Seq<SensorV>, id: i64)
    requires
        forall|k: int| 0 <= k < ss.len() ==> ss[k].id != Some(id),
    ensures
        find_sensor_index(ss, id) == -1,
    decreases ss.len(),
{
    if ss.len() > 0 {
        lemma_find_sensor_index_none(ss.drop_first(), id);
    }
}

proof fn lemma_find_sensor_index_props(ss: Seq<SensorV>, id: i64)
    ensures
        find_sensor_index(ss, id) >= 0 ==> 0 <= find_sensor_index(ss, id) < ss.len()
            && ss[find_sensor_index(ss, id)].id == Some(id) && (forall|k: int|
            0 <= k < find_sensor_index(ss, id) ==> ss[k].id != Some(id)),
    decreases ss.len(),
{
    if ss.len() > 0 {
        lemma_find_sensor_index_props(ss.drop_first(), id);
        if ss[0].id != Some(id) && find_sensor_index(ss.drop_first(), id) >= 0 {
            assert forall|k: int|
                0 <= k < find_sensor_index(ss, id) implies ss[k].id != Some(id) by {
                if k > 0 {
                    assert(ss.drop_first()[k - 1] == ss[k]);
                }
            }
        }
    }
}

/// The first station row carrying the given device id, or -1.
pub open spec fn find_station_by_device(ss: Seq<StationV>, d: Seq<char>) -> int
    decreases ss.len(),
{
    if ss.len() == 0 {
        -1
    } else if ss[0].device_id == d {
        0
    } else {
        let r = find_station_by_device(ss.drop_first(), d);
        if r < 0 {
            -1
        } else {
            r + 1
        }
    }
}

proof fn lemma_find_station_by_device_at(ss: Seq<StationV>, d: Seq<char>, j: int)
    requires
        0 <= j < ss.len(),
        ss[j].device_id == d,
        forall|k: int| 0 <= k < j ==> ss[k].device_id != d,
    ensures
        find_station_by_device(ss, d) == j,
    decreases j,
{
    if j > 0 {
        lemma_find_station_by_device_at(ss.drop_first(), d, j - 1);
    }
}

proof fn lemma_find_station_by_device_none(ss: Seq<StationV>, d: Seq<char>)
    requires
        forall|k: int| 0 <= k < ss.len() ==> ss[k].device_id != d,
    ensures
        find_station_by_device(ss, d) == -1,
    decreases ss.len(),
{
    if ss.len() > 0 {
        lemma_find_station_by_device_none(ss.drop_first(), d);
    }
}

proof fn lemma_find_station_by_device_props(ss: Seq<StationV>, d: Seq<char>)
    ensures
        find_station_by_device(ss, d) >= 0 ==> 0 <= find_station_by_device(ss, d) < ss.len()
            && ss[find_station_by_device(ss, d)].device_id == d && (forall|k: int|
            0 <= k < find_station_by_device(ss, d) ==> ss[k].device_id != d),
        find_station_by_device(ss, d) == -1 ==> (forall|k: int|
            0 <= k < ss.len() ==> ss[k].device_id != d),
    decreases ss.len(),
{
    if ss.len() > 0 {
        lemma_find_station_by_device_props(ss.drop_first(), d);
        if ss[0].device_id != d {
            assert forall|k: int|
                1 <= k < ss.len() implies ss[k].device_id == ss.drop_first()[k - 1].device_id by {
                assert(ss.drop_first()[k - 1] == ss[k]);
            }
        }
    }
}

/// The module rows of one station, in table order.
pub open spec fn modules_of(ms: Seq<ModuleV>, sid: i64) -> Seq<ModuleV>
    decreases ms.len(),
{
    if ms.len() == 0 {
        Seq::empty()
    } else {
        modules_of(ms.drop_last(), sid) + if ms.last().station_id == Some(sid) {
            seq![ms.last()]
        } else {
            Seq::empty()
        }
    }
}

/// The sensor rows of one module, in table order.
pub open spec fn sensors_of(ss: Seq<SensorV>, mid: i64) -> Seq<SensorV>
    decreases ss.len(),
{
    if ss.len() == 0 {
        Seq::empty()
    } else {
        sensors_of(ss.drop_last(), mid) + if ss.last().module_id == Some(mid) {
            seq![ss.last()]
        } else {
            Seq::empty()
        }
    }
}

/// A module row with the sensor rows of its module filled back in.
pub open spec fn hydrated_module(db: DbV, m: ModuleV) -> ModuleV {
    ModuleV { sensors: sensors_of(db.sensors, id_of(m.id)), ..m }
}

/// The station tree a hydration reads: the first row with the device id,
/// its module rows in table order, and each module's sensor rows.
pub open spec fn hydrate_spec(db: DbV, d: Seq<char>) -> Option<StationV> {
    let j = find_station_by_device(db.stations, d);
    if j < 0 {
        None
    } else {
        let row = db.stations[j];
        Some(
            StationV {
                modules: modules_of(db.modules, id_of(row.id)).map_values(
                    |m: ModuleV| hydrated_module(db, m),
                ),
                ..row
            },
        )
    }
}

proof fn lemma_modules_of_elements(ms: Seq<ModuleV>, sid: i64)
    ensures
        forall|k: int|
            0 <= k < modules_of(ms, sid).len() ==> ms.contains(#[trigger] modules_of(ms, sid)[k])
                && modules_of(ms, sid)[k].station_id == Some(sid),
    decreases ms.len(),
{
    if ms.len() > 0 {
        lemma_modules_of_elements(ms.drop_last(), sid);
        assert forall|k: int| 0 <= k < modules_of(ms, sid).len() implies ms.contains(
            #[trigger] modules_of(ms, sid)[k],
        ) && modules_of(ms, sid)[k].station_id == Some(sid) by {
            let prefix = modules_of(ms.drop_last(), sid);
            if k < prefix.len() {
                assert(modules_of(ms, sid)[k] == prefix[k]);
                let l = choose|l: int|
                    0 <= l < ms.drop_last().len() && ms.drop_last()[l] == prefix[k];
                assert(ms[l] == prefix[k]);
            } else {
                assert(modules_of(ms, sid)[k] == ms.last());
                assert(ms[ms.len() - 1] == ms.last());
            }
        }
    }
}

// ---------------------------------------------------------------------------
// Persisting a whole tree.
// ---------------------------------------------------------------------------

/// Store and returned row of one sensor: an update when it has an id, an
/// insert otherwise.
pub open spec fn persist_sensor_spec(db: DbV, s: SensorV) -> (DbV, SensorV) {
    if s.id is Some {
        let j = find_sensor_index(db.sensors, id_of(s.id));
        (update_sensor_spec(db, s), updated_sensor_row(db.sensors[j], s))
    } else {
        (add_sensor_spec(db, s), sensor_row_of(s, db.next_sensor_id))
    }
}

/// Persist a module's sensors left to right, each first pointed at the
/// parent module.
pub open spec fn persist_sensors_spec(db: DbV, ss: Seq<SensorV>, mid: i64) -> (DbV, Seq<SensorV>)
    decreases ss.len(),
{
    if ss.len() == 0 {
        (db, Seq::empty())
    } else {
        let r1 = persist_sensors_spec(db, ss.drop_last(), mid);
        let r2 = persist_sensor_spec(r1.0, SensorV { module_id: Some(mid), ..ss.last() });
        (r2.0, r1.1.push(r2.1))
    }
}

/// The store and the returned module after writing just the module row:
/// an update when the module has an id, an insert otherwise.
pub open spec fn persist_module_base(db: DbV, m: ModuleV) -> (DbV, ModuleV) {
    if m.id is Some {
        (update_module_spec(db, m), m)
    } else {
        (add_module_spec(db, m), ModuleV { id: Some(db.next_module_id as i64), ..m })
    }
}

/// Store and returned value of one module: its row written, then its
/// sensors persisted under its id.
pub open spec fn persist_module_spec(db: DbV, m: ModuleV) -> (DbV, ModuleV) {
    let base = persist_module_base(db, m);
    let rs = persist_sensors_spec(base.0, m.sensors, id_of(base.1.id));
    (rs.0, ModuleV { sensors: rs.1, ..base.1 })
}

/// Persist a station's modules left to right, each first pointed at the
/// parent station.
pub open spec fn persist_modules_spec(db: DbV, ms: Seq<ModuleV>, sid: i64) -> (DbV, Seq<ModuleV>)
    decreases ms.len(),
{
    if ms.len() == 0 {
        (db, Seq::empty())
    } else {
        let r1 = persist_modules_spec(db, ms.drop_last(), sid);
        let r2 = persist_module_spec(r1.0, ModuleV { station_id: Some(sid), ..ms.last() });
        (r2.0, r1.1.push(r2.1))
    }
}

/// Store and returned tree of a persisted station: the station row written
/// (insert or update by id), then every module and sensor under it.
pub open spec fn persist_station_base(db: DbV, s: StationV) -> (DbV, StationV) {
    if s.id is Some {
        (update_station_spec(db, s), s)
    } else {
        (add_station_spec(db, s), StationV { id: Some(db.next_station_id as i64), ..s })
    }
}

pub open spec fn persist_spec(db: DbV, s: StationV) -> (DbV, StationV) {
    let base = persist_station_base(db, s);
    let rm = persist_modules_spec(base.0, s.modules, id_of(base.1.id));
    (rm.0, StationV { modules: rm.1, ..base.1 })
}

/// A tree that has never been persisted: no row ids anywhere.
pub open spec fn station_fresh(s: StationV) -> bool {
    &&& s.id is None
    &&& forall|k: int| 0 <= k < s.modules.len() ==> (#[trigger] s.modules[k]).id is None
    &&& forall|k: int, l: int|
        0 <= k < s.modules.len() && 0 <= l < s.modules[k].sensors.len() ==> (#[trigger] s.modules[k].sensors[l]).id is None
}

/// How many sensors a module list carries in all.
pub open spec fn total_sensors(ms: Seq<ModuleV>) -> int
    decreases ms.len(),
{
    if ms.len() == 0 {
        0
    } else {
        total_sensors(ms.drop_last()) + ms.last().sensors.len()
    }
}

/// Row ids left for the whole tree.
pub open spec fn persist_headroom(db: DbV, s: StationV) -> bool {
    &&& db.next_station_id + 1 <= i64::MAX
    &&& db.next_module_id + s.modules.len() <= i64::MAX
    &&& db.next_sensor_id + total_sensors(s.modules) <= i64::MAX
}

proof fn lemma_persist_sensors_bounds(db: DbV, ss: Seq<SensorV>, mid: i64)
    ensures
        persist_sensors_spec(db, ss, mid).0.next_sensor_id <= db.next_sensor_id + ss.len(),
        db.next_sensor_id <= persist_sensors_spec(db, ss, mid).0.next_sensor_id,
        persist_sensors_spec(db, ss, mid).0.next_module_id == db.next_module_id,
        persist_sensors_spec(db, ss, mid).0.next_station_id == db.next_station_id,
        persist_sensors_spec(db, ss, mid).0.opened == db.opened,
    decreases ss.len(),
{
    if ss.len() > 0 {
        lemma_persist_sensors_bounds(db, ss.drop_last(), mid);
    }
}

proof fn lemma_persist_modules_bounds(db: DbV, ms: Seq<ModuleV>, sid: i64)
    ensures
        persist_modules_spec(db, ms, sid).0.next_module_id <= db.next_module_id + ms.len(),
        db.next_module_id <= persist_modules_spec(db, ms, sid).0.next_module_id,
        persist_modules_spec(db, ms, sid).0.next_sensor_id <= db.next_sensor_id + total_sensors(
            ms,
        ),
        db.next_sensor_id <= persist_modules_spec(db, ms, sid).0.next_sensor_id,
        persist_modules_spec(db, ms, sid).0.next_station_id == db.next_station_id,
        persist_modules_spec(db, ms, sid).0.opened == db.opened,
    decreases ms.len(),
{
    if ms.len() > 0 {
        lemma_persist_modules_bounds(db, ms.drop_last(), sid);
        let r1 = persist_modules_spec(db, ms.drop_last(), sid);
        let m2 = ModuleV { station_id: Some(sid), ..ms.last() };
        let base = if m2.id is Some {
            (update_module_spec(r1.0, m2), m2)
        } else {
            (add_module_spec(r1.0, m2), ModuleV { id: Some(r1.0.next_module_id as i64), ..m2 })
        };
        lemma_persist_sensors_bounds(base.0, m2.sensors, id_of(base.1.id));
    }
}

proof fn lemma_total_sensors_take(ms: Seq<ModuleV>, k: int)
    requires
        0 <= k <= ms.len(),
    ensures
        total_sensors(ms.take(k)) <= total_sensors(ms),
        forall|j: int| 0 <= j < ms.len() ==> (#[trigger] ms[j]).sensors.len() >= 0,
    decreases ms.len() - k,
{
    if k < ms.len() {
        assert(ms.take(k + 1).drop_last() =~= ms.take(k));
        lemma_total_sensors_take(ms, k + 1);
        if k + 1 == ms.len() {
            assert(ms.take(k + 1) =~= ms);
        }
    } else {
        assert(ms.take(k) =~= ms);
    }
}

// ---------------------------------------------------------------------------
// When a persist succeeds: an update must find its row, an insert must have
// a row id left. The predicates walk the same states as the transitions.
// ---------------------------------------------------------------------------

/// Whether writing one sensor succeeds in the given store.
pub open spec fn persist_sensor_ok(db: DbV, s: SensorV) -> bool {
    if s.id is Some {
        db.opened && find_sensor_index(db.sensors, id_of(s.id)) >= 0
    } else {
        db.opened && db.next_sensor_id + 1 <= i64::MAX
    }
}

/// Whether persisting a module's sensors, left to right, succeeds.
pub open spec fn persist_sensors_ok(db: DbV, ss: Seq<SensorV>, mid: i64) -> bool
    decreases ss.len(),
{
    if ss.len() == 0 {
        true
    } else {
        let r1 = persist_sensors_spec(db, ss.drop_last(), mid);
        persist_sensors_ok(db, ss.drop_last(), mid) && persist_sensor_ok(
            r1.0,
            SensorV { module_id: Some(mid), ..ss.last() },
        )
    }
}

/// Whether persisting one module and its sensors succeeds.
pub open spec fn persist_module_ok(db: DbV, m: ModuleV) -> bool {
    let ok_row = if m.id is Some {
        db.opened && find_module_index(db.modules, id_of(m.id)) >= 0
    } else {
        db.opened && db.next_module_id + 1 <= i64::MAX
    };
    let base = persist_module_base(db, m);
    ok_row && persist_sensors_ok(base.0, m.sensors, id_of(base.1.id))
}

/// Whether persisting a station's modules, left to right, succeeds.
pub open spec fn persist_modules_ok(db: DbV, ms: Seq<ModuleV>, sid: i64) -> bool
    decreases ms.len(),
{
    if ms.len() == 0 {
        true
    } else {
        let r1 = persist_modules_spec(db, ms.drop_last(), sid);
        persist_modules_ok(db, ms.drop_last(), sid) && persist_module_ok(
            r1.0,
            ModuleV { station_id: Some(sid), ..ms.last() },
        )
    }
}

/// Whether persisting a whole station tree succeeds.
pub open spec fn persist_station_ok(db: DbV, s: StationV) -> bool {
    let ok_row = if s.id is Some {
        db.opened && find_station_index(db.stations, id_of(s.id)) >= 0
    } else {
        db.opened && db.next_station_id + 1 <= i64::MAX
    };
    let base = persist_station_base(db, s);
    ok_row && persist_modules_ok(base.0, s.modules, id_of(base.1.id))
}

proof fn lemma_persist_sensors_ok_prefix(db: DbV, ss: Seq<SensorV>, mid: i64, j: int)
    requires
        0 <= j <= ss.len(),
        persist_sensors_ok(db, ss, mid),
    ensures
        persist_sensors_ok(db, ss.take(j), mid),
    decreases ss.len() - j,
{
    if j == ss.len() {
        assert(ss.take(j) =~= ss);
    } else {
        lemma_persist_sensors_ok_prefix(db, ss, mid, j + 1);
        assert(ss.take(j + 1).drop_last() =~= ss.take(j));
    }
}

proof fn lemma_persist_modules_ok_prefix(db: DbV, ms: Seq<ModuleV>, sid: i64, j: int)
    requires
        0 <= j <= ms.len(),
        persist_modules_ok(db, ms, sid),
    ensures
        persist_modules_ok(db, ms.take(j), sid),
    decreases ms.len() - j,
{
    if j == ms.len() {
        assert(ms.take(j) =~= ms);
    } else {
        lemma_persist_modules_ok_prefix(db, ms, sid, j + 1);
        assert(ms.take(j + 1).drop_last() =~= ms.take(j));
    }
}

proof fn lemma_find_station_index_some(ss: Seq<StationV>, id: i64, j: int)
    requires
        0 <= j < ss.len(),
        ss[j].id == Some(id),
    ensures
        find_station_index(ss, id) >= 0,
    decreases j,
{
    if ss[0].id != Some(id) {
        lemma_find_station_index_some(ss.drop_first(), id, j - 1);
    }
}

proof fn lemma_find_module_index_some(ms: Seq<ModuleV>, id: i64, j: int)
    requires
        0 <= j < ms.len(),
        ms[j].id == Some(id),
    ensures
        find_module_index(ms, id) >= 0,
    decreases j,
{
    if ms[0].id != Some(id) {
        lemma_find_module_index_some(ms.drop_first(), id, j - 1);
    }
}

proof fn lemma_find_sensor_index_some(ss: Seq<SensorV>, id: i64, j: int)
    requires
        0 <= j < ss.len(),
        ss[j].id == Some(id),
    ensures
        find_sensor_index(ss, id) >= 0,
    decreases j,
{
    if ss[0].id != Some(id) {
        lemma_find_sensor_index_some(ss.drop_first(), id, j - 1);
    }
}

/// A row findable by id before some rows change in place (ids kept) and
/// others are appended is still findable.
proof fn lemma_find_module_index_still(old_ms: Seq<ModuleV>, new_ms: Seq<ModuleV>, id: i64)
    requires
        new_ms.len() >= old_ms.len(),
        forall|k: int| 0 <= k < old_ms.len() ==> (#[trigger] new_ms[k]).id == old_ms[k].id,
        find_module_index(old_ms, id) >= 0,
    ensures
        find_module_index(new_ms, id) >= 0,
{
    lemma_find_module_index_props(old_ms, id);
    let j = find_module_index(old_ms, id);
    assert(new_ms[j].id == Some(id));
    lemma_find_module_index_some(new_ms, id, j);
}

proof fn lemma_find_sensor_index_still(old_ss: Seq<SensorV>, new_ss: Seq<SensorV>, id: i64)
    requires
        new_ss.len() >= old_ss.len(),
        forall|k: int| 0 <= k < old_ss.len() ==> (#[trigger] new_ss[k]).id == old_ss[k].id,
        find_sensor_index(old_ss, id) >= 0,
    ensures
        find_sensor_index(new_ss, id) >= 0,
{
    lemma_find_sensor_index_props(old_ss, id);
    let j = find_sensor_index(old_ss, id);
    assert(new_ss[j].id == Some(id));
    lemma_find_sensor_index_some(new_ss, id, j);
}

/// How a run of sensor writes that succeeds reshapes the store: only the
/// sensor table moves, existing rows keep their ids in place, new rows are
/// appended.
proof fn lemma_persist_sensors_shape(db: DbV, ss: Seq<SensorV>, mid: i64)
    requires
        persist_sensors_ok(db, ss, mid),
    ensures
        ({
            let r = persist_sensors_spec(db, ss, mid);
            &&& r.0.stations == db.stations
            &&& r.0.modules == db.modules
            &&& r.0.downloads == db.downloads
            &&& r.0.opened == db.opened
            &&& r.0.sensors.len() >= db.sensors.len()
            &&& forall|k: int|
                0 <= k < db.sensors.len() ==> (#[trigger] r.0.sensors[k]).id == db.sensors[k].id
        }),
    decreases ss.len(),
{
    let r = persist_sensors_spec(db, ss, mid);
    if ss.len() > 0 {
        lemma_persist_sensors_shape(db, ss.drop_last(), mid);
        let r1 = persist_sensors_spec(db, ss.drop_last(), mid);
        let s2 = SensorV { module_id: Some(mid), ..ss.last() };
        if s2.id is Some {
            let j = find_sensor_index(r1.0.sensors, id_of(s2.id));
            assert(j >= 0);
            lemma_find_sensor_index_props(r1.0.sensors, id_of(s2.id));
            assert(r.0.sensors =~= r1.0.sensors.update(j, updated_sensor_row(r1.0.sensors[j], s2)));
            assert forall|k: int|
                0 <= k < db.sensors.len() implies (#[trigger] r.0.sensors[k]).id
                == db.sensors[k].id by {
                if k == j {
                    assert(r.0.sensors[k].id == r1.0.sensors[k].id);
                }
            }
        } else {
            assert(r.0.sensors =~= r1.0.sensors.push(sensor_row_of(s2, r1.0.next_sensor_id)));
        }
    }
}

/// How a run of module writes that succeeds reshapes the store: stations
/// and downloads stand still; module and sensor rows keep their ids in
/// place, new rows are appended.
proof fn lemma_persist_modules_shape(db: DbV, ms: Seq<ModuleV>, sid: i64)
    requires
        persist_modules_ok(db, ms, sid),
    ensures
        ({
            let r = persist_modules_spec(db, ms, sid);
            &&& r.0.stations == db.stations
            &&& r.0.downloads == db.downloads
            &&& r.0.opened == db.opened
            &&& r.0.modules.len() >= db.modules.len()
            &&& forall|k: int|
                0 <= k < db.modules.len() ==> (#[trigger] r.0.modules[k]).id == db.modules[k].id
            &&& r.0.sensors.len() >= db.sensors.len()
            &&& forall|k: int|
                0 <= k < db.sensors.len() ==> (#[trigger] r.0.sensors[k]).id == db.sensors[k].id
        }),
    decreases ms.len(),
{
    let r = persist_modules_spec(db, ms, sid);
    if ms.len() > 0 {
        lemma_persist_modules_shape(db, ms.drop_last(), sid);
        let r1 = persist_modules_spec(db, ms.drop_last(), sid);
        let m2 = ModuleV { station_id: Some(sid), ..ms.last() };
        let base = persist_module_base(r1.0, m2);
        if m2.id is Some {
            let j = find_module_index(r1.0.modules, id_of(m2.id));
            assert(j >= 0);
            lemma_find_module_index_props(r1.0.modules, id_of(m2.id));
            assert(base.0.modules =~= r1.0.modules.update(
                j,
                updated_module_row(r1.0.modules[j], m2),
            ));
            assert forall|k: int|
                0 <= k < db.modules.len() implies (#[trigger] base.0.modules[k]).id
                == db.modules[k].id by {
                if k == j {
                    assert(base.0.modules[k].id == r1.0.modules[k].id);
                }
            }
        } else {
            assert(base.0.modules =~= r1.0.modules.push(module_row_of(m2, r1.0.next_module_id)));
        }
        lemma_persist_sensors_shape(base.0, m2.sensors, id_of(base.1.id));
    }
}

/// Persisting a tree of sensors that never saw the store succeeds whenever
/// ids are left for all of them.
proof fn lemma_persist_sensors_fresh_ok(db: DbV, ss: Seq<SensorV>, mid: i64)
    requires
        db.opened,
        forall|l: int| 0 <= l < ss.len() ==> (#[trigger] ss[l]).id is None,
        db.next_sensor_id + ss.len() <= i64::MAX,
    ensures
        persist_sensors_ok(db, ss, mid),
    decreases ss.len(),
{
    if ss.len() > 0 {
        assert(forall|l: int|
            0 <= l < ss.drop_last().len() ==> (#[trigger] ss.drop_last()[l]).id is None);
        lemma_persist_sensors_fresh_ok(db, ss.drop_last(), mid);
        lemma_persist_sensors_bounds(db, ss.drop_last(), mid);
        lemma_persist_sensors_shape(db, ss.drop_last(), mid);
        assert(ss[ss.len() - 1] == ss.last());
    }
}

/// Persisting modules that never saw the store succeeds whenever ids are
/// left for them and their sensors.
proof fn lemma_persist_modules_fresh_ok(db: DbV, ms: Seq<ModuleV>, sid: i64)
    requires
        db.opened,
        forall|k: int| 0 <= k < ms.len() ==> (#[trigger] ms[k]).id is None,
        forall|k: int, l: int|
            0 <= k < ms.len() && 0 <= l < ms[k].sensors.len() ==> (#[trigger] ms[k].sensors[l]).id
                is None,
        db.next_module_id + ms.len() <= i64::MAX,
        db.next_sensor_id + total_sensors(ms) <= i64::MAX,
    ensures
        persist_modules_ok(db, ms, sid),
    decreases ms.len(),
{
    lemma_total_sensors_take(ms, 0);
    if ms.len() > 0 {
        assert(forall|k: int|
            0 <= k < ms.drop_last().len() ==> (#[trigger] ms.drop_last()[k]).id is None);
        assert(forall|k: int, l: int|
            0 <= k < ms.drop_last().len() && 0 <= l < ms.drop_last()[k].sensors.len() ==> (
            #[trigger] ms.drop_last()[k].sensors[l]).id is None);
        assert(total_sensors(ms) == total_sensors(ms.drop_last()) + ms.last().sensors.len());
        lemma_persist_modules_fresh_ok(db, ms.drop_last(), sid);
        lemma_persist_modules_bounds(db, ms.drop_last(), sid);
        lemma_persist_modules_shape(db, ms.drop_last(), sid);
        let r1 = persist_modules_spec(db, ms.drop_last(), sid);
        let m2 = ModuleV { station_id: Some(sid), ..ms.last() };
        assert(ms[ms.len() - 1] == ms.last());
        assert(m2.id is None);
        let base = persist_module_base(r1.0, m2);
        assert(base.0.opened == db.opened);
        assert(base.0.next_sensor_id == r1.0.next_sensor_id);
        assert(forall|l: int| 0 <= l < m2.sensors.len() ==> (#[trigger] m2.sensors[l]).id is None);
        lemma_persist_sensors_fresh_ok(base.0, m2.sensors, id_of(base.1.id));
    }
}

/// Persisting a tree that never saw the store succeeds whenever ids are
/// left for all its rows.
pub proof fn lemma_persist_fresh_ok(db: DbV, s: StationV)
    requires
        db.opened,
        station_fresh(s),
        persist_headroom(db, s),
    ensures
        persist_station_ok(db, s),
{
    assert(s.id is None);
    let db1 = add_station_spec(db, s);
    assert(db1.opened == db.opened);
    assert(db1.next_module_id == db.next_module_id);
    assert(db1.next_sensor_id == db.next_sensor_id);
    lemma_persist_modules_fresh_ok(db1, s.modules, id_of(Some(db.next_station_id as i64)));
}

/// A module whose row ids all refer to rows the store holds.
pub open spec fn module_anchored(db: DbV, m: ModuleV) -> bool {
    &&& (m.id is None || find_module_index(db.modules, id_of(m.id)) >= 0)
    &&& forall|l: int|
        0 <= l < m.sensors.len() ==> ((#[trigger] m.sensors[l]).id is None || find_sensor_index(
            db.sensors,
            id_of(m.sensors[l].id),
        ) >= 0)
}

/// Persisting sensors that are fresh or anchored in the store succeeds
/// whenever ids are left for the fresh ones.
proof fn lemma_persist_sensors_anchored_ok(db: DbV, ss: Seq<SensorV>, mid: i64)
    requires
        db.opened,
        forall|l: int|
            0 <= l < ss.len() ==> ((#[trigger] ss[l]).id is None || find_sensor_index(
                db.sensors,
                id_of(ss[l].id),
            ) >= 0),
        db.next_sensor_id + ss.len() <= i64::MAX,
    ensures
        persist_sensors_ok(db, ss, mid),
    decreases ss.len(),
{
    if ss.len() > 0 {
        assert(forall|l: int|
            0 <= l < ss.drop_last().len() ==> ((#[trigger] ss.drop_last()[l]).id is None
                || find_sensor_index(db.sensors, id_of(ss.drop_last()[l].id)) >= 0));
        lemma_persist_sensors_anchored_ok(db, ss.drop_last(), mid);
        lemma_persist_sensors_bounds(db, ss.drop_last(), mid);
        lemma_persist_sensors_shape(db, ss.drop_last(), mid);
        let r1 = persist_sensors_spec(db, ss.drop_last(), mid);
        let s2 = SensorV { module_id: Some(mid), ..ss.last() };
        assert(ss[ss.len() - 1] == ss.last());
        if s2.id is Some {
            lemma_find_sensor_index_still(db.sensors, r1.0.sensors, id_of(s2.id));
        }
    }
}

/// Persisting modules that are fresh or anchored in the store succeeds
/// whenever ids are left for the fresh rows.
proof fn lemma_persist_modules_anchored_ok(db: DbV, ms: Seq<ModuleV>, sid: i64)
    requires
        db.opened,
        forall|k: int| 0 <= k < ms.len() ==> module_anchored(db, #[trigger] ms[k]),
        db.next_module_id + ms.len() <= i64::MAX,
        db.next_sensor_id + total_sensors(ms) <= i64::MAX,
    ensures
        persist_modules_ok(db, ms, sid),
    decreases ms.len(),
{
    lemma_total_sensors_take(ms, 0);
    if ms.len() > 0 {
        assert(forall|k: int|
            0 <= k < ms.drop_last().len() ==> module_anchored(db, #[trigger] ms.drop_last()[k]));
        assert(total_sensors(ms) == total_sensors(ms.drop_last()) + ms.last().sensors.len());
        lemma_persist_modules_anchored_ok(db, ms.drop_last(), sid);
        lemma_persist_modules_bounds(db, ms.drop_last(), sid);
        lemma_persist_modules_shape(db, ms.drop_last(), sid);
        let r1 = persist_modules_spec(db, ms.drop_last(), sid);
        let m2 = ModuleV { station_id: Some(sid), ..ms.last() };
        assert(ms[ms.len() - 1] == ms.last());
        assert(module_anchored(db, ms.last()));
        if m2.id is Some {
            lemma_find_module_index_still(db.modules, r1.0.modules, id_of(m2.id));
        }
        let base = persist_module_base(r1.0, m2);
        assert(base.0.sensors == r1.0.sensors);
        assert(base.0.opened == db.opened);
        assert(base.0.next_sensor_id == r1.0.next_sensor_id);
        assert forall|l: int|
            0 <= l < m2.sensors.len() implies ((#[trigger] m2.sensors[l]).id is None
            || find_sensor_index(base.0.sensors, id_of(m2.sensors[l].id)) >= 0) by {
            if m2.sensors[l].id is Some {
                assert(find_sensor_index(db.sensors, id_of(ms.last().sensors[l].id)) >= 0);
                lemma_find_sensor_index_still(db.sensors, r1.0.sensors, id_of(m2.sensors[l].id));
            }
        }
        lemma_persist_sensors_anchored_ok(base.0, m2.sensors, id_of(base.1.id));
    }
}

/// The sequence of station views behind a station vector.
pub open spec fn stations_view(v: Vec<Station>) -> Seq<StationV> {
    Seq::new(v@.len(), |i: int| v@[i]@)
}

/// The sequence of download views behind a download vector.
pub open spec fn downloads_view(v: Vec<StationDownload>) -> Seq<StationDownloadV> {
    Seq::new(v@.len(), |i: int| v@[i]@)
}

/// How many station rows carry the device id.
pub open spec fn device_count(ss: Seq<StationV>, d: Seq<char>) -> int
    decreases ss.len(),
{
    if ss.len() == 0 {
        0
    } else {
        device_count(ss.drop_last(), d) + if ss.last().device_id == d {
            1int
        } else {
            0int
        }
    }
}

/// The store after overwriting the coordinates of the one row with the
/// device id.
pub open spec fn update_location_spec(db: DbV, d: Seq<char>, lat: u64, lng: u64) -> DbV {
    let j = find_station_by_device(db.stations, d);
    DbV {
        stations: db.stations.update(
            j,
            StationV {
                last_seen_location: Some(
                    crate::model::Coordinates { latitude: lat, longitude: lng },
                ),
                ..db.stations[j]
            },
        ),
        ..db
    }
}

proof fn lemma_device_count_nonneg(ss: Seq<StationV>, d: Seq<char>)
    ensures
        device_count(ss, d) >= 0,
    decreases ss.len(),
{
    if ss.len() > 0 {
        lemma_device_count_nonneg(ss.drop_last(), d);
    }
}

proof fn lemma_device_count_zero(ss: Seq<StationV>, d: Seq<char>)
    requires
        device_count(ss, d) == 0,
    ensures
        forall|k: int| 0 <= k < ss.len() ==> (#[trigger] ss[k]).device_id != d,
    decreases ss.len(),
{
    if ss.len() > 0 {
        lemma_device_count_nonneg(ss.drop_last(), d);
        lemma_device_count_zero(ss.drop_last(), d);
        assert forall|k: int| 0 <= k < ss.len() implies (#[trigger] ss[k]).device_id != d by {
            if k < ss.len() - 1 {
                assert(ss.drop_last()[k] == ss[k]);
            } else {
                assert(ss[k] == ss.last());
            }
        }
    }
}

proof fn lemma_device_count_of_none(ss: Seq<StationV>, d: Seq<char>)
    requires
        forall|k: int| 0 <= k < ss.len() ==> (#[trigger] ss[k]).device_id != d,
    ensures
        device_count(ss, d) == 0,
    decreases ss.len(),
{
    if ss.len() > 0 {
        lemma_device_count_of_none(ss.drop_last(), d);
    }
}

/// Some module row of the station owns this sensor's parent id.
pub open spec fn module_of_station(ms: Seq<ModuleV>, sid: i64, mid: Option<i64>) -> bool {
    exists|k: int| 0 <= k < ms.len() && ms[k].station_id == Some(sid) && ms[k].id == mid
}

/// The sensor rows left after deleting a station: those not owned by one of
/// its modules.
pub open spec fn sensors_after_delete(ss: Seq<SensorV>, ms: Seq<ModuleV>, sid: i64) -> Seq<SensorV>
    decreases ss.len(),
{
    if ss.len() == 0 {
        Seq::empty()
    } else {
        sensors_after_delete(ss.drop_last(), ms, sid) + if module_of_station(
            ms,
            sid,
            ss.last().module_id,
        ) {
            Seq::empty()
        } else {
            seq![ss.last()]
        }
    }
}

/// The module rows left after deleting a station.
pub open spec fn modules_after_delete(ms: Seq<ModuleV>, sid: i64) -> Seq<ModuleV>
    decreases ms.len(),
{
    if ms.len() == 0 {
        Seq::empty()
    } else {
        modules_after_delete(ms.drop_last(), sid) + if ms.last().station_id == Some(sid) {
            Seq::empty()
        } else {
            seq![ms.last()]
        }
    }
}

/// The download rows left after deleting a station.
pub open spec fn downloads_after_delete(ds: Seq<StationDownloadV>, sid: i64) -> Seq<
    StationDownloadV,
>
    decreases ds.len(),
{
    if ds.len() == 0 {
        Seq::empty()
    } else {
        downloads_after_delete(ds.drop_last(), sid) + if ds.last().station_id == sid {
            Seq::empty()
        } else {
            seq![ds.last()]
        }
    }
}

/// The station rows left after deleting one by id.
pub open spec fn stations_after_delete(ss: Seq<StationV>, sid: i64) -> Seq<StationV>
    decreases ss.len(),
{
    if ss.len() == 0 {
        Seq::empty()
    } else {
        stations_after_delete(ss.drop_last(), sid) + if ss.last().id == Some(sid) {
            Seq::empty()
        } else {
            seq![ss.last()]
        }
    }
}

/// The store after the delete cascade: sensors of the station's modules,
/// then its modules, its downloads, and the station row itself.
pub open spec fn delete_station_spec(db: DbV, sid: i64) -> DbV {
    DbV {
        sensors: sensors_after_delete(db.sensors, db.modules, sid),
        modules: modules_after_delete(db.modules, sid),
        downloads: downloads_after_delete(db.downloads, sid),
        stations: stations_after_delete(db.stations, sid),
        ..db
    }
}

proof fn lemma_sensors_after_delete_sub(ss: Seq<SensorV>, ms: Seq<ModuleV>, sid: i64)
    ensures
        forall|k: int|
            0 <= k < sensors_after_delete(ss, ms, sid).len() ==> ss.contains(
                #[trigger] sensors_after_delete(ss, ms, sid)[k],
            ),
    decreases ss.len(),
{
    if ss.len() > 0 {
        lemma_sensors_after_delete_sub(ss.drop_last(), ms, sid);
        assert forall|k: int| 0 <= k < sensors_after_delete(ss, ms, sid).len() implies ss.contains(
            #[trigger] sensors_after_delete(ss, ms, sid)[k],
        ) by {
            let prefix = sensors_after_delete(ss.drop_last(), ms, sid);
            if k < prefix.len() {
                assert(sensors_after_delete(ss, ms, sid)[k] == prefix[k]);
                let l = choose|l: int|
                    0 <= l < ss.drop_last().len() && ss.drop_last()[l] == prefix[k];
                assert(ss[l] == prefix[k]);
            } else {
                assert(sensors_after_delete(ss, ms, sid)[k] == ss.last());
                assert(ss[ss.len() - 1] == ss.last());
            }
        }
    }
}

proof fn lemma_modules_after_delete_sub(ms: Seq<ModuleV>, sid: i64)
    ensures
        forall|k: int|
            0 <= k < modules_after_delete(ms, sid).len() ==> ms.contains(
                #[trigger] modules_after_delete(ms, sid)[k],
            ),
    decreases ms.len(),
{
    if ms.len() > 0 {
        lemma_modules_after_delete_sub(ms.drop_last(), sid);
        assert forall|k: int| 0 <= k < modules_after_delete(ms, sid).len() implies ms.contains(
            #[trigger] modules_after_delete(ms, sid)[k],
        ) by {
            let prefix = modules_after_delete(ms.drop_last(), sid);
            if k < prefix.len() {
                assert(modules_after_delete(ms, sid)[k] == prefix[k]);
                let l = choose|l: int|
                    0 <= l < ms.drop_last().len() && ms.drop_last()[l] == prefix[k];
                assert(ms[l] == prefix[k]);
            } else {
                assert(modules_after_delete(ms, sid)[k] == ms.last());
                assert(ms[ms.len() - 1] == ms.last());
            }
        }
    }
}

proof fn lemma_downloads_after_delete_sub(ds: Seq<StationDownloadV>, sid: i64)
    ensures
        forall|k: int|
            0 <= k < downloads_after_delete(ds, sid).len() ==> ds.contains(
                #[trigger] downloads_after_delete(ds, sid)[k],
            ),
    decreases ds.len(),
{
    if ds.len() > 0 {
        lemma_downloads_after_delete_sub(ds.drop_last(), sid);
        assert forall|k: int| 0 <= k < downloads_after_delete(ds, sid).len() implies ds.contains(
            #[trigger] downloads_after_delete(ds, sid)[k],
        ) by {
            let prefix = downloads_after_delete(ds.drop_last(), sid);
            if k < prefix.len() {
                assert(downloads_after_delete(ds, sid)[k] == prefix[k]);
                let l = choose|l: int|
                    0 <= l < ds.drop_last().len() && ds.drop_last()[l] == prefix[k];
                assert(ds[l] == prefix[k]);
            } else {
                assert(downloads_after_delete(ds, sid)[k] == ds.last());
                assert(ds[ds.len() - 1] == ds.last());
            }
        }
    }
}

proof fn lemma_stations_after_delete_sub(ss: Seq<StationV>, sid: i64)
    ensures
        forall|k: int|
            0 <= k < stations_after_delete(ss, sid).len() ==> ss.contains(
                #[trigger] stations_after_delete(ss, sid)[k],
            ),
    decreases ss.len(),
{
    if ss.len() > 0 {
        lemma_stations_after_delete_sub(ss.drop_last(), sid);
        assert forall|k: int| 0 <= k < stations_after_delete(ss, sid).len() implies ss.contains(
            #[trigger] stations_after_delete(ss, sid)[k],
        ) by {
            let prefix = stations_after_delete(ss.drop_last(), sid);
            if k < prefix.len() {
                assert(stations_after_delete(ss, sid)[k] == prefix[k]);
                let l = choose|l: int|
                    0 <= l < ss.drop_last().len() && ss.drop_last()[l] == prefix[k];
                assert(ss[l] == prefix[k]);
            } else {
                assert(stations_after_delete(ss, sid)[k] == ss.last());
                assert(ss[ss.len() - 1] == ss.last());
            }
        }
    }
}

proof fn lemma_sensors_after_delete_unique(ss: Seq<SensorV>, ms: Seq<ModuleV>, sid: i64)
    requires
        forall|k: int, l: int| 0 <= k < l < ss.len() ==> ss[k].id != ss[l].id,
    ensures
        forall|k: int, l: int|
            0 <= k < l < sensors_after_delete(ss, ms, sid).len() ==> sensors_after_delete(
                ss,
                ms,
                sid,
            )[k].id != sensors_after_delete(ss, ms, sid)[l].id,
    decreases ss.len(),
{
    if ss.len() > 0 {
        assert(forall|k: int, l: int|
            0 <= k < l < ss.drop_last().len() ==> ss.drop_last()[k].id != ss.drop_last()[l].id);
        lemma_sensors_after_delete_unique(ss.drop_last(), ms, sid);
        lemma_sensors_after_delete_sub(ss.drop_last(), ms, sid);
        let out = sensors_after_delete(ss, ms, sid);
        let prefix = sensors_after_delete(ss.drop_last(), ms, sid);
        assert forall|k: int, l: int| 0 <= k < l < out.len() implies out[k].id != out[l].id by {
            if l < prefix.len() {
            } else {
                assert(out[l] == ss.last());
                assert(ss.drop_last().contains(prefix[k]));
                let a = choose|a: int|
                    0 <= a < ss.drop_last().len() && ss.drop_last()[a] == prefix[k];
                assert(ss[a] == prefix[k]);
                assert(ss[ss.len() - 1] == ss.last());
            }
        }
    }
}

proof fn lemma_modules_after_delete_unique(ms: Seq<ModuleV>, sid: i64)
    requires
        forall|k: int, l: int| 0 <= k < l < ms.len() ==> ms[k].id != ms[l].id,
    ensures
        forall|k: int, l: int|
            0 <= k < l < modules_after_delete(ms, sid).len() ==> modules_after_delete(
                ms,
                sid,
            )[k].id != modules_after_delete(ms, sid)[l].id,
    decreases ms.len(),
{
    if ms.len() > 0 {
        assert(forall|k: int, l: int|
            0 <= k < l < ms.drop_last().len() ==> ms.drop_last()[k].id != ms.drop_last()[l].id);
        lemma_modules_after_delete_unique(ms.drop_last(), sid);
        lemma_modules_after_delete_sub(ms.drop_last(), sid);
        let out = modules_after_delete(ms, sid);
        let prefix = modules_after_delete(ms.drop_last(), sid);
        assert forall|k: int, l: int| 0 <= k < l < out.len() implies out[k].id != out[l].id by {
            if l < prefix.len() {
            } else {
                assert(out[l] == ms.last());
                assert(ms.drop_last().contains(prefix[k]));
                let a = choose|a: int|
                    0 <= a < ms.drop_last().len() && ms.drop_last()[a] == prefix[k];
                assert(ms[a] == prefix[k]);
                assert(ms[ms.len() - 1] == ms.last());
            }
        }
    }
}

proof fn lemma_downloads_after_delete_unique(ds: Seq<StationDownloadV>, sid: i64)
    requires
        forall|k: int, l: int| 0 <= k < l < ds.len() ==> ds[k].id != ds[l].id,
    ensures
        forall|k: int, l: int|
            0 <= k < l < downloads_after_delete(ds, sid).len() ==> downloads_after_delete(
                ds,
                sid,
            )[k].id != downloads_after_delete(ds, sid)[l].id,
    decreases ds.len(),
{
    if ds.len() > 0 {
        assert(forall|k: int, l: int|
            0 <= k < l < ds.drop_last().len() ==> ds.drop_last()[k].id != ds.drop_last()[l].id);
        lemma_downloads_after_delete_unique(ds.drop_last(), sid);
        lemma_downloads_after_delete_sub(ds.drop_last(), sid);
        let out = downloads_after_delete(ds, sid);
        let prefix = downloads_after_delete(ds.drop_last(), sid);
        assert forall|k: int, l: int| 0 <= k < l < out.len() implies out[k].id != out[l].id by {
            if l < prefix.len() {
            } else {
                assert(out[l] == ds.last());
                assert(ds.drop_last().contains(prefix[k]));
                let a = choose|a: int|
                    0 <= a < ds.drop_last().len() && ds.drop_last()[a] == prefix[k];
                assert(ds[a] == prefix[k]);
                assert(ds[ds.len() - 1] == ds.last());
            }
        }
    }
}

proof fn lemma_stations_after_delete_unique(ss: Seq<StationV>, sid: i64)
    requires
        forall|k: int, l: int| 0 <= k < l < ss.len() ==> ss[k].id != ss[l].id,
    ensures
        forall|k: int, l: int|
            0 <= k < l < stations_after_delete(ss, sid).len() ==> stations_after_delete(
                ss,
                sid,
            )[k].id != stations_after_delete(ss, sid)[l].id,
    decreases ss.len(),
{
    if ss.len() > 0 {
        assert(forall|k: int, l: int|
            0 <= k < l < ss.drop_last().len() ==> ss.drop_last()[k].id != ss.drop_last()[l].id);
        lemma_stations_after_delete_unique(ss.drop_last(), sid);
        lemma_stations_after_delete_sub(ss.drop_last(), sid);
        let out = stations_after_delete(ss, sid);
        let prefix = stations_after_delete(ss.drop_last(), sid);
        assert forall|k: int, l: int| 0 <= k < l < out.len() implies out[k].id != out[l].id by {
            if l < prefix.len() {
            } else {
                assert(out[l] == ss.last());
                assert(ss.drop_last().contains(prefix[k]));
                let a = choose|a: int|
                    0 <= a < ss.drop_last().len() && ss.drop_last()[a] == prefix[k];
                assert(ss[a] == prefix[k]);
                assert(ss[ss.len() - 1] == ss.last());
            }
        }
    }
}

/// The module rows of one station that are not tombstoned; what bulk reads
/// show.
pub open spec fn visible_modules_of(ms: Seq<ModuleV>, sid: i64) -> Seq<ModuleV>
    decreases ms.len(),
{
    if ms.len() == 0 {
        Seq::empty()
    } else {
        visible_modules_of(ms.drop_last(), sid) + if ms.last().station_id == Some(sid)
            && !ms.last().removed {
            seq![ms.last()]
        } else {
            Seq::empty()
        }
    }
}

proof fn lemma_visible_modules_of_elements(ms: Seq<ModuleV>, sid: i64)
    ensures
        forall|k: int|
            0 <= k < visible_modules_of(ms, sid).len() ==> ms.contains(
                #[trigger] visible_modules_of(ms, sid)[k],
            ) && visible_modules_of(ms, sid)[k].station_id == Some(sid),
    decreases ms.len(),
{
    if ms.len() > 0 {
        lemma_visible_modules_of_elements(ms.drop_last(), sid);
        assert forall|k: int| 0 <= k < visible_modules_of(ms, sid).len() implies ms.contains(
            #[trigger] visible_modules_of(ms, sid)[k],
        ) && visible_modules_of(ms, sid)[k].station_id == Some(sid) by {
            let prefix = visible_modules_of(ms.drop_last(), sid);
            if k < prefix.len() {
                assert(visible_modules_of(ms, sid)[k] == prefix[k]);
                let l = choose|l: int|
                    0 <= l < ms.drop_last().len() && ms.drop_last()[l] == prefix[k];
                assert(ms[l] == prefix[k]);
            } else {
                assert(visible_modules_of(ms, sid)[k] == ms.last());
                assert(ms[ms.len() - 1] == ms.last());
            }
        }
    }
}

/// The trees a bulk read returns: every station row, its modules that are
/// not tombstoned, and their sensors.
pub open spec fn get_stations_spec(db: DbV) -> Seq<StationV> {
    Seq::new(
        db.stations.len(),
        |k: int|
            StationV {
                modules: visible_modules_of(db.modules, id_of(db.stations[k].id)).map_values(
                    |m: ModuleV| hydrated_module(db, m),
                ),
                ..db.stations[k]
            },
    )
}

/// The row an insert writes for a download.
pub open spec fn download_row_of(d: StationDownloadV, id: int) -> StationDownloadV {
    StationDownloadV { id: Some(id as i64), ..d }
}

/// The store after inserting a download row.
pub open spec fn add_download_spec(db: DbV, d: StationDownloadV) -> DbV {
    DbV {
        downloads: db.downloads.push(download_row_of(d, db.next_download_id)),
        next_download_id: db.next_download_id + 1,
        ..db
    }
}

/// The first row with the given download id, or -1.
pub open spec fn find_download_index(ds: Seq<StationDownloadV>, id: i64) -> int
    decreases ds.len(),
{
    if ds.len() == 0 {
        -1
    } else if ds[0].id == Some(id) {
        0
    } else {
        let r = find_download_index(ds.drop_first(), id);
        if r < 0 {
            -1
        } else {
            r + 1
        }
    }
}

/// The store after updating the download row addressed by `d.id`.
pub open spec fn update_download_spec(db: DbV, d: StationDownloadV) -> DbV {
    let j = find_download_index(db.downloads, id_of(d.id));
    DbV {
        downloads: db.downloads.update(j, StationDownloadV { id: db.downloads[j].id, ..d }),
        ..db
    }
}

proof fn lemma_find_download_index_at(ds: Seq<StationDownloadV>, id: i64, j: int)
    requires
        0 <= j < ds.len(),
        ds[j].id == Some(id),
        forall|k: int| 0 <= k < j ==> ds[k].id != Some(id),
    ensures
        find_download_index(ds, id) == j,
    decreases j,
{
    if j > 0 {
        lemma_find_download_index_at(ds.drop_first(), id, j - 1);
    }
}

proof fn lemma_find_download_index_none(ds: Seq<StationDownloadV>, id: i64)
    requires
        forall|k: int| 0 <= k < ds.len() ==> ds[k].id != Some(id),
    ensures
        find_download_index(ds, id) == -1,
    decreases ds.len(),
{
    if ds.len() > 0 {
        lemma_find_download_index_none(ds.drop_first(), id);
    }
}

/// The download rows of one station, in table order.
pub open spec fn downloads_of(ds: Seq<StationDownloadV>, sid: i64) -> Seq<StationDownloadV>
    decreases ds.len(),
{
    if ds.len() == 0 {
        Seq::empty()
    } else {
        downloads_of(ds.drop_last(), sid) + if ds.last().station_id == sid {
            seq![ds.last()]
        } else {
            Seq::empty()
        }
    }
}

// ---------------------------------------------------------------------------
// Laws of the store.
// ---------------------------------------------------------------------------

proof fn lemma_persist_sensors_stations(db: DbV, ss: Seq<SensorV>, mid: i64)
    ensures
        persist_sensors_spec(db, ss, mid).0.stations == db.stations,
        persist_sensors_spec(db, ss, mid).0.modules == db.modules,
    decreases ss.len(),
{
    if ss.len() > 0 {
        lemma_persist_sensors_stations(db, ss.drop_last(), mid);
    }
}

proof fn lemma_persist_modules_stations(db: DbV, ms: Seq<ModuleV>, sid: i64)
    ensures
        persist_modules_spec(db, ms, sid).0.stations == db.stations,
    decreases ms.len(),
{
    if ms.len() > 0 {
        lemma_persist_modules_stations(db, ms.drop_last(), sid);
        let r1 = persist_modules_spec(db, ms.drop_last(), sid);
        let m2 = ModuleV { station_id: Some(sid), ..ms.last() };
        let base = persist_module_base(r1.0, m2);
        lemma_persist_sensors_stations(base.0, m2.sensors, id_of(base.1.id));
    }
}

proof fn lemma_sensors_of_concat(a: Seq<SensorV>, b: Seq<SensorV>, mid: i64)
    ensures
        sensors_of(a + b, mid) == sensors_of(a, mid) + sensors_of(b, mid),
    decreases b.len(),
{
    if b.len() == 0 {
        assert(a + b =~= a);
        assert(sensors_of(a, mid) + sensors_of(b, mid) =~= sensors_of(a, mid));
    } else {
        assert((a + b).drop_last() =~= a + b.drop_last());
        assert((a + b).last() == b.last());
        lemma_sensors_of_concat(a, b.drop_last(), mid);
        assert(sensors_of(a + b, mid) =~= sensors_of(a, mid) + sensors_of(b, mid));
    }
}

proof fn lemma_sensors_of_none(ss: Seq<SensorV>, mid: i64)
    requires
        forall|k: int| 0 <= k < ss.len() ==> (#[trigger] ss[k]).module_id != Some(mid),
    ensures
        sensors_of(ss, mid) == Seq::<SensorV>::empty(),
    decreases ss.len(),
{
    if ss.len() > 0 {
        assert(forall|k: int|
            0 <= k < ss.drop_last().len() ==> (#[trigger] ss.drop_last()[k]).module_id != Some(
                mid,
            ));
        lemma_sensors_of_none(ss.drop_last(), mid);
        assert(ss[ss.len() - 1] == ss.last());
        assert(sensors_of(ss, mid) =~= Seq::<SensorV>::empty());
    }
}

proof fn lemma_sensors_of_all(ss: Seq<SensorV>, mid: i64)
    requires
        forall|k: int| 0 <= k < ss.len() ==> (#[trigger] ss[k]).module_id == Some(mid),
    ensures
        sensors_of(ss, mid) == ss,
    decreases ss.len(),
{
    if ss.len() > 0 {
        assert(forall|k: int|
            0 <= k < ss.drop_last().len() ==> (#[trigger] ss.drop_last()[k]).module_id == Some(
                mid,
            ));
        lemma_sensors_of_all(ss.drop_last(), mid);
        assert(ss[ss.len() - 1] == ss.last());
        assert(sensors_of(ss, mid) =~= ss.drop_last() + seq![ss.last()]);
        assert(ss.drop_last() + seq![ss.last()] =~= ss);
    }
}

proof fn lemma_modules_of_concat(a: Seq<ModuleV>, b: Seq<ModuleV>, sid: i64)
    ensures
        modules_of(a + b, sid) == modules_of(a, sid) + modules_of(b, sid),
    decreases b.len(),
{
    if b.len() == 0 {
        assert(a + b =~= a);
        assert(modules_of(a, sid) + modules_of(b, sid) =~= modules_of(a, sid));
    } else {
        assert((a + b).drop_last() =~= a + b.drop_last());
        assert((a + b).last() == b.last());
        lemma_modules_of_concat(a, b.drop_last(), sid);
        assert(modules_of(a + b, sid) =~= modules_of(a, sid) + modules_of(b, sid));
    }
}

proof fn lemma_modules_of_none(ms: Seq<ModuleV>, sid: i64)
    requires
        forall|k: int| 0 <= k < ms.len() ==> (#[trigger] ms[k]).station_id != Some(sid),
    ensures
        modules_of(ms, sid) == Seq::<ModuleV>::empty(),
    decreases ms.len(),
{
    if ms.len() > 0 {
        assert(forall|k: int|
            0 <= k < ms.drop_last().len() ==> (#[trigger] ms.drop_last()[k]).station_id != Some(
                sid,
            ));
        lemma_modules_of_none(ms.drop_last(), sid);
        assert(ms[ms.len() - 1] == ms.last());
        assert(modules_of(ms, sid) =~= Seq::<ModuleV>::empty());
    }
}

proof fn lemma_modules_of_all(ms: Seq<ModuleV>, sid: i64)
    requires
        forall|k: int| 0 <= k < ms.len() ==> (#[trigger] ms[k]).station_id == Some(sid),
    ensures
        modules_of(ms, sid) == ms,
    decreases ms.len(),
{
    if ms.len() > 0 {
        assert(forall|k: int|
            0 <= k < ms.drop_last().len() ==> (#[trigger] ms.drop_last()[k]).station_id == Some(
                sid,
            ));
        lemma_modules_of_all(ms.drop_last(), sid);
        assert(ms[ms.len() - 1] == ms.last());
        assert(modules_of(ms, sid) =~= ms.drop_last() + seq![ms.last()]);
        assert(ms.drop_last() + seq![ms.last()] =~= ms);
    }
}

/// Persisting fresh sensors appends one row per sensor, each carrying the
/// next free id, the parent module, and no previous reading; the rows are
/// exactly what is returned.
proof fn lemma_persist_sensors_fresh(db: DbV, ss: Seq<SensorV>, mid: i64)
    requires
        forall|k: int| 0 <= k < ss.len() ==> (#[trigger] ss[k]).id is None,
    ensures
        ({
            let r = persist_sensors_spec(db, ss, mid);
            &&& r.1.len() == ss.len()
            &&& r.0 == (DbV {
                sensors: db.sensors + r.1,
                next_sensor_id: db.next_sensor_id + ss.len(),
                ..db
            })
            &&& forall|i: int|
                0 <= i < ss.len() ==> #[trigger] r.1[i] == (SensorV {
                    id: Some((db.next_sensor_id + i) as i64),
                    module_id: Some(mid),
                    previous_value: None,
                    ..ss[i]
                })
        }),
    decreases ss.len(),
{
    let r = persist_sensors_spec(db, ss, mid);
    if ss.len() == 0 {
        assert(db.sensors + r.1 =~= db.sensors);
        assert(r.0 =~= (DbV {
            sensors: db.sensors + r.1,
            next_sensor_id: db.next_sensor_id + ss.len(),
            ..db
        }));
    } else {
        assert(forall|k: int|
            0 <= k < ss.drop_last().len() ==> (#[trigger] ss.drop_last()[k]).id is None);
        lemma_persist_sensors_fresh(db, ss.drop_last(), mid);
        let r1 = persist_sensors_spec(db, ss.drop_last(), mid);
        assert(ss[ss.len() - 1] == ss.last());
        let s2 = SensorV { module_id: Some(mid), ..ss.last() };
        let row = sensor_row_of(s2, r1.0.next_sensor_id);
        assert(r.1 =~= r1.1.push(row));
        assert(db.sensors + r.1 =~= (db.sensors + r1.1).push(row));
        assert(r.0 =~= (DbV {
            sensors: db.sensors + r.1,
            next_sensor_id: db.next_sensor_id + ss.len(),
            ..db
        }));
        assert forall|i: int| 0 <= i < ss.len() implies #[trigger] r.1[i] == (SensorV {
            id: Some((db.next_sensor_id + i) as i64),
            module_id: Some(mid),
            previous_value: None,
            ..ss[i]
        }) by {
            if i < ss.len() - 1 {
                assert(r.1[i] == r1.1[i]);
                assert(ss.drop_last()[i] == ss[i]);
            } else {
                assert(r.1[i] == row);
                assert(row =~= (SensorV {
                    id: Some((db.next_sensor_id + i) as i64),
                    module_id: Some(mid),
                    previous_value: None,
                    ..ss[i]
                }));
            }
        }
    }
}

/// The module rows a fresh persist writes: one per module, ids in order
/// from the next free one, each pointing at the station, none nesting
/// sensors.
pub open spec fn fresh_module_rows(next_id: int, ms: Seq<ModuleV>, sid: i64) -> Seq<ModuleV> {
    Seq::new(
        ms.len(),
        |i: int|
            ModuleV {
                id: Some((next_id + i) as i64),
                station_id: Some(sid),
                sensors: Seq::empty(),
                ..ms[i]
            },
    )
}

/// Persisting fresh modules appends one module row per module and the rows
/// of its sensors; each returned module carries exactly the sensor rows its
/// id owns afterwards.
proof fn lemma_persist_modules_fresh(db: DbV, ms: Seq<ModuleV>, sid: i64)
    requires
        forall|k: int| 0 <= k < ms.len() ==> (#[trigger] ms[k]).id is None,
        forall|k: int, l: int|
            0 <= k < ms.len() && 0 <= l < ms[k].sensors.len() ==> (#[trigger] ms[k].sensors[l]).id
                is None,
        forall|k: int|
            0 <= k < db.sensors.len() ==> (#[trigger] db.sensors[k]).module_id is Some && 1
                <= id_of(db.sensors[k].module_id) < db.next_module_id,
        1 <= db.next_module_id,
        1 <= db.next_sensor_id,
        db.next_module_id + ms.len() <= i64::MAX,
        db.next_sensor_id + total_sensors(ms) <= i64::MAX,
    ensures
        ({
            let r = persist_modules_spec(db, ms, sid);
            &&& r.1.len() == ms.len()
            &&& r.0.stations == db.stations
            &&& r.0.downloads == db.downloads
            &&& r.0.next_station_id == db.next_station_id
            &&& r.0.next_download_id == db.next_download_id
            &&& r.0.opened == db.opened
            &&& r.0.modules == db.modules + fresh_module_rows(db.next_module_id, ms, sid)
            &&& forall|i: int|
                0 <= i < ms.len() ==> #[trigger] r.1[i] == (ModuleV {
                    id: Some((db.next_module_id + i) as i64),
                    station_id: Some(sid),
                    sensors: r.1[i].sensors,
                    ..ms[i]
                })
            &&& forall|i: int|
                0 <= i < ms.len() ==> sensors_of(r.0.sensors, id_of(#[trigger] r.1[i].id))
                    == r.1[i].sensors
            &&& forall|k: int|
                0 <= k < r.0.sensors.len() ==> (#[trigger] r.0.sensors[k]).module_id is Some && 1
                    <= id_of(r.0.sensors[k].module_id) < db.next_module_id + ms.len()
            &&& r.0.next_module_id == db.next_module_id + ms.len()
            &&& db.next_sensor_id <= r.0.next_sensor_id
            &&& r.0.next_sensor_id <= db.next_sensor_id + total_sensors(ms)
        }),
    decreases ms.len(),
{
    lemma_total_sensors_take(ms, 0);
    let r = persist_modules_spec(db, ms, sid);
    if ms.len() == 0 {
        assert(db.modules + fresh_module_rows(db.next_module_id, ms, sid) =~= db.modules);
    } else {
        assert(forall|k: int|
            0 <= k < ms.drop_last().len() ==> (#[trigger] ms.drop_last()[k]).id is None);
        assert(forall|k: int, l: int|
            0 <= k < ms.drop_last().len() && 0 <= l < ms.drop_last()[k].sensors.len() ==> (
            #[trigger] ms.drop_last()[k].sensors[l]).id is None);
        assert(total_sensors(ms) == total_sensors(ms.drop_last()) + ms.last().sensors.len());
        lemma_persist_modules_fresh(db, ms.drop_last(), sid);
        let r1 = persist_modules_spec(db, ms.drop_last(), sid);
        let prev_rows = fresh_module_rows(db.next_module_id, ms.drop_last(), sid);

        assert(ms[ms.len() - 1] == ms.last());
        let m2 = ModuleV { station_id: Some(sid), ..ms.last() };
        assert(m2.id is None);
        let base = persist_module_base(r1.0, m2);
        let row_last = module_row_of(m2, r1.0.next_module_id);
        let mrow_ret = ModuleV { id: Some(r1.0.next_module_id as i64), ..m2 };
        assert(base == (add_module_spec(r1.0, m2), mrow_ret));
        let db_a = add_module_spec(r1.0, m2);
        let mid = id_of(mrow_ret.id);
        assert(mid == db.next_module_id + ms.len() - 1);

        assert(forall|l: int| 0 <= l < m2.sensors.len() ==> (#[trigger] m2.sensors[l]).id is None);
        lemma_persist_sensors_fresh(db_a, m2.sensors, mid);
        let rs = persist_sensors_spec(db_a, m2.sensors, mid);
        assert(r.0 == rs.0);
        assert(r.1 =~= r1.1.push(ModuleV { sensors: rs.1, ..mrow_ret }));
        let last_ret = ModuleV { sensors: rs.1, ..mrow_ret };

        // The module table grows by exactly the last fresh row.
        assert(r.0.modules == r1.0.modules.push(row_last));
        assert forall|i: int|
            0 <= i < ms.len() implies fresh_module_rows(db.next_module_id, ms, sid)[i] == (
        db.modules + fresh_module_rows(db.next_module_id, ms.drop_last(), sid).push(row_last))[
            db.modules.len() + i
        ] by {
            if i < ms.len() - 1 {
                assert(ms.drop_last()[i] == ms[i]);
                assert(fresh_module_rows(db.next_module_id, ms, sid)[i] =~= prev_rows[i]);
            } else {
                assert(fresh_module_rows(db.next_module_id, ms, sid)[i] =~= row_last);
            }
        }
        assert(r.0.modules =~= db.modules + fresh_module_rows(db.next_module_id, ms, sid));

        // The returned modules.
        assert forall|i: int| 0 <= i < ms.len() implies #[trigger] r.1[i] == (ModuleV {
            id: Some((db.next_module_id + i) as i64),
            station_id: Some(sid),
            sensors: r.1[i].sensors,
            ..ms[i]
        }) by {
            if i < ms.len() - 1 {
                assert(r.1[i] == r1.1[i]);
                assert(ms.drop_last()[i] == ms[i]);
            } else {
                assert(r.1[i] == last_ret);
                assert(last_ret =~= (ModuleV {
                    id: Some((db.next_module_id + i) as i64),
                    station_id: Some(sid),
                    sensors: last_ret.sensors,
                    ..ms[i]
                }));
            }
        }

        // Each module's sensors are exactly what its id owns.
        assert(r.0.sensors == r1.0.sensors + rs.1);
        assert forall|i: int|
            0 <= i < ms.len() implies sensors_of(r.0.sensors, id_of(#[trigger] r.1[i].id))
            == r.1[i].sensors by {
            lemma_sensors_of_concat(r1.0.sensors, rs.1, id_of(r.1[i].id));
            if i < ms.len() - 1 {
                assert(r.1[i] == r1.1[i]);
                let mi = id_of(r1.1[i].id);
                assert(mi == db.next_module_id + i);
                assert(forall|k: int|
                    0 <= k < rs.1.len() ==> (#[trigger] rs.1[k]).module_id == Some(mid as i64));
                assert(mid != mi);
                assert(forall|k: int|
                    0 <= k < rs.1.len() ==> (#[trigger] rs.1[k]).module_id != Some(mi as i64));
                lemma_sensors_of_none(rs.1, mi as i64);
                assert(sensors_of(r1.0.sensors, mi as i64) == r1.1[i].sensors);
                assert(sensors_of(r.0.sensors, mi as i64) =~= r1.1[i].sensors);
            } else {
                assert(r.1[i] == last_ret);
                assert(id_of(last_ret.id) == mid);
                assert(forall|k: int|
                    0 <= k < r1.0.sensors.len() ==> (#[trigger] r1.0.sensors[k]).module_id
                        != Some(mid as i64));
                lemma_sensors_of_none(r1.0.sensors, mid as i64);
                assert(forall|k: int|
                    0 <= k < rs.1.len() ==> (#[trigger] rs.1[k]).module_id == Some(mid as i64));
                lemma_sensors_of_all(rs.1, mid as i64);
                assert(sensors_of(r.0.sensors, mid as i64) =~= rs.1);
            }
        }

        // Every sensor row still points below the new next module id.
        assert forall|k: int|
            0 <= k < r.0.sensors.len() implies (#[trigger] r.0.sensors[k]).module_id is Some && 1
            <= id_of(r.0.sensors[k].module_id) < db.next_module_id + ms.len() by {
            if k < r1.0.sensors.len() {
                assert(r.0.sensors[k] == r1.0.sensors[k]);
            } else {
                assert(r.0.sensors[k] == rs.1[k - r1.0.sensors.len()]);
            }
        }
    }
}

proof fn lemma_sensors_of_elements(ss: Seq<SensorV>, mid: i64)
    ensures
        forall|k: int|
            0 <= k < sensors_of(ss, mid).len() ==> ss.contains(#[trigger] sensors_of(ss, mid)[k])
                && sensors_of(ss, mid)[k].module_id == Some(mid),
    decreases ss.len(),
{
    if ss.len() > 0 {
        lemma_sensors_of_elements(ss.drop_last(), mid);
        assert forall|k: int| 0 <= k < sensors_of(ss, mid).len() implies ss.contains(
            #[trigger] sensors_of(ss, mid)[k],
        ) && sensors_of(ss, mid)[k].module_id == Some(mid) by {
            let prefix = sensors_of(ss.drop_last(), mid);
            if k < prefix.len() {
                assert(sensors_of(ss, mid)[k] == prefix[k]);
                let l = choose|l: int|
                    0 <= l < ss.drop_last().len() && ss.drop_last()[l] == prefix[k];
                assert(ss[l] == prefix[k]);
            } else {
                assert(sensors_of(ss, mid)[k] == ss.last());
                assert(ss[ss.len() - 1] == ss.last());
            }
        }
    }
}

/// Whatever hydration reads is anchored in the store: the station row is
/// findable by its id, and so is every module and sensor row of the tree.
proof fn lemma_hydrate_anchored(db: DbV, d: Seq<char>)
    requires
        db_wf(db),
    ensures
        (hydrate_spec(db, d) matches Some(e) ==> e.id is Some && find_station_index(
            db.stations,
            id_of(e.id),
        ) >= 0 && (forall|k: int|
            0 <= k < e.modules.len() ==> module_anchored(db, #[trigger] e.modules[k]))),
{
    let j = find_station_by_device(db.stations, d);
    lemma_find_station_by_device_props(db.stations, d);
    if j >= 0 {
        let row = db.stations[j];
        assert(station_row_wf(row, db.next_station_id));
        lemma_find_station_index_some(db.stations, id_of(row.id), j);
        let e = hydrate_spec(db, d).unwrap();
        assert(e.id == row.id);
        let sid = id_of(row.id);
        let rows = modules_of(db.modules, sid);
        lemma_modules_of_elements(db.modules, sid);
        assert forall|k: int| 0 <= k < e.modules.len() implies module_anchored(
            db,
            #[trigger] e.modules[k],
        ) by {
            assert(e.modules[k] == hydrated_module(db, rows[k]));
            assert(db.modules.contains(rows[k]));
            let w = choose|w: int| 0 <= w < db.modules.len() && db.modules[w] == rows[k];
            assert(module_row_wf(db.modules[w], db.next_station_id, db.next_module_id));
            lemma_find_module_index_some(db.modules, id_of(rows[k].id), w);
            let srows = sensors_of(db.sensors, id_of(rows[k].id));
            lemma_sensors_of_elements(db.sensors, id_of(rows[k].id));
            assert forall|l: int|
                0 <= l < e.modules[k].sensors.len() implies ((#[trigger] e.modules[k].sensors[l]).id
                is None || find_sensor_index(db.sensors, id_of(e.modules[k].sensors[l].id))
                >= 0) by {
                assert(e.modules[k].sensors[l] == srows[l]);
                assert(db.sensors.contains(srows[l]));
                let w2 = choose|w2: int| 0 <= w2 < db.sensors.len() && db.sensors[w2] == srows[l];
                assert(sensor_row_wf(db.sensors[w2], db.next_module_id, db.next_sensor_id));
                lemma_find_sensor_index_some(db.sensors, id_of(srows[l].id), w2);
            }
        }
    }
}

/// Synchronizing a freshly observed tree succeeds whenever the store is
/// open and ids are left for the rows the merged tree adds: whatever the
/// stored side holds, the merge only reuses row ids that hydration just
/// read out of the store.
proof fn lemma_synchronize_ok(db: DbV, incoming: StationV, now: i64)
    requires
        db_wf(db),
        db.opened,
        station_fresh(incoming),
        persist_headroom(
            db,
            crate::merge::merge_spec(hydrate_spec(db, incoming.device_id), incoming, 0),
        ),
    ensures
        persist_station_ok(
            db,
            crate::merge::merge_spec(hydrate_spec(db, incoming.device_id), incoming, now),
        ),
{
    let h = hydrate_spec(db, incoming.device_id);
    let m_now = crate::merge::merge_spec(h, incoming, now);
    let m0 = crate::merge::merge_spec(h, incoming, 0);
    match h {
        None => {
            assert(m_now == incoming);
            assert(m0 == incoming);
            lemma_persist_fresh_ok(db, incoming);
        },
        Some(e) => {
            lemma_hydrate_anchored(db, incoming.device_id);
            assert(m_now.id == e.id);
            assert(m_now.modules == crate::merge::merge_modules_spec(e.modules, incoming.modules));
            assert(m0.modules == m_now.modules);
            let db1 = update_station_spec(db, m_now);
            assert(persist_station_base(db, m_now) == (db1, m_now));
            assert(db1.modules == db.modules);
            assert(db1.sensors == db.sensors);
            assert(db1.opened == db.opened);
            assert(db1.next_module_id == db.next_module_id);
            assert(db1.next_sensor_id == db.next_sensor_id);

            crate::merge::lemma_merge_modules_sources(e.modules, incoming.modules);
            assert forall|k: int| 0 <= k < m_now.modules.len() implies module_anchored(
                db1,
                #[trigger] m_now.modules[k],
            ) by {
                let m = m_now.modules[k];
                assert(crate::merge::module_ids_from(m, e.modules, incoming.modules));
                if exists|j: int|
                    0 <= j < e.modules.len() && m.id == (#[trigger] e.modules[j]).id {
                    let j = choose|j: int|
                        0 <= j < e.modules.len() && m.id == (#[trigger] e.modules[j]).id;
                    assert(module_anchored(db, e.modules[j]));
                    if m.id is Some {
                        assert(find_module_index(db.modules, id_of(m.id)) >= 0);
                    }
                } else {
                    let j = choose|j: int|
                        0 <= j < incoming.modules.len() && m.id == (
                        #[trigger] incoming.modules[j]).id;
                    assert((#[trigger] incoming.modules[j]).id is None);
                }
                assert forall|l: int|
                    0 <= l < m.sensors.len() implies ((#[trigger] m.sensors[l]).id is None
                    || find_sensor_index(db1.sensors, id_of(m.sensors[l].id)) >= 0) by {
                    assert(crate::merge::sensor_id_from(
                        m.sensors[l].id,
                        e.modules,
                        incoming.modules,
                    ));
                    if exists|j: int, l2: int|
                        #![trigger e.modules[j].sensors[l2]]
                        0 <= j < e.modules.len() && 0 <= l2 < e.modules[j].sensors.len()
                            && m.sensors[l].id == e.modules[j].sensors[l2].id {
                        let (j, l2) = choose|j: int, l2: int|
                            #![trigger e.modules[j].sensors[l2]]
                            0 <= j < e.modules.len() && 0 <= l2 < e.modules[j].sensors.len()
                                && m.sensors[l].id == e.modules[j].sensors[l2].id;
                        assert(module_anchored(db, e.modules[j]));
                        assert(e.modules[j].sensors[l2].id is None || find_sensor_index(
                            db.sensors,
                            id_of(e.modules[j].sensors[l2].id),
                        ) >= 0);
                    } else {
                        let (j, l2) = choose|j: int, l2: int|
                            #![trigger incoming.modules[j].sensors[l2]]
                            0 <= j < incoming.modules.len() && 0 <= l2
                                < incoming.modules[j].sensors.len() && m.sensors[l].id
                                == incoming.modules[j].sensors[l2].id;
                        assert((#[trigger] incoming.modules[j].sensors[l2]).id is None);
                    }
                }
            }
            lemma_persist_modules_anchored_ok(db1, m_now.modules, id_of(m_now.id));
        },
    }
}

/// A station tree persisted fresh is read back whole by the next
/// hydration: the stored rows reproduce exactly the tree the persist
/// returned, with every row id filled in and no previous readings.
pub proof fn lemma_persist_then_hydrate(db: DbV, s: StationV)
    requires
        db_wf(db),
        station_fresh(s),
        find_station_by_device(db.stations, s.device_id) == -1,
        persist_headroom(db, s),
    ensures
        hydrate_spec(persist_spec(db, s).0, s.device_id) == Some(persist_spec(db, s).1),
{
    assert(s.id is None);
    let sid_i = db.next_station_id;
    let base1 = StationV { id: Some(sid_i as i64), ..s };
    assert(persist_station_base(db, s) == (add_station_spec(db, s), base1));
    let db1 = add_station_spec(db, s);
    let row0 = station_row_of(s, sid_i);
    assert(db1.stations == db.stations.push(row0));
    let sid = id_of(base1.id);
    assert(1 <= sid_i && sid_i <= i64::MAX - 1);
    assert(sid == sid_i);

    assert(db1.sensors == db.sensors);
    assert(db1.modules == db.modules);
    assert(db1.next_module_id == db.next_module_id);
    assert(db1.next_sensor_id == db.next_sensor_id);
    assert(forall|k: int|
        0 <= k < db1.sensors.len() ==> sensor_row_wf(
            #[trigger] db1.sensors[k],
            db.next_module_id,
            db.next_sensor_id,
        ));
    lemma_persist_modules_fresh(db1, s.modules, sid);
    let rm = persist_modules_spec(db1, s.modules, sid);
    let db2 = rm.0;
    assert(persist_spec(db, s) == (db2, StationV { modules: rm.1, ..base1 }));

    // Hydration finds the freshly inserted station row.
    lemma_find_station_by_device_props(db.stations, s.device_id);
    assert(db2.stations == db1.stations);
    assert(db2.stations[db.stations.len() as int] == row0);
    assert(forall|k: int|
        0 <= k < db.stations.len() ==> (#[trigger] db2.stations[k]) == db.stations[k]);
    lemma_find_station_by_device_at(db2.stations, s.device_id, db.stations.len() as int);
    let j = find_station_by_device(db2.stations, s.device_id);
    assert(j == db.stations.len());
    assert(db2.stations[j] == row0);
    assert(id_of(row0.id) == sid);

    // Its module rows are exactly the fresh ones, in order.
    let rows = fresh_module_rows(db.next_module_id, s.modules, sid);
    assert(db2.modules == db.modules + rows);
    assert forall|k: int|
        0 <= k < db.modules.len() implies (#[trigger] db.modules[k]).station_id != Some(sid) by {
        assert(module_row_wf(db.modules[k], db.next_station_id, db.next_module_id));
    }
    lemma_modules_of_none(db.modules, sid);
    assert(forall|k: int| 0 <= k < rows.len() ==> (#[trigger] rows[k]).station_id == Some(sid));
    lemma_modules_of_all(rows, sid);
    lemma_modules_of_concat(db.modules, rows, sid);
    assert(modules_of(db2.modules, sid) =~= rows);

    // Each hydrated module is the returned one.
    let mapped = modules_of(db2.modules, id_of(row0.id)).map_values(
        |m: ModuleV| hydrated_module(db2, m),
    );
    assert forall|i: int| 0 <= i < rows.len() implies mapped[i] == rm.1[i] by {
        assert(mapped[i] == hydrated_module(db2, rows[i]));
        assert(rows[i].id == Some((db.next_module_id + i) as i64));
        assert(rm.1[i] == (ModuleV {
            id: Some((db.next_module_id + i) as i64),
            station_id: Some(sid),
            sensors: rm.1[i].sensors,
            ..s.modules[i]
        }));
        assert(sensors_of(db2.sensors, id_of(rm.1[i].id)) == rm.1[i].sensors);
        assert(hydrated_module(db2, rows[i]) =~= rm.1[i]);
    }
    assert(mapped =~= rm.1);
    assert(hydrate_spec(db2, s.device_id).unwrap() =~= (StationV { modules: rm.1, ..base1 }));
    assert(hydrate_spec(db2, s.device_id) == Some(persist_spec(db, s).1));
}

/// A location written by `update_station_location` is read back by the next
/// hydration, and a later synchronization whose incoming observation
/// carries no location still preserves it.
pub proof fn lemma_location_round_trip(
    db: DbV,
    d: Seq<char>,
    lat: u64,
    lng: u64,
    incoming: StationV,
    now: i64,
)
    requires
        db_wf(db),
        db.opened,
        device_count(db.stations, d) == 1,
        incoming.device_id == d,
        incoming.last_seen_location is None,
    ensures
        ({
            let db1 = update_location_spec(db, d, lat, lng);
            let located = hydrate_spec(db1, d);
            &&& located is Some
            &&& located.unwrap().last_seen_location == Some(
                crate::model::Coordinates { latitude: lat, longitude: lng },
            )
            &&& ({
                let merged = crate::merge::merge_spec(located, incoming, now);
                let db2 = persist_spec(db1, merged).0;
                &&& hydrate_spec(db2, d) is Some
                &&& hydrate_spec(db2, d).unwrap().last_seen_location == Some(
                    crate::model::Coordinates { latitude: lat, longitude: lng },
                )
            })
        }),
{
    let coords = crate::model::Coordinates { latitude: lat, longitude: lng };
    let j = find_station_by_device(db.stations, d);
    lemma_find_station_by_device_props(db.stations, d);
    if j == -1 {
        lemma_device_count_of_none(db.stations, d);
        assert(false);
    }
    assert(station_row_wf(db.stations[j], db.next_station_id));

    let db1 = update_location_spec(db, d, lat, lng);
    let row1 = StationV { last_seen_location: Some(coords), ..db.stations[j] };
    assert(db1.stations == db.stations.update(j, row1));
    assert(db1.stations[j] == row1);
    assert(forall|k: int| 0 <= k < j ==> db1.stations[k] == db.stations[k]);
    lemma_find_station_by_device_at(db1.stations, d, j);
    assert(hydrate_spec(db1, d) is Some);
    let located = hydrate_spec(db1, d);
    assert(located.unwrap().last_seen_location == Some(coords));

    let merged = crate::merge::merge_spec(located, incoming, now);
    assert(merged.last_seen_location == Some(coords));
    assert(merged.id == row1.id);
    assert(merged.id is Some);

    // The persist takes the update path: the row is found again by its id.
    let x = id_of(merged.id);
    assert(db1.stations[j].id == Some(x));
    assert forall|k: int| 0 <= k < j implies db1.stations[k].id != Some(x) by {
        assert(db_wf(db));
        assert(db.stations[k].id != db.stations[j].id);
    }
    lemma_find_station_index_at(db1.stations, x, j);
    let db1b = update_station_spec(db1, merged);
    let row2 = updated_station_row(row1, merged);
    assert(row2.last_seen_location == Some(coords));
    assert(row2.device_id == d);
    assert(db1b.stations == db1.stations.update(j, row2));

    let base = persist_station_base(db1, merged);
    assert(base.0 == db1b);
    let db2 = persist_spec(db1, merged).0;
    lemma_persist_modules_stations(db1b, merged.modules, id_of(base.1.id));
    assert(db2.stations == db1b.stations);

    assert(db2.stations[j] == row2);
    assert(forall|k: int| 0 <= k < j ==> db2.stations[k] == db1.stations[k]);
    lemma_find_station_by_device_at(db2.stations, d, j);
    assert(hydrate_spec(db2, d) is Some);
    assert(hydrate_spec(db2, d).unwrap().last_seen_location == Some(coords));
}

// ---------------------------------------------------------------------------
// The operations.
// ---------------------------------------------------------------------------

impl Db {
    /// Well-formedness of this store; every operation preserves it.
    pub open spec fn wf(&self) -> bool {
        db_wf(self@)
    }

    /// A store with nothing in it, not yet opened.
    pub fn new() -> (r: Db)
        ensures
            r@ == db_closed(),
            r.wf(),
    {
        let r = Db {
            opened: false,
            stations: Vec::new(),
            modules: Vec::new(),
            sensors: Vec::new(),
            downloads: Vec::new(),
            next_station_id: 1,
            next_module_id: 1,
            next_sensor_id: 1,
            next_download_id: 1,
        };
        proof {
            assert(r@ =~= db_closed());
        }
        r
    }

    /// Open the store in memory: an empty, freshly migrated schema.
    pub fn open_in_memory(&mut self)
        ensures
            final(self)@ == (DbV { opened: true, ..db_closed() }),
            final(self).wf(),
    {
        self.opened = true;
        self.stations = Vec::new();
        self.modules = Vec::new();
        self.sensors = Vec::new();
        self.downloads = Vec::new();
        self.next_station_id = 1;
        self.next_module_id = 1;
        self.next_sensor_id = 1;
        self.next_download_id = 1;
        proof {
            assert(self@ =~= (DbV { opened: true, ..db_closed() }));
        }
    }

    /// Fails unless the store was opened.
    pub fn require_opened(&self) -> (r: Result<(), DbError>)
        ensures
            (r is Ok) <==> self@.opened,
            (r is Err) ==> r == Err::<(), DbError>(DbError::NotOpened),
    {
        if self.opened {
            Ok(())
        } else {
            Err(DbError::NotOpened)
        }
    }

    /// Insert a station row. The returned station is the argument with the
    /// fresh row id; the stored row holds no module tree.
    pub fn add_station(&mut self, station: &Station) -> (r: Result<Station, DbError>)
        requires
            old(self).wf(),
        ensures
            final(self).wf(),
            (r is Ok) <==> (old(self)@.opened && old(self)@.next_station_id + 1 <= i64::MAX),
            (r matches Ok(st) ==> final(self)@ == add_station_spec(old(self)@, station@) && st@
                == (StationV { id: Some(old(self).next_station_id), ..station@ })),
            (r is Err ==> final(self)@ == old(self)@),
            (!old(self)@.opened ==> r == Err::<Station, DbError>(DbError::NotOpened)),
            (old(self)@.opened && old(self)@.next_station_id + 1 > i64::MAX ==> r == Err::<
                Station,
                DbError,
            >(DbError::SeriousBug)),
    {
        if !self.opened {
            return Err(DbError::NotOpened);
        }
        if self.next_station_id == i64::MAX {
            return Err(DbError::SeriousBug);
        }
        let id = self.next_station_id;
        let mut row = station.clone();
        row.id = Some(id);
        row.modules = Vec::new();
        proof {
            assert(row@ =~= station_row_of(station@, self@.next_station_id));
        }
        self.stations.push(row);
        self.next_station_id = id + 1;
        let mut returned = station.clone();
        returned.id = Some(id);
        proof {
            assert(self@ =~= add_station_spec(old(self)@, station@));
            assert(returned@ =~= (StationV { id: Some(old(self).next_station_id), ..station@ }));
        }
        Ok(returned)
    }

    /// Update the station row addressed by `station.id`: observed fields
    /// are overwritten, identity is kept, and a coordinate pair already
    /// stored survives an update that carries none. Returns the argument.
    pub fn update_station(&mut self, station: &Station) -> (r: Result<Station, DbError>)
        requires
            old(self).wf(),
        ensures
            final(self).wf(),
            (r is Ok) <==> (old(self)@.opened && station@.id is Some && find_station_index(
                old(self)@.stations,
                id_of(station@.id),
            ) >= 0),
            (r matches Ok(st) ==> final(self)@ == update_station_spec(old(self)@, station@) && st@
                == station@),
            (r is Err ==> final(self)@ == old(self)@),
            (!old(self)@.opened ==> r == Err::<Station, DbError>(DbError::NotOpened)),
            (old(self)@.opened && !(station@.id is Some && find_station_index(
                old(self)@.stations,
                id_of(station@.id),
            ) >= 0) ==> r == Err::<Station, DbError>(DbError::RowConstraint)),
    {
        if !self.opened {
            return Err(DbError::NotOpened);
        }
        let id = match station.id {
            Some(id) => id,
            None => {
                proof {
                    lemma_find_station_index_none(self@.stations, id_of(station@.id));
                }
                return Err(DbError::RowConstraint);
            },
        };
        let ghost rows = self@.stations;
        let mut j: usize = 0;
        while j < self.stations.len()
            invariant
                j <= self.stations.len(),
                rows == self@.stations,
                *self == *old(self),
                old(self).wf(),
                old(self)@.opened,
                station@.id == Some(id),
                forall|k: int| 0 <= k < j ==> rows[k].id != Some(id),
            decreases self.stations.len() - j,
        {
            proof {
                assert(rows[j as int] == self.stations@[j as int]@);
            }
            let here = match self.stations[j].id {
                Some(x) => x == id,
                None => false,
            };
            if here {
                proof {
                    lemma_find_station_index_at(rows, id, j as int);
                }
                let old_location = self.stations[j].last_seen_location;
                let mut row = station.clone();
                row.id = self.stations[j].id;
                row.device_id = self.stations[j].device_id.clone();
                row.modules = Vec::new();
                if row.last_seen_location.is_none() {
                    row.last_seen_location = old_location;
                }
                proof {
                    assert(row@ =~= updated_station_row(rows[j as int], station@));
                }
                self.stations[j] = row;
                let returned = station.clone();
                proof {
                    let newrows = self@.stations;
                    let target = rows.update(
                        j as int,
                        updated_station_row(rows[j as int], station@),
                    );
                    assert(newrows.len() == target.len());
                    assert(newrows[j as int] == target[j as int]);
                    assert forall|k: int| 0 <= k < rows.len() && k != j implies newrows[k]
                        == target[k] by {
                        assert(self.stations@[k] == old(self).stations@[k]);
                    }
                    assert(newrows =~= target);
                    assert(rows == old(self)@.stations);
                    assert(id_of(station@.id) == id);
                    assert(find_station_index(old(self)@.stations, id_of(station@.id))
                        == j as int);
                    assert(update_station_spec(old(self)@, station@).stations == target);
                    assert(self@ =~= update_station_spec(old(self)@, station@));
                }
                return Ok(returned);
            }
            j = j + 1;
        }
        proof {
            lemma_find_station_index_none(rows, id);
        }
        Err(DbError::RowConstraint)
    }

    /// Insert a module row; the parent station id must name a row already
    /// handed out. The returned module is the argument with the fresh id;
    /// the stored row holds no sensors.
    pub fn add_module(&mut self, module: &Module) -> (r: Result<Module, DbError>)
        requires
            old(self).wf(),
            module@.id is None,
            module@.station_id is Some,
            1 <= id_of(module@.station_id) < old(self)@.next_station_id,
        ensures
            final(self).wf(),
            (r is Ok) <==> (old(self)@.opened && old(self)@.next_module_id + 1 <= i64::MAX),
            (r matches Ok(m) ==> final(self)@ == add_module_spec(old(self)@, module@) && m@
                == (ModuleV { id: Some(old(self).next_module_id), ..module@ })),
            (r is Err ==> final(self)@ == old(self)@),
            (!old(self)@.opened ==> r == Err::<Module, DbError>(DbError::NotOpened)),
            (old(self)@.opened && old(self)@.next_module_id + 1 > i64::MAX ==> r == Err::<
                Module,
                DbError,
            >(DbError::SeriousBug)),
    {
        if !self.opened {
            return Err(DbError::NotOpened);
        }
        if self.next_module_id == i64::MAX {
            return Err(DbError::SeriousBug);
        }
        let id = self.next_module_id;
        let mut row = module.clone();
        row.id = Some(id);
        row.sensors = Vec::new();
        proof {
            assert(row@ =~= module_row_of(module@, self@.next_module_id));
        }
        self.modules.push(row);
        self.next_module_id = id + 1;
        let mut returned = module.clone();
        returned.id = Some(id);
        proof {
            assert(self@ =~= add_module_spec(old(self)@, module@));
            assert(returned@ =~= (ModuleV { id: Some(old(self).next_module_id), ..module@ }));
        }
        Ok(returned)
    }

    /// Update the module row addressed by `module.id`: observed fields are
    /// overwritten, id and hardware id are kept. Returns the argument.
    pub fn update_module(&mut self, module: &Module) -> (r: Result<Module, DbError>)
        requires
            old(self).wf(),
            module@.id is Some,
            module@.station_id is Some,
            1 <= id_of(module@.station_id) < old(self)@.next_station_id,
        ensures
            final(self).wf(),
            (r is Ok) <==> (old(self)@.opened && find_module_index(
                old(self)@.modules,
                id_of(module@.id),
            ) >= 0),
            (r matches Ok(m) ==> final(self)@ == update_module_spec(old(self)@, module@) && m@
                == module@ && 1 <= id_of(module@.id) < old(self)@.next_module_id),
            (r is Err ==> final(self)@ == old(self)@),
            (!old(self)@.opened ==> r == Err::<Module, DbError>(DbError::NotOpened)),
            (old(self)@.opened && find_module_index(old(self)@.modules, id_of(module@.id)) < 0
                ==> r == Err::<Module, DbError>(DbError::RowConstraint)),
    {
        if !self.opened {
            return Err(DbError::NotOpened);
        }
        let id = match module.id {
            Some(id) => id,
            None => 0,
        };
        let ghost rows = self@.modules;
        let mut j: usize = 0;
        while j < self.modules.len()
            invariant
                j <= self.modules.len(),
                rows == self@.modules,
                *self == *old(self),
                old(self).wf(),
                old(self)@.opened,
                module@.id == Some(id),
                module@.station_id is Some,
                1 <= id_of(module@.station_id) < old(self)@.next_station_id,
                forall|k: int| 0 <= k < j ==> rows[k].id != Some(id),
            decreases self.modules.len() - j,
        {
            proof {
                assert(rows[j as int] == self.modules@[j as int]@);
            }
            let here = match self.modules[j].id {
                Some(x) => x == id,
                None => false,
            };
            if here {
                proof {
                    lemma_find_module_index_at(rows, id, j as int);
                }
                let mut row = module.clone();
                row.id = self.modules[j].id;
                row.hardware_id = self.modules[j].hardware_id.clone();
                row.sensors = Vec::new();
                proof {
                    assert(row@ =~= updated_module_row(rows[j as int], module@));
                }
                self.modules[j] = row;
                let returned = module.clone();
                proof {
                    let newrows = self@.modules;
                    let target = rows.update(
                        j as int,
                        updated_module_row(rows[j as int], module@),
                    );
                    assert(newrows[j as int] == target[j as int]);
                    assert forall|k: int| 0 <= k < rows.len() && k != j implies newrows[k]
                        == target[k] by {
                        assert(self.modules@[k] == old(self).modules@[k]);
                    }
                    assert(newrows =~= target);
                    assert(self@ =~= update_module_spec(old(self)@, module@));
                }
                return Ok(returned);
            }
            j = j + 1;
        }
        proof {
            lemma_find_module_index_none(rows, id);
        }
        Err(DbError::RowConstraint)
    }

    /// Insert a sensor row; the parent module id must name a row already
    /// handed out. The stored row and the returned sensor carry the fresh
    /// id and no previous reading.
    pub fn add_sensor(&mut self, sensor: &Sensor) -> (r: Result<Sensor, DbError>)
        requires
            old(self).wf(),
            sensor@.id is None,
            sensor@.module_id is Some,
            1 <= id_of(sensor@.module_id) < old(self)@.next_module_id,
        ensures
            final(self).wf(),
            (r is Ok) <==> (old(self)@.opened && old(self)@.next_sensor_id + 1 <= i64::MAX),
            (r matches Ok(s) ==> final(self)@ == add_sensor_spec(old(self)@, sensor@) && s@
                == sensor_row_of(sensor@, old(self)@.next_sensor_id)),
            (r is Err ==> final(self)@ == old(self)@),
            (!old(self)@.opened ==> r == Err::<Sensor, DbError>(DbError::NotOpened)),
            (old(self)@.opened && old(self)@.next_sensor_id + 1 > i64::MAX ==> r == Err::<
                Sensor,
                DbError,
            >(DbError::SeriousBug)),
    {
        if !self.opened {
            return Err(DbError::NotOpened);
        }
        if self.next_sensor_id == i64::MAX {
            return Err(DbError::SeriousBug);
        }
        let id = self.next_sensor_id;
        let mut row = sensor.clone();
        row.id = Some(id);
        row.previous_value = None;
        proof {
            assert(row@ =~= sensor_row_of(sensor@, self@.next_sensor_id));
        }
        self.sensors.push(row);
        self.next_sensor_id = id + 1;
        let mut returned = sensor.clone();
        returned.id = Some(id);
        returned.previous_value = None;
        proof {
            assert(self@ =~= add_sensor_spec(old(self)@, sensor@));
            assert(returned@ =~= sensor_row_of(sensor@, old(self)@.next_sensor_id));
        }
        Ok(returned)
    }

    /// Update the sensor row addressed by `sensor.id`: observed fields are
    /// overwritten, id and parent module are kept, and the row's current
    /// reading moves into the previous one. Returns the row as stored.
    pub fn update_sensor(&mut self, sensor: &Sensor) -> (r: Result<Sensor, DbError>)
        requires
            old(self).wf(),
            sensor@.id is Some,
            sensor@.module_id is Some,
        ensures
            final(self).wf(),
            (r is Ok) <==> (old(self)@.opened && find_sensor_index(
                old(self)@.sensors,
                id_of(sensor@.id),
            ) >= 0),
            (r matches Ok(s) ==> final(self)@ == update_sensor_spec(old(self)@, sensor@) && s@
                == updated_sensor_row(
                old(self)@.sensors[find_sensor_index(old(self)@.sensors, id_of(sensor@.id))],
                sensor@,
            )),
            (r is Err ==> final(self)@ == old(self)@),
            (!old(self)@.opened ==> r == Err::<Sensor, DbError>(DbError::NotOpened)),
            (old(self)@.opened && find_sensor_index(old(self)@.sensors, id_of(sensor@.id)) < 0
                ==> r == Err::<Sensor, DbError>(DbError::RowConstraint)),
    {
        if !self.opened {
            return Err(DbError::NotOpened);
        }
        let id = match sensor.id {
            Some(id) => id,
            None => 0,
        };
        let ghost rows = self@.sensors;
        let mut j: usize = 0;
        while j < self.sensors.len()
            invariant
                j <= self.sensors.len(),
                rows == self@.sensors,
                *self == *old(self),
                old(self).wf(),
                old(self)@.opened,
                sensor@.id == Some(id),
                forall|k: int| 0 <= k < j ==> rows[k].id != Some(id),
            decreases self.sensors.len() - j,
        {
            proof {
                assert(rows[j as int] == self.sensors@[j as int]@);
            }
            let here = match self.sensors[j].id {
                Some(x) => x == id,
                None => false,
            };
            if here {
                proof {
                    lemma_find_sensor_index_at(rows, id, j as int);
                }
                let mut row = sensor.clone();
                row.id = self.sensors[j].id;
                row.module_id = self.sensors[j].module_id;
                row.previous_value = self.sensors[j].value;
                proof {
                    assert(row@ =~= updated_sensor_row(rows[j as int], sensor@));
                }
                let returned = row.clone();
                self.sensors[j] = row;
                proof {
                    let newrows = self@.sensors;
                    let target = rows.update(
                        j as int,
                        updated_sensor_row(rows[j as int], sensor@),
                    );
                    assert(newrows[j as int] == target[j as int]);
                    assert forall|k: int| 0 <= k < rows.len() && k != j implies newrows[k]
                        == target[k] by {
                        assert(self.sensors@[k] == old(self).sensors@[k]);
                    }
                    assert(newrows =~= target);
                    assert(self@ =~= update_sensor_spec(old(self)@, sensor@));
                }
                return Ok(returned);
            }
            j = j + 1;
        }
        proof {
            lemma_find_sensor_index_none(rows, id);
        }
        Err(DbError::RowConstraint)
    }

    /// The first station row with the given device id, without its tree.
    pub fn get_station_by_device_id(&self, device_id: &DeviceId) -> (r: Result<
        Option<Station>,
        DbError,
    >)
        ensures
            (r is Ok) <==> self@.opened,
            (r matches Ok(opt) ==> match opt {
                Some(st) => find_station_by_device(self@.stations, device_id@) >= 0 && st@
                    == self@.stations[find_station_by_device(self@.stations, device_id@)],
                None => find_station_by_device(self@.stations, device_id@) == -1,
            }),
            (r is Err ==> r == Err::<Option<Station>, DbError>(DbError::NotOpened)),
    {
        if !self.opened {
            return Err(DbError::NotOpened);
        }
        let ghost rows = self@.stations;
        let mut j: usize = 0;
        while j < self.stations.len()
            invariant
                j <= self.stations.len(),
                rows == self@.stations,
                self@.opened,
                forall|k: int| 0 <= k < j ==> rows[k].device_id != device_id@,
            decreases self.stations.len() - j,
        {
            proof {
                assert(rows[j as int] == self.stations@[j as int]@);
            }
            if self.stations[j].device_id == *device_id {
                proof {
                    lemma_find_station_by_device_at(rows, device_id@, j as int);
                }
                return Ok(Some(self.stations[j].clone()));
            }
            j = j + 1;
        }
        proof {
            lemma_find_station_by_device_none(rows, device_id@);
        }
        Ok(None)
    }

    /// The module rows of one station, in table order.
    pub fn get_modules(&self, station_id: i64) -> (r: Result<Vec<Module>, DbError>)
        ensures
            (r is Ok) <==> self@.opened,
            (r matches Ok(v) ==> modules_view(v) == modules_of(self@.modules, station_id)),
            (r is Err ==> r == Err::<Vec<Module>, DbError>(DbError::NotOpened)),
    {
        if !self.opened {
            return Err(DbError::NotOpened);
        }
        let ghost rows = self@.modules;
        let mut out: Vec<Module> = Vec::new();
        let mut j: usize = 0;
        while j < self.modules.len()
            invariant
                j <= self.modules.len(),
                rows == self@.modules,
                self@.opened,
                modules_view(out) =~= modules_of(rows.take(j as int), station_id),
            decreases self.modules.len() - j,
        {
            proof {
                assert(rows[j as int] == self.modules@[j as int]@);
                assert(rows.take(j as int + 1).drop_last() =~= rows.take(j as int));
                assert(rows.take(j as int + 1).last() == rows[j as int]);
            }
            let here = match self.modules[j].station_id {
                Some(x) => x == station_id,
                None => false,
            };
            if here {
                let ghost pre = modules_view(out);
                out.push(self.modules[j].clone());
                proof {
                    assert(modules_view(out) =~= pre.push(rows[j as int]));
                    assert(modules_view(out) =~= modules_of(rows.take(j as int + 1), station_id));
                }
            } else {
                proof {
                    assert(modules_of(rows.take(j as int + 1), station_id) =~= modules_of(
                        rows.take(j as int),
                        station_id,
                    ));
                }
            }
            j = j + 1;
        }
        proof {
            assert(rows.take(rows.len() as int) =~= rows);
        }
        Ok(out)
    }

    /// The sensor rows of one module, in table order.
    pub fn get_sensors(&self, module_id: i64) -> (r: Result<Vec<Sensor>, DbError>)
        ensures
            (r is Ok) <==> self@.opened,
            (r matches Ok(v) ==> sensors_view(v) == sensors_of(self@.sensors, module_id)),
            (r is Err ==> r == Err::<Vec<Sensor>, DbError>(DbError::NotOpened)),
    {
        if !self.opened {
            return Err(DbError::NotOpened);
        }
        let ghost rows = self@.sensors;
        let mut out: Vec<Sensor> = Vec::new();
        let mut j: usize = 0;
        while j < self.sensors.len()
            invariant
                j <= self.sensors.len(),
                rows == self@.sensors,
                self@.opened,
                sensors_view(out) =~= sensors_of(rows.take(j as int), module_id),
            decreases self.sensors.len() - j,
        {
            proof {
                assert(rows[j as int] == self.sensors@[j as int]@);
                assert(rows.take(j as int + 1).drop_last() =~= rows.take(j as int));
                assert(rows.take(j as int + 1).last() == rows[j as int]);
            }
            let here = match self.sensors[j].module_id {
                Some(x) => x == module_id,
                None => false,
            };
            if here {
                let ghost pre = sensors_view(out);
                out.push(self.sensors[j].clone());
                proof {
                    assert(sensors_view(out) =~= pre.push(rows[j as int]));
                    assert(sensors_view(out) =~= sensors_of(rows.take(j as int + 1), module_id));
                }
            } else {
                proof {
                    assert(sensors_of(rows.take(j as int + 1), module_id) =~= sensors_of(
                        rows.take(j as int),
                        module_id,
                    ));
                }
            }
            j = j + 1;
        }
        proof {
            assert(rows.take(rows.len() as int) =~= rows);
        }
        Ok(out)
    }

    /// The station tree stored under a device id: the station row, its
    /// module rows, and each module's sensor rows.
    pub fn hydrate_station(&self, device_id: &DeviceId) -> (r: Result<Option<Station>, DbError>)
        requires
            self.wf(),
        ensures
            (r is Ok) <==> self@.opened,
            (r matches Ok(opt) ==> crate::merge::station_opt_view(opt) == hydrate_spec(
                self@,
                device_id@,
            )),
            (r is Err ==> r == Err::<Option<Station>, DbError>(DbError::NotOpened)),
    {
        let row = match self.get_station_by_device_id(device_id) {
            Ok(row) => row,
            Err(e) => {
                return Err(e);
            },
        };
        let mut row = match row {
            Some(row) => row,
            None => {
                return Ok(None);
            },
        };
        let ghost j = find_station_by_device(self@.stations, device_id@);
        let sid = match row.id {
            Some(sid) => sid,
            None => {
                proof {
                    lemma_find_station_by_device_props(self@.stations, device_id@);
                    assert(station_row_wf(self@.stations[j], self@.next_station_id));
                    assert(false);
                }
                return Err(DbError::SeriousBug);
            },
        };
        let module_rows = match self.get_modules(sid) {
            Ok(v) => v,
            Err(e) => {
                return Err(e);
            },
        };
        let ghost mrows = modules_of(self@.modules, sid);
        let ghost dbv = self@;
        let mut out: Vec<Module> = Vec::new();
        let mut k: usize = 0;
        while k < module_rows.len()
            invariant
                k <= module_rows.len(),
                dbv == self@,
                self.wf(),
                self@.opened,
                modules_view(module_rows) == mrows,
                mrows == modules_of(self@.modules, sid),
                modules_view(out) =~= mrows.take(k as int).map_values(
                    |m: ModuleV| hydrated_module(dbv, m),
                ),
            decreases module_rows.len() - k,
        {
            proof {
                assert(mrows[k as int] == module_rows@[k as int]@);
                lemma_modules_of_elements(self@.modules, sid);
                assert(self@.modules.contains(mrows[k as int]));
                let l = choose|l: int|
                    0 <= l < self@.modules.len() && self@.modules[l] == mrows[k as int];
                assert(module_row_wf(self@.modules[l], self@.next_station_id, self@.next_module_id));
            }
            let m = &module_rows[k];
            let mid = match m.id {
                Some(mid) => mid,
                None => {
                    proof {
                        assert(false);
                    }
                    return Err(DbError::SeriousBug);
                },
            };
            let sensor_rows = match self.get_sensors(mid) {
                Ok(v) => v,
                Err(e) => {
                    proof {
                        assert(false);
                    }
                    return Err(e);
                },
            };
            let mut hm = m.clone();
            hm.sensors = sensor_rows;
            proof {
                assert(hm@ =~= hydrated_module(dbv, mrows[k as int]));
                assert(mrows.take(k as int + 1).drop_last() =~= mrows.take(k as int));
                assert(mrows.take(k as int + 1).map_values(|mm: ModuleV| hydrated_module(dbv, mm))
                    =~= mrows.take(k as int).map_values(|mm: ModuleV| hydrated_module(dbv, mm)).push(
                    hydrated_module(dbv, mrows[k as int]),
                ));
            }
            out.push(hm);
            k = k + 1;
        }
        proof {
            assert(mrows.take(mrows.len() as int) =~= mrows);
        }
        row.modules = out;
        proof {
            assert(row@ =~= hydrate_spec(self@, device_id@).unwrap());
        }
        Ok(Some(row))
    }

    /// Write a whole station tree: the station row first, then each module
    /// pointed at it, then each sensor pointed at its module. Returns the
    /// tree with every row id filled in.
    pub fn persist_station(&mut self, station: &Station) -> (r: Result<Station, DbError>)
        requires
            old(self).wf(),
        ensures
            final(self).wf(),
            (r matches Ok(st) ==> final(self)@ == persist_spec(old(self)@, station@).0 && st@
                == persist_spec(old(self)@, station@).1),
            (!old(self)@.opened ==> r == Err::<Station, DbError>(DbError::NotOpened)
                && final(self)@ == old(self)@),
            (r is Err ==> r == Err::<Station, DbError>(DbError::NotOpened) || r == Err::<
                Station,
                DbError,
            >(DbError::RowConstraint) || r == Err::<Station, DbError>(DbError::SeriousBug)),
            (r == Err::<Station, DbError>(DbError::NotOpened) ==> final(self)@ == old(self)@
                && !old(self)@.opened),
            (persist_station_ok(old(self)@, station@) ==> r is Ok),
            (old(self)@.opened && station_fresh(station@) && persist_headroom(old(self)@, station@)
                ==> r is Ok),
    {
        let ghost db0 = old(self)@;
        let ghost sv = station@;
        let base = match station.id {
            Some(_) => match self.update_station(station) {
                Ok(st) => st,
                Err(e) => {
                    proof {
                        if db0.opened && station_fresh(sv) && persist_headroom(db0, sv) {
                            lemma_persist_fresh_ok(db0, sv);
                        }
                        if persist_station_ok(db0, sv) {
                            assert(false);
                        }
                    }
                    return Err(e);
                },
            },
            None => match self.add_station(station) {
                Ok(st) => st,
                Err(e) => {
                    proof {
                        if db0.opened && station_fresh(sv) && persist_headroom(db0, sv) {
                            lemma_persist_fresh_ok(db0, sv);
                        }
                        if persist_station_ok(db0, sv) {
                            assert(false);
                        }
                    }
                    return Err(e);
                },
            },
        };
        let ghost base_v = if sv.id is Some {
            sv
        } else {
            StationV { id: Some(db0.next_station_id as i64), ..sv }
        };
        proof {
            assert(base@ =~= base_v);
        }
        let sid = match base.id {
            Some(sid) => sid,
            None => {
                proof {
                    assert(false);
                }
                return Err(DbError::SeriousBug);
            },
        };
        let ghost db1 = self@;
        proof {
            if sv.id is Some {
                lemma_find_station_index_props(db0.stations, id_of(sv.id));
                let fj = find_station_index(db0.stations, id_of(sv.id));
                assert(station_row_wf(db0.stations[fj], db0.next_station_id));
            }
            assert(1 <= (sid as int));
            assert((sid as int) < db1.next_station_id);
            assert((db1, base_v) == persist_station_base(db0, sv));
        }
        let mut out_modules: Vec<Module> = Vec::new();
        let mut k: usize = 0;
        while k < station.modules.len()
            invariant
                k <= station.modules.len(),
                sv == station@,
                db0 == old(self)@,
                db0.opened,
                db_wf(db0),
                (db1, base_v) == persist_station_base(db0, sv),
                sid == id_of(base_v.id),
                self.wf(),
                self@ == persist_modules_spec(db1, sv.modules.take(k as int), sid).0,
                modules_view(out_modules) =~= persist_modules_spec(
                    db1,
                    sv.modules.take(k as int),
                    sid,
                ).1,
                1 <= (sid as int),
                (sid as int) < db1.next_station_id,
                db1.next_station_id == self@.next_station_id,
                db1.opened == self@.opened,
                db1.next_module_id <= self@.next_module_id,
                self@.next_module_id <= db1.next_module_id + k,
                self@.next_sensor_id <= db1.next_sensor_id + total_sensors(
                    sv.modules.take(k as int),
                ),
                db0.opened == db1.opened,
                db0.next_module_id == db1.next_module_id,
                db0.next_sensor_id == db1.next_sensor_id,
            decreases station.modules.len() - k,
        {
            let ghost db_k = self@;
            proof {
                assert(sv.modules[k as int] == station.modules@[k as int]@);
                assert(sv.modules.take(k as int + 1).drop_last() =~= sv.modules.take(k as int));
                assert(sv.modules.take(k as int + 1).last() == sv.modules[k as int]);
                lemma_total_sensors_take(sv.modules, k as int);
            }
            let mut m2 = station.modules[k].clone();
            m2.station_id = Some(sid);
            proof {
                assert(m2@ =~= (ModuleV { station_id: Some(sid), ..sv.modules[k as int] }));
            }
            let mbase = match m2.id {
                Some(_) => match self.update_module(&m2) {
                    Ok(m) => m,
                    Err(e) => {
                        proof {
                            if db0.opened && station_fresh(sv) && persist_headroom(db0, sv) {
                                lemma_persist_fresh_ok(db0, sv);
                            }
                            if persist_station_ok(db0, sv) {
                                assert(persist_modules_ok(db1, sv.modules, sid));
                                lemma_persist_modules_ok_prefix(db1, sv.modules, sid, k as int + 1);
                                assert(persist_module_ok(
                                    persist_modules_spec(db1, sv.modules.take(k as int), sid).0,
                                    m2@,
                                ));
                                assert(false);
                            }
                        }
                        return Err(e);
                    },
                },
                None => match self.add_module(&m2) {
                    Ok(m) => m,
                    Err(e) => {
                        proof {
                            if db0.opened && station_fresh(sv) && persist_headroom(db0, sv) {
                                lemma_persist_fresh_ok(db0, sv);
                            }
                            if persist_station_ok(db0, sv) {
                                assert(persist_modules_ok(db1, sv.modules, sid));
                                lemma_persist_modules_ok_prefix(db1, sv.modules, sid, k as int + 1);
                                assert(persist_module_ok(
                                    persist_modules_spec(db1, sv.modules.take(k as int), sid).0,
                                    m2@,
                                ));
                                assert(false);
                            }
                        }
                        return Err(e);
                    },
                },
            };
            let ghost mbase_v = persist_module_base(db_k, m2@).1;
            proof {
                assert(mbase@ =~= mbase_v);
            }
            let mid = match mbase.id {
                Some(mid) => mid,
                None => {
                    proof {
                        if m2@.id is Some {
                        }
                        assert(false);
                    }
                    return Err(DbError::SeriousBug);
                },
            };
            let ghost db_m = self@;
            proof {
                if m2@.id is Some {
                    lemma_find_module_index_props(db_k.modules, id_of(m2@.id));
                    let fj = find_module_index(db_k.modules, id_of(m2@.id));
                    assert(module_row_wf(db_k.modules[fj], db_k.next_station_id, db_k.next_module_id));
                }
                assert(1 <= (mid as int));
                assert((mid as int) < db_m.next_module_id);
                assert((db_m, mbase_v) == persist_module_base(db_k, m2@));
            }
            let mut out_sensors: Vec<Sensor> = Vec::new();
            let mut l: usize = 0;
            while l < m2.sensors.len()
                invariant
                    l <= m2.sensors.len(),
                    sv == station@,
                    db0 == old(self)@,
                    db0.opened,
                    k < sv.modules.len(),
                    m2@ == (ModuleV { station_id: Some(sid), ..sv.modules[k as int] }),
                    (db_m, mbase_v) == persist_module_base(db_k, m2@),
                    mid == id_of(mbase_v.id),
                    db_k == persist_modules_spec(db1, sv.modules.take(k as int), sid).0,
                    (db1, base_v) == persist_station_base(db0, sv),
                    sid == id_of(base_v.id),
                    self.wf(),
                    self@ == persist_sensors_spec(db_m, m2@.sensors.take(l as int), mid).0,
                    sensors_view(out_sensors) =~= persist_sensors_spec(
                        db_m,
                        m2@.sensors.take(l as int),
                        mid,
                    ).1,
                    1 <= (mid as int),
                    (mid as int) < db_m.next_module_id,
                    db_m.next_module_id == self@.next_module_id,
                    db_m.next_station_id == self@.next_station_id,
                    db_m.opened == self@.opened,
                    db0.opened == self@.opened,
                    db_m.next_sensor_id <= self@.next_sensor_id,
                    self@.next_sensor_id <= db_m.next_sensor_id + l,
                    db_m.next_sensor_id <= db0.next_sensor_id + total_sensors(
                        sv.modules.take(k as int),
                    ),
                decreases m2.sensors.len() - l,
            {
                proof {
                    assert(m2@.sensors[l as int] == m2.sensors@[l as int]@);
                    assert(m2@.sensors.take(l as int + 1).drop_last() =~= m2@.sensors.take(
                        l as int,
                    ));
                    assert(m2@.sensors.take(l as int + 1).last() == m2@.sensors[l as int]);
                }
                let mut s2 = m2.sensors[l].clone();
                s2.module_id = Some(mid);
                proof {
                    assert(s2@ =~= (SensorV { module_id: Some(mid), ..m2@.sensors[l as int] }));
                }
                let srow = match s2.id {
                    Some(_) => match self.update_sensor(&s2) {
                        Ok(srow) => srow,
                        Err(e) => {
                            proof {
                                if db0.opened && station_fresh(sv) && persist_headroom(db0, sv) {
                                    lemma_persist_fresh_ok(db0, sv);
                                }
                                if persist_station_ok(db0, sv) {
                                    assert(persist_modules_ok(db1, sv.modules, sid));
                                    lemma_persist_modules_ok_prefix(
                                        db1,
                                        sv.modules,
                                        sid,
                                        k as int + 1,
                                    );
                                    assert(sv.modules.take(k as int + 1).drop_last()
                                        =~= sv.modules.take(k as int));
                                    assert(sv.modules.take(k as int + 1).last()
                                        == sv.modules[k as int]);
                                    assert(persist_module_ok(db_k, m2@));
                                    assert(persist_sensors_ok(db_m, m2@.sensors, mid));
                                    lemma_persist_sensors_ok_prefix(
                                        db_m,
                                        m2@.sensors,
                                        mid,
                                        l as int + 1,
                                    );
                                    assert(m2@.sensors.take(l as int + 1).drop_last()
                                        =~= m2@.sensors.take(l as int));
                                    assert(m2@.sensors.take(l as int + 1).last()
                                        == m2@.sensors[l as int]);
                                    assert(persist_sensor_ok(
                                        persist_sensors_spec(
                                            db_m,
                                            m2@.sensors.take(l as int),
                                            mid,
                                        ).0,
                                        s2@,
                                    ));
                                    assert(false);
                                }
                            }
                            return Err(e);
                        },
                    },
                    None => match self.add_sensor(&s2) {
                        Ok(srow) => srow,
                        Err(e) => {
                            proof {
                                if db0.opened && station_fresh(sv) && persist_headroom(db0, sv) {
                                    lemma_persist_fresh_ok(db0, sv);
                                }
                                if persist_station_ok(db0, sv) {
                                    assert(persist_modules_ok(db1, sv.modules, sid));
                                    lemma_persist_modules_ok_prefix(
                                        db1,
                                        sv.modules,
                                        sid,
                                        k as int + 1,
                                    );
                                    assert(sv.modules.take(k as int + 1).drop_last()
                                        =~= sv.modules.take(k as int));
                                    assert(sv.modules.take(k as int + 1).last()
                                        == sv.modules[k as int]);
                                    assert(persist_module_ok(db_k, m2@));
                                    assert(persist_sensors_ok(db_m, m2@.sensors, mid));
                                    lemma_persist_sensors_ok_prefix(
                                        db_m,
                                        m2@.sensors,
                                        mid,
                                        l as int + 1,
                                    );
                                    assert(m2@.sensors.take(l as int + 1).drop_last()
                                        =~= m2@.sensors.take(l as int));
                                    assert(m2@.sensors.take(l as int + 1).last()
                                        == m2@.sensors[l as int]);
                                    assert(persist_sensor_ok(
                                        persist_sensors_spec(
                                            db_m,
                                            m2@.sensors.take(l as int),
                                            mid,
                                        ).0,
                                        s2@,
                                    ));
                                    assert(false);
                                }
                            }
                            return Err(e);
                        },
                    },
                };
                let ghost pre = sensors_view(out_sensors);
                out_sensors.push(srow);
                proof {
                    assert(sensors_view(out_sensors) =~= pre.push(srow@));
                }
                l = l + 1;
            }
            proof {
                assert(m2@.sensors.take(m2@.sensors.len() as int) =~= m2@.sensors);
            }
            let mut mdone = mbase;
            mdone.sensors = out_sensors;
            proof {
                assert(mdone@ =~= persist_module_spec(db_k, m2@).1);
                assert(self@ == persist_module_spec(db_k, m2@).0);
                assert(persist_modules_spec(db1, sv.modules.take(k as int + 1), sid).0 == self@);
                assert(persist_modules_spec(db1, sv.modules.take(k as int + 1), sid).1
                    =~= persist_modules_spec(db1, sv.modules.take(k as int), sid).1.push(mdone@));
                lemma_total_sensors_take(sv.modules, k as int + 1);
                assert(total_sensors(sv.modules.take(k as int + 1)) == total_sensors(
                    sv.modules.take(k as int),
                ) + sv.modules[k as int].sensors.len());
                lemma_persist_sensors_bounds(db_m, m2@.sensors, mid);
            }
            let ghost pre_modules = modules_view(out_modules);
            out_modules.push(mdone);
            proof {
                assert(modules_view(out_modules) =~= pre_modules.push(mdone@));
            }
            k = k + 1;
        }
        proof {
            assert(sv.modules.take(sv.modules.len() as int) =~= sv.modules);
        }
        let mut done = base;
        done.modules = out_modules;
        proof {
            assert(done@ =~= persist_spec(db0, sv).1);
            assert(self@ == persist_spec(db0, sv).0);
        }
        Ok(done)
    }

    /// Reconcile an incoming observation with what is stored: hydrate the
    /// stored tree, merge the observation over it, persist the result. The
    /// reconciliation time is the returned station's own `last_seen`.
    pub fn synchronize(&mut self, incoming: Station) -> (r: Result<Station, DbError>)
        requires
            old(self).wf(),
        ensures
            final(self).wf(),
            (!old(self)@.opened ==> r == Err::<Station, DbError>(DbError::NotOpened)
                && final(self)@ == old(self)@),
            (r matches Ok(st) ==> final(self)@ == persist_spec(
                old(self)@,
                crate::merge::merge_spec(
                    hydrate_spec(old(self)@, incoming@.device_id),
                    incoming@,
                    st@.last_seen,
                ),
            ).0 && st@ == persist_spec(
                old(self)@,
                crate::merge::merge_spec(
                    hydrate_spec(old(self)@, incoming@.device_id),
                    incoming@,
                    st@.last_seen,
                ),
            ).1),
            (r is Err ==> r == Err::<Station, DbError>(DbError::NotOpened) || r == Err::<
                Station,
                DbError,
            >(DbError::RowConstraint) || r == Err::<Station, DbError>(DbError::SeriousBug)),
            (r == Err::<Station, DbError>(DbError::NotOpened) ==> final(self)@ == old(self)@
                && !old(self)@.opened),
            (old(self)@.opened && station_fresh(incoming@) && persist_headroom(
                old(self)@,
                crate::merge::merge_spec(
                    hydrate_spec(old(self)@, incoming@.device_id),
                    incoming@,
                    0,
                ),
            ) ==> r is Ok),
    {
        let ghost inc_v = incoming@;
        let existing = match self.hydrate_station(&incoming.device_id) {
            Ok(opt) => opt,
            Err(e) => {
                return Err(e);
            },
        };
        let saving = merge::merge(existing, incoming);
        let ghost merged_v = saving@;
        let saved = match self.persist_station(&saving) {
            Ok(st) => st,
            Err(e) => {
                proof {
                    if old(self)@.opened && station_fresh(inc_v) && persist_headroom(
                        old(self)@,
                        crate::merge::merge_spec(
                            hydrate_spec(old(self)@, inc_v.device_id),
                            inc_v,
                            0,
                        ),
                    ) {
                        lemma_synchronize_ok(old(self)@, inc_v, merged_v.last_seen);
                        assert(persist_station_ok(old(self)@, merged_v));
                        assert(false);
                    }
                }
                return Err(e);
            },
        };
        proof {
            assert(persist_spec(old(self)@, merged_v).1.last_seen == merged_v.last_seen);
            assert(saved@.last_seen == merged_v.last_seen);
        }
        Ok(saved)
    }

    /// Overwrite the coordinates of the one station row with the device id;
    /// anything but exactly one matching row is refused.
    pub fn update_station_location(
        &mut self,
        device_id: &DeviceId,
        latitude: u64,
        longitude: u64,
    ) -> (r: Result<(), DbError>)
        requires
            old(self).wf(),
        ensures
            final(self).wf(),
            (r is Ok) <==> (old(self)@.opened && device_count(old(self)@.stations, device_id@)
                == 1),
            (r is Ok ==> final(self)@ == update_location_spec(
                old(self)@,
                device_id@,
                latitude,
                longitude,
            )),
            (r is Err ==> final(self)@ == old(self)@),
            (!old(self)@.opened ==> r == Err::<(), DbError>(DbError::NotOpened)),
            (old(self)@.opened && device_count(old(self)@.stations, device_id@) != 1 ==> r
                == Err::<(), DbError>(DbError::RowConstraint)),
    {
        if !self.opened {
            return Err(DbError::NotOpened);
        }
        let ghost rows = self@.stations;
        let mut count: usize = 0;
        let mut found: usize = 0;
        let mut any = false;
        let mut j: usize = 0;
        while j < self.stations.len()
            invariant
                j <= self.stations.len(),
                rows == self@.stations,
                *self == *old(self),
                old(self).wf(),
                self@.opened,
                count <= j,
                count == device_count(rows.take(j as int), device_id@),
                any <==> count > 0,
                any ==> found < j && rows[found as int].device_id == device_id@ && (forall|k: int|
                    0 <= k < found ==> rows[k].device_id != device_id@),
            decreases self.stations.len() - j,
        {
            proof {
                assert(rows[j as int] == self.stations@[j as int]@);
                assert(rows.take(j as int + 1).drop_last() =~= rows.take(j as int));
                assert(rows.take(j as int + 1).last() == rows[j as int]);
            }
            if self.stations[j].device_id == *device_id {
                if !any {
                    proof {
                        lemma_device_count_zero(rows.take(j as int), device_id@);
                        assert forall|k: int|
                            0 <= k < j implies (#[trigger] rows[k]).device_id != device_id@ by {
                            assert(rows.take(j as int)[k] == rows[k]);
                        }
                    }
                    found = j;
                    any = true;
                }
                count = count + 1;
            }
            j = j + 1;
        }
        proof {
            assert(rows.take(rows.len() as int) =~= rows);
        }
        if count != 1 {
            return Err(DbError::RowConstraint);
        }
        proof {
            lemma_find_station_by_device_at(rows, device_id@, found as int);
        }
        let mut row = self.stations[found].clone();
        row.last_seen_location = Some(
            crate::model::Coordinates { latitude, longitude },
        );
        self.stations[found] = row;
        proof {
            let newrows = self@.stations;
            let target = rows.update(
                found as int,
                StationV {
                    last_seen_location: Some(
                        crate::model::Coordinates { latitude, longitude },
                    ),
                    ..rows[found as int]
                },
            );
            assert(newrows[found as int] =~= target[found as int]);
            assert forall|k: int| 0 <= k < rows.len() && k != found implies newrows[k]
                == target[k] by {
                assert(self.stations@[k] == old(self).stations@[k]);
            }
            assert(newrows =~= target);
            assert(self@ =~= update_location_spec(old(self)@, device_id@, latitude, longitude));
        }
        Ok(())
    }

    /// Whether some module row of the station owns this parent id.
    fn module_of_station_exec(&self, sid: i64, mid: &Option<i64>) -> (r: bool)
        ensures
            r == module_of_station(self@.modules, sid, *mid),
    {
        let ghost rows = self@.modules;
        let mut j: usize = 0;
        while j < self.modules.len()
            invariant
                j <= self.modules.len(),
                rows == self@.modules,
                forall|k: int|
                    0 <= k < j ==> !((#[trigger] rows[k]).station_id == Some(sid) && rows[k].id
                        == *mid),
            decreases self.modules.len() - j,
        {
            proof {
                assert(rows[j as int] == self.modules@[j as int]@);
            }
            let m = &self.modules[j];
            let station_matches = match m.station_id {
                Some(x) => x == sid,
                None => false,
            };
            let id_matches = match (m.id, mid) {
                (Some(a), Some(b)) => a == *b,
                (None, None) => true,
                _ => false,
            };
            if station_matches && id_matches {
                return true;
            }
            j = j + 1;
        }
        false
    }

    /// Delete a station by row id, cascading over its sensors, modules and
    /// downloads. Deleting an id that is not there removes nothing.
    pub fn delete_station(&mut self, id: i64) -> (r: Result<(), DbError>)
        requires
            old(self).wf(),
        ensures
            final(self).wf(),
            (r is Ok) <==> old(self)@.opened,
            (r is Ok ==> final(self)@ == delete_station_spec(old(self)@, id)),
            (r is Err ==> final(self)@ == old(self)@ && r == Err::<(), DbError>(
                DbError::NotOpened,
            )),
    {
        if !self.opened {
            return Err(DbError::NotOpened);
        }
        let ghost db0 = self@;

        let mut kept_sensors: Vec<Sensor> = Vec::new();
        let mut j: usize = 0;
        while j < self.sensors.len()
            invariant
                j <= self.sensors.len(),
                db0 == self@,
                self@.opened,
                old(self).wf(),
                sensors_view(kept_sensors) =~= sensors_after_delete(
                    db0.sensors.take(j as int),
                    db0.modules,
                    id,
                ),
            decreases self.sensors.len() - j,
        {
            proof {
                assert(db0.sensors[j as int] == self.sensors@[j as int]@);
                assert(db0.sensors.take(j as int + 1).drop_last() =~= db0.sensors.take(j as int));
                assert(db0.sensors.take(j as int + 1).last() == db0.sensors[j as int]);
            }
            let owned = self.module_of_station_exec(id, &self.sensors[j].module_id);
            if !owned {
                let ghost pre = sensors_view(kept_sensors);
                kept_sensors.push(self.sensors[j].clone());
                proof {
                    assert(sensors_view(kept_sensors) =~= pre.push(db0.sensors[j as int]));
                }
            }
            j = j + 1;
        }
        proof {
            assert(db0.sensors.take(db0.sensors.len() as int) =~= db0.sensors);
        }

        let mut kept_modules: Vec<Module> = Vec::new();
        let mut j2: usize = 0;
        while j2 < self.modules.len()
            invariant
                j2 <= self.modules.len(),
                db0 == self@,
                self@.opened,
                old(self).wf(),
                modules_view(kept_modules) =~= modules_after_delete(
                    db0.modules.take(j2 as int),
                    id,
                ),
            decreases self.modules.len() - j2,
        {
            proof {
                assert(db0.modules[j2 as int] == self.modules@[j2 as int]@);
                assert(db0.modules.take(j2 as int + 1).drop_last() =~= db0.modules.take(
                    j2 as int,
                ));
                assert(db0.modules.take(j2 as int + 1).last() == db0.modules[j2 as int]);
            }
            let here = match self.modules[j2].station_id {
                Some(x) => x == id,
                None => false,
            };
            if !here {
                let ghost pre = modules_view(kept_modules);
                kept_modules.push(self.modules[j2].clone());
                proof {
                    assert(modules_view(kept_modules) =~= pre.push(db0.modules[j2 as int]));
                }
            }
            j2 = j2 + 1;
        }
        proof {
            assert(db0.modules.take(db0.modules.len() as int) =~= db0.modules);
        }

        let mut kept_downloads: Vec<StationDownload> = Vec::new();
        let mut j3: usize = 0;
        while j3 < self.downloads.len()
            invariant
                j3 <= self.downloads.len(),
                db0 == self@,
                self@.opened,
                old(self).wf(),
                downloads_view(kept_downloads) =~= downloads_after_delete(
                    db0.downloads.take(j3 as int),
                    id,
                ),
            decreases self.downloads.len() - j3,
        {
            proof {
                assert(db0.downloads[j3 as int] == self.downloads@[j3 as int]@);
                assert(db0.downloads.take(j3 as int + 1).drop_last() =~= db0.downloads.take(
                    j3 as int,
                ));
                assert(db0.downloads.take(j3 as int + 1).last() == db0.downloads[j3 as int]);
            }
            if !(self.downloads[j3].station_id == id) {
                let ghost pre = downloads_view(kept_downloads);
                kept_downloads.push(self.downloads[j3].clone());
                proof {
                    assert(downloads_view(kept_downloads) =~= pre.push(db0.downloads[j3 as int]));
                }
            }
            j3 = j3 + 1;
        }
        proof {
            assert(db0.downloads.take(db0.downloads.len() as int) =~= db0.downloads);
        }

        let mut kept_stations: Vec<Station> = Vec::new();
        let mut j4: usize = 0;
        while j4 < self.stations.len()
            invariant
                j4 <= self.stations.len(),
                db0 == self@,
                self@.opened,
                old(self).wf(),
                stations_view(kept_stations) =~= stations_after_delete(
                    db0.stations.take(j4 as int),
                    id,
                ),
            decreases self.stations.len() - j4,
        {
            proof {
                assert(db0.stations[j4 as int] == self.stations@[j4 as int]@);
                assert(db0.stations.take(j4 as int + 1).drop_last() =~= db0.stations.take(
                    j4 as int,
                ));
                assert(db0.stations.take(j4 as int + 1).last() == db0.stations[j4 as int]);
            }
            let here = match self.stations[j4].id {
                Some(x) => x == id,
                None => false,
            };
            if !here {
                let ghost pre = stations_view(kept_stations);
                kept_stations.push(self.stations[j4].clone());
                proof {
                    assert(stations_view(kept_stations) =~= pre.push(db0.stations[j4 as int]));
                }
            }
            j4 = j4 + 1;
        }
        proof {
            assert(db0.stations.take(db0.stations.len() as int) =~= db0.stations);
        }

        self.sensors = kept_sensors;
        self.modules = kept_modules;
        self.downloads = kept_downloads;
        self.stations = kept_stations;
        proof {
            assert(self@ =~= delete_station_spec(db0, id));
            lemma_sensors_after_delete_unique(db0.sensors, db0.modules, id);
            lemma_modules_after_delete_unique(db0.modules, id);
            lemma_downloads_after_delete_unique(db0.downloads, id);
            lemma_stations_after_delete_unique(db0.stations, id);
            lemma_sensors_after_delete_sub(db0.sensors, db0.modules, id);
            lemma_modules_after_delete_sub(db0.modules, id);
            lemma_downloads_after_delete_sub(db0.downloads, id);
            lemma_stations_after_delete_sub(db0.stations, id);
            assert forall|k: int|
                0 <= k < self@.stations.len() implies station_row_wf(
                #[trigger] self@.stations[k],
                self@.next_station_id,
            ) by {
                let l = choose|l: int|
                    0 <= l < db0.stations.len() && db0.stations[l] == self@.stations[k];
            }
            assert forall|k: int|
                0 <= k < self@.modules.len() implies module_row_wf(
                #[trigger] self@.modules[k],
                self@.next_station_id,
                self@.next_module_id,
            ) by {
                let l = choose|l: int|
                    0 <= l < db0.modules.len() && db0.modules[l] == self@.modules[k];
            }
            assert forall|k: int|
                0 <= k < self@.sensors.len() implies sensor_row_wf(
                #[trigger] self@.sensors[k],
                self@.next_module_id,
                self@.next_sensor_id,
            ) by {
                let l = choose|l: int|
                    0 <= l < db0.sensors.len() && db0.sensors[l] == self@.sensors[k];
            }
            assert forall|k: int|
                0 <= k < self@.downloads.len() implies download_row_wf(
                #[trigger] self@.downloads[k],
                self@.next_download_id,
            ) by {
                let l = choose|l: int|
                    0 <= l < db0.downloads.len() && db0.downloads[l] == self@.downloads[k];
            }
        }
        Ok(())
    }

    /// Delete the station stored under a device id, cascading as
    /// `delete_station` does; unknown device ids are refused.
    pub fn delete_station_by_device_id(&mut self, device_id: &DeviceId) -> (r: Result<
        (),
        DbError,
    >)
        requires
            old(self).wf(),
        ensures
            final(self).wf(),
            (r is Ok) <==> (old(self)@.opened && find_station_by_device(
                old(self)@.stations,
                device_id@,
            ) >= 0),
            (r is Ok ==> final(self)@ == delete_station_spec(
                old(self)@,
                id_of(
                    old(self)@.stations[find_station_by_device(
                        old(self)@.stations,
                        device_id@,
                    )].id,
                ),
            )),
            (r is Err ==> final(self)@ == old(self)@),
            (!old(self)@.opened ==> r == Err::<(), DbError>(DbError::NotOpened)),
            (old(self)@.opened && find_station_by_device(old(self)@.stations, device_id@) < 0 ==> r
                == Err::<(), DbError>(DbError::RowConstraint)),
    {
        let row = match self.get_station_by_device_id(device_id) {
            Ok(row) => row,
            Err(e) => {
                return Err(e);
            },
        };
        let row = match row {
            Some(row) => row,
            None => {
                return Err(DbError::RowConstraint);
            },
        };
        let ghost j = find_station_by_device(self@.stations, device_id@);
        let id = match row.id {
            Some(id) => id,
            None => {
                proof {
                    lemma_find_station_by_device_props(self@.stations, device_id@);
                    assert(station_row_wf(self@.stations[j], self@.next_station_id));
                    assert(false);
                }
                return Err(DbError::SeriousBug);
            },
        };
        self.delete_station(id)
    }

    /// Every station row, without its tree.
    pub fn get_all_stations(&self) -> (r: Result<Vec<Station>, DbError>)
        ensures
            (r is Ok) <==> self@.opened,
            (r matches Ok(v) ==> stations_view(v) == self@.stations),
            (r is Err ==> r == Err::<Vec<Station>, DbError>(DbError::NotOpened)),
    {
        if !self.opened {
            return Err(DbError::NotOpened);
        }
        let ghost rows = self@.stations;
        let mut out: Vec<Station> = Vec::new();
        let mut j: usize = 0;
        while j < self.stations.len()
            invariant
                j <= self.stations.len(),
                rows == self@.stations,
                self@.opened,
                stations_view(out) =~= rows.take(j as int),
            decreases self.stations.len() - j,
        {
            proof {
                assert(rows[j as int] == self.stations@[j as int]@);
                assert(rows.take(j as int + 1) =~= rows.take(j as int).push(rows[j as int]));
            }
            out.push(self.stations[j].clone());
            j = j + 1;
        }
        proof {
            assert(rows.take(rows.len() as int) =~= rows);
        }
        Ok(out)
    }

    /// Every module row, in table order.
    pub fn get_all_modules(&self) -> (r: Result<Vec<Module>, DbError>)
        ensures
            (r is Ok) <==> self@.opened,
            (r matches Ok(v) ==> modules_view(v) == self@.modules),
            (r is Err ==> r == Err::<Vec<Module>, DbError>(DbError::NotOpened)),
    {
        if !self.opened {
            return Err(DbError::NotOpened);
        }
        let ghost rows = self@.modules;
        let mut out: Vec<Module> = Vec::new();
        let mut j: usize = 0;
        while j < self.modules.len()
            invariant
                j <= self.modules.len(),
                rows == self@.modules,
                self@.opened,
                modules_view(out) =~= rows.take(j as int),
            decreases self.modules.len() - j,
        {
            proof {
                assert(rows[j as int] == self.modules@[j as int]@);
                assert(rows.take(j as int + 1) =~= rows.take(j as int).push(rows[j as int]));
            }
            out.push(self.modules[j].clone());
            j = j + 1;
        }
        proof {
            assert(rows.take(rows.len() as int) =~= rows);
        }
        Ok(out)
    }

    /// Every sensor row, in table order.
    pub fn get_all_sensors(&self) -> (r: Result<Vec<Sensor>, DbError>)
        ensures
            (r is Ok) <==> self@.opened,
            (r matches Ok(v) ==> sensors_view(v) == self@.sensors),
            (r is Err ==> r == Err::<Vec<Sensor>, DbError>(DbError::NotOpened)),
    {
        if !self.opened {
            return Err(DbError::NotOpened);
        }
        let ghost rows = self@.sensors;
        let mut out: Vec<Sensor> = Vec::new();
        let mut j: usize = 0;
        while j < self.sensors.len()
            invariant
                j <= self.sensors.len(),
                rows == self@.sensors,
                self@.opened,
                sensors_view(out) =~= rows.take(j as int),
            decreases self.sensors.len() - j,
        {
            proof {
                assert(rows[j as int] == self.sensors@[j as int]@);
                assert(rows.take(j as int + 1) =~= rows.take(j as int).push(rows[j as int]));
            }
            out.push(self.sensors[j].clone());
            j = j + 1;
        }
        proof {
            assert(rows.take(rows.len() as int) =~= rows);
        }
        Ok(out)
    }

    /// The sensor rows with one id; at most one in a well-formed store.
    pub fn get_sensor(&self, sensor_id: i64) -> (r: Result<Vec<Sensor>, DbError>)
        ensures
            (r is Ok) <==> self@.opened,
            (r matches Ok(v) ==> (v@.len() >= 1 <==> find_sensor_index(self@.sensors, sensor_id)
                >= 0) && (v@.len() >= 1 ==> v@[0]@ == self@.sensors[find_sensor_index(
                self@.sensors,
                sensor_id,
            )])),
            (r is Err ==> r == Err::<Vec<Sensor>, DbError>(DbError::NotOpened)),
    {
        if !self.opened {
            return Err(DbError::NotOpened);
        }
        let ghost rows = self@.sensors;
        let mut j: usize = 0;
        while j < self.sensors.len()
            invariant
                j <= self.sensors.len(),
                rows == self@.sensors,
                self@.opened,
                forall|k: int| 0 <= k < j ==> rows[k].id != Some(sensor_id),
            decreases self.sensors.len() - j,
        {
            proof {
                assert(rows[j as int] == self.sensors@[j as int]@);
            }
            let here = match self.sensors[j].id {
                Some(x) => x == sensor_id,
                None => false,
            };
            if here {
                proof {
                    lemma_find_sensor_index_at(rows, sensor_id, j as int);
                }
                let mut out: Vec<Sensor> = Vec::new();
                out.push(self.sensors[j].clone());
                return Ok(out);
            }
            j = j + 1;
        }
        proof {
            lemma_find_sensor_index_none(rows, sensor_id);
        }
        Ok(Vec::new())
    }

    /// The module rows of one station that are not tombstoned.
    fn get_visible_modules(&self, station_id: i64) -> (r: Vec<Module>)
        requires
            self@.opened,
        ensures
            modules_view(r) == visible_modules_of(self@.modules, station_id),
    {
        let ghost rows = self@.modules;
        let mut out: Vec<Module> = Vec::new();
        let mut j: usize = 0;
        while j < self.modules.len()
            invariant
                j <= self.modules.len(),
                rows == self@.modules,
                modules_view(out) =~= visible_modules_of(rows.take(j as int), station_id),
            decreases self.modules.len() - j,
        {
            proof {
                assert(rows[j as int] == self.modules@[j as int]@);
                assert(rows.take(j as int + 1).drop_last() =~= rows.take(j as int));
                assert(rows.take(j as int + 1).last() == rows[j as int]);
            }
            let here = match self.modules[j].station_id {
                Some(x) => x == station_id && !self.modules[j].removed,
                None => false,
            };
            if here {
                let ghost pre = modules_view(out);
                out.push(self.modules[j].clone());
                proof {
                    assert(modules_view(out) =~= pre.push(rows[j as int]));
                }
            }
            j = j + 1;
        }
        proof {
            assert(rows.take(rows.len() as int) =~= rows);
        }
        out
    }

    /// Every station tree as the bulk view shows it: tombstoned modules
    /// left out, sensors filled in.
    pub fn get_stations(&self) -> (r: Result<Vec<Station>, DbError>)
        requires
            self.wf(),
        ensures
            (r is Ok) <==> self@.opened,
            (r matches Ok(v) ==> stations_view(v) == get_stations_spec(self@)),
            (r is Err ==> r == Err::<Vec<Station>, DbError>(DbError::NotOpened)),
    {
        if !self.opened {
            return Err(DbError::NotOpened);
        }
        let ghost dbv = self@;
        let mut out: Vec<Station> = Vec::new();
        let mut k: usize = 0;
        while k < self.stations.len()
            invariant
                k <= self.stations.len(),
                dbv == self@,
                self.wf(),
                self@.opened,
                stations_view(out) =~= get_stations_spec(dbv).take(k as int),
            decreases self.stations.len() - k,
        {
            proof {
                assert(dbv.stations[k as int] == self.stations@[k as int]@);
                assert(station_row_wf(dbv.stations[k as int], dbv.next_station_id));
            }
            let mut row = self.stations[k].clone();
            let sid = match row.id {
                Some(sid) => sid,
                None => {
                    proof {
                        assert(false);
                    }
                    return Err(DbError::SeriousBug);
                },
            };
            let module_rows = self.get_visible_modules(sid);
            let ghost mrows = visible_modules_of(dbv.modules, sid);
            let mut filled: Vec<Module> = Vec::new();
            let mut l: usize = 0;
            while l < module_rows.len()
                invariant
                    l <= module_rows.len(),
                    dbv == self@,
                    self.wf(),
                    self@.opened,
                    modules_view(module_rows) == mrows,
                    mrows == visible_modules_of(dbv.modules, sid),
                    modules_view(filled) =~= mrows.take(l as int).map_values(
                        |m: ModuleV| hydrated_module(dbv, m),
                    ),
                decreases module_rows.len() - l,
            {
                proof {
                    assert(mrows[l as int] == module_rows@[l as int]@);
                    lemma_visible_modules_of_elements(dbv.modules, sid);
                    assert(dbv.modules.contains(mrows[l as int]));
                    let w = choose|w: int|
                        0 <= w < dbv.modules.len() && dbv.modules[w] == mrows[l as int];
                    assert(module_row_wf(dbv.modules[w], dbv.next_station_id, dbv.next_module_id));
                }
                let m = &module_rows[l];
                let mid = match m.id {
                    Some(mid) => mid,
                    None => {
                        proof {
                            assert(false);
                        }
                        return Err(DbError::SeriousBug);
                    },
                };
                let sensor_rows = match self.get_sensors(mid) {
                    Ok(v) => v,
                    Err(e) => {
                        proof {
                            assert(false);
                        }
                        return Err(e);
                    },
                };
                let mut hm = m.clone();
                hm.sensors = sensor_rows;
                proof {
                    assert(hm@ =~= hydrated_module(dbv, mrows[l as int]));
                    assert(mrows.take(l as int + 1).drop_last() =~= mrows.take(l as int));
                    assert(mrows.take(l as int + 1).map_values(
                        |mm: ModuleV| hydrated_module(dbv, mm),
                    ) =~= mrows.take(l as int).map_values(
                        |mm: ModuleV| hydrated_module(dbv, mm),
                    ).push(hydrated_module(dbv, mrows[l as int])));
                }
                filled.push(hm);
                l = l + 1;
            }
            proof {
                assert(mrows.take(mrows.len() as int) =~= mrows);
            }
            row.modules = filled;
            proof {
                assert(row@ =~= get_stations_spec(dbv)[k as int]);
                assert(get_stations_spec(dbv).take(k as int + 1) =~= get_stations_spec(
                    dbv,
                ).take(k as int).push(get_stations_spec(dbv)[k as int]));
            }
            out.push(row);
            k = k + 1;
        }
        proof {
            assert(get_stations_spec(dbv).take(get_stations_spec(dbv).len() as int)
                =~= get_stations_spec(dbv));
        }
        Ok(out)
    }

    /// Insert a download row. The returned record is the argument with the
    /// fresh row id.
    pub fn add_station_download(&mut self, download: &StationDownload) -> (r: Result<
        StationDownload,
        DbError,
    >)
        requires
            old(self).wf(),
        ensures
            final(self).wf(),
            (r is Ok) <==> (old(self)@.opened && old(self)@.next_download_id + 1 <= i64::MAX),
            (r matches Ok(d) ==> final(self)@ == add_download_spec(old(self)@, download@) && d@
                == download_row_of(download@, old(self)@.next_download_id)),
            (r is Err ==> final(self)@ == old(self)@),
            (!old(self)@.opened ==> r == Err::<StationDownload, DbError>(DbError::NotOpened)),
            (old(self)@.opened && old(self)@.next_download_id + 1 > i64::MAX ==> r == Err::<
                StationDownload,
                DbError,
            >(DbError::SeriousBug)),
    {
        if !self.opened {
            return Err(DbError::NotOpened);
        }
        if self.next_download_id == i64::MAX {
            return Err(DbError::SeriousBug);
        }
        let id = self.next_download_id;
        let mut row = download.clone();
        row.id = Some(id);
        proof {
            assert(row@ =~= download_row_of(download@, self@.next_download_id));
        }
        let returned = row.clone();
        self.downloads.push(row);
        self.next_download_id = id + 1;
        proof {
            assert(self@ =~= add_download_spec(old(self)@, download@));
        }
        Ok(returned)
    }

    /// Update the download row addressed by `download.id`; everything but
    /// the row id is overwritten. Returns the argument.
    pub fn update_station_download(&mut self, download: &StationDownload) -> (r: Result<
        StationDownload,
        DbError,
    >)
        requires
            old(self).wf(),
            download@.id is Some,
        ensures
            final(self).wf(),
            (r is Ok) <==> (old(self)@.opened && find_download_index(
                old(self)@.downloads,
                id_of(download@.id),
            ) >= 0),
            (r matches Ok(d) ==> final(self)@ == update_download_spec(old(self)@, download@) && d@
                == download@),
            (r is Err ==> final(self)@ == old(self)@),
            (!old(self)@.opened ==> r == Err::<StationDownload, DbError>(DbError::NotOpened)),
            (old(self)@.opened && find_download_index(old(self)@.downloads, id_of(download@.id))
                < 0 ==> r == Err::<StationDownload, DbError>(DbError::RowConstraint)),
    {
        if !self.opened {
            return Err(DbError::NotOpened);
        }
        let id = match download.id {
            Some(id) => id,
            None => 0,
        };
        let ghost rows = self@.downloads;
        let mut j: usize = 0;
        while j < self.downloads.len()
            invariant
                j <= self.downloads.len(),
                rows == self@.downloads,
                *self == *old(self),
                old(self).wf(),
                old(self)@.opened,
                download@.id == Some(id),
                forall|k: int| 0 <= k < j ==> rows[k].id != Some(id),
            decreases self.downloads.len() - j,
        {
            proof {
                assert(rows[j as int] == self.downloads@[j as int]@);
            }
            let here = match self.downloads[j].id {
                Some(x) => x == id,
                None => false,
            };
            if here {
                proof {
                    lemma_find_download_index_at(rows, id, j as int);
                }
                let mut row = download.clone();
                row.id = self.downloads[j].id;
                proof {
                    assert(row@ =~= (StationDownloadV { id: rows[j as int].id, ..download@ }));
                }
                self.downloads[j] = row;
                let returned = download.clone();
                proof {
                    let newrows = self@.downloads;
                    let target = rows.update(
                        j as int,
                        StationDownloadV { id: rows[j as int].id, ..download@ },
                    );
                    assert(newrows[j as int] == target[j as int]);
                    assert forall|k: int| 0 <= k < rows.len() && k != j implies newrows[k]
                        == target[k] by {
                        assert(self.downloads@[k] == old(self).downloads@[k]);
                    }
                    assert(newrows =~= target);
                    assert(self@ =~= update_download_spec(old(self)@, download@));
                }
                return Ok(returned);
            }
            j = j + 1;
        }
        proof {
            lemma_find_download_index_none(rows, id);
        }
        Err(DbError::RowConstraint)
    }

    /// The download rows of one station, in table order.
    pub fn get_station_downloads(&self, station_id: i64) -> (r: Result<
        Vec<StationDownload>,
        DbError,
    >)
        ensures
            (r is Ok) <==> self@.opened,
            (r matches Ok(v) ==> downloads_view(v) == downloads_of(self@.downloads, station_id)),
            (r is Err ==> r == Err::<Vec<StationDownload>, DbError>(DbError::NotOpened)),
    {
        if !self.opened {
            return Err(DbError::NotOpened);
        }
        let ghost rows = self@.downloads;
        let mut out: Vec<StationDownload> = Vec::new();
        let mut j: usize = 0;
        while j < self.downloads.len()
            invariant
                j <= self.downloads.len(),
                rows == self@.downloads,
                self@.opened,
                downloads_view(out) =~= downloads_of(rows.take(j as int), station_id),
            decreases self.downloads.len() - j,
        {
            proof {
                assert(rows[j as int] == self.downloads@[j as int]@);
                assert(rows.take(j as int + 1).drop_last() =~= rows.take(j as int));
                assert(rows.take(j as int + 1).last() == rows[j as int]);
            }
            if self.downloads[j].station_id == station_id {
                let ghost pre = downloads_view(out);
                out.push(self.downloads[j].clone());
                proof {
                    assert(downloads_view(out) =~= pre.push(rows[j as int]));
                }
            }
            j = j + 1;
        }
        proof {
            assert(rows.take(rows.len() as int) =~= rows);
        }
        Ok(out)
    }
}

} // verus!
