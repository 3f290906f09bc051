//! The pure merge policy: reconcile a freshly observed station tree with the
//! persisted one. Row identity (`id`, parent ids) comes from the existing
//! side; scalar and stream fields come from the incoming side; a module or
//! sensor that disappears is tombstoned (`removed = true`) rather than
//! dropped, so a later reappearance revives the same row. Modules are
//! returned sorted by `(position, key)` ascending.

use vstd::prelude::*;

use crate::clock;
use crate::model::Module;
use crate::model::ModuleV;
use crate::model::Sensor;
use crate::model::SensorV;
use crate::model::Station;
use crate::model::StationV;
use crate::model::modules_view;
use crate::model::sensors_view;

verus! {

// ---------------------------------------------------------------------------
// Ordering of modules: by position, then lexicographically by key.
// ---------------------------------------------------------------------------

/// Lexicographic order on character sequences, by code point.
pub open spec fn lex_leq(a: Seq<char>, b: Seq<char>) -> bool
    decreases a.len(),
{
    if a.len() == 0 {
        true
    } else if b.len() == 0 {
        false
    } else if a[0] == b[0] {
        lex_leq(a.drop_first(), b.drop_first())
    } else {
        (a[0] as u32) < (b[0] as u32)
    }
}

/// Lexicographic comparison of two strings, as `lex_leq` of their views.
pub fn str_lex_leq(a: &str, b: &str) -> (r: bool)
    ensures
        r == lex_leq(a@, b@),
{
    let a_len = a.unicode_len();
    let b_len = b.unicode_len();
    let mut i: usize = 0;
    proof {
        assert(a@.skip(0) =~= a@);
        assert(b@.skip(0) =~= b@);
    }
    loop
        invariant
            i <= a_len,
            i <= b_len,
            a_len == a@.len(),
            b_len == b@.len(),
            lex_leq(a@, b@) == lex_leq(a@.skip(i as int), b@.skip(i as int)),
        decreases a_len - i,
    {
        proof {
            assert(a@.skip(i as int).len() == a@.len() - i);
            assert(b@.skip(i as int).len() == b@.len() - i);
        }
        if i >= a_len {
            return true;
        }
        if i >= b_len {
            return false;
        }
        let ca = a.get_char(i);
        let cb = b.get_char(i);
        proof {
            assert(a@.skip(i as int)[0] == a@[i as int]);
            assert(b@.skip(i as int)[0] == b@[i as int]);
        }
        if ca == cb {
            proof {
                assert(a@.skip(i as int).drop_first() =~= a@.skip(i as int + 1));
                assert(b@.skip(i as int).drop_first() =~= b@.skip(i as int + 1));
            }
            i = i + 1;
        } else {
            return (ca as u32) < (cb as u32);
        }
    }
}

/// Order in which merged modules are returned: by position, then by key.
pub open spec fn module_leq(a: ModuleV, b: ModuleV) -> bool {
    a.position < b.position || (a.position == b.position && lex_leq(a.key, b.key))
}

/// `module_leq` on executable modules.
pub fn module_leq_exec(a: &Module, b: &Module) -> (r: bool)
    ensures
        r == module_leq(a@, b@),
{
    if a.position < b.position {
        true
    } else if a.position == b.position {
        str_lex_leq(a.key.as_str(), b.key.as_str())
    } else {
        false
    }
}

// ---------------------------------------------------------------------------
// Sensors.
// ---------------------------------------------------------------------------

/// Some sensor in `s` carries the number `n`.
pub open spec fn sensor_in(s: Seq<SensorV>, n: u32) -> bool {
    exists|k: int| 0 <= k < s.len() && s[k].number == n
}

/// The first sensor in `s` with number `n`.
pub open spec fn first_sensor(s: Seq<SensorV>, n: u32) -> SensorV
    decreases s.len(),
{
    if s.len() == 0 {
        arbitrary()
    } else if s[0].number == n {
        s[0]
    } else {
        first_sensor(s.drop_first(), n)
    }
}

proof fn lemma_first_sensor_at(s: Seq<SensorV>, n: u32, j: int)
    requires
        0 <= j < s.len(),
        s[j].number == n,
        forall|k: int| 0 <= k < j ==> s[k].number != n,
    ensures
        first_sensor(s, n) == s[j],
    decreases j,
{
    if j > 0 {
        lemma_first_sensor_at(s.drop_first(), n, j - 1);
    }
}

/// A sensor present on both sides: identity and previous reading stay with
/// the existing row; the observed fields come from the incoming one.
pub open spec fn merged_sensor(e: SensorV, i: SensorV) -> SensorV {
    SensorV {
        key: i.key,
        flags: i.flags,
        calibrated_uom: i.calibrated_uom,
        uncalibrated_uom: i.uncalibrated_uom,
        value: i.value,
        ..e
    }
}

/// A sensor that disappeared: kept, with `removed` set.
pub open spec fn tombstoned_sensor(e: SensorV) -> SensorV {
    SensorV { removed: true, ..e }
}

/// The existing sensors, each merged with its incoming counterpart or
/// tombstoned when none is there.
pub open spec fn carried_sensors(e: Seq<SensorV>, i: Seq<SensorV>) -> Seq<SensorV> {
    Seq::new(
        e.len(),
        |k: int|
            if sensor_in(i, e[k].number) {
                merged_sensor(e[k], first_sensor(i, e[k].number))
            } else {
                tombstoned_sensor(e[k])
            },
    )
}

/// The incoming sensors whose numbers are new, in incoming order.
pub open spec fn added_sensors(e: Seq<SensorV>, i: Seq<SensorV>) -> Seq<SensorV>
    decreases i.len(),
{
    if i.len() == 0 {
        Seq::empty()
    } else {
        added_sensors(e, i.drop_last()) + if sensor_in(e, i.last().number) {
            Seq::empty()
        } else {
            seq![i.last()]
        }
    }
}

/// What merging two sensor lists returns.
pub open spec fn merge_sensors_spec(e: Seq<SensorV>, i: Seq<SensorV>) -> Seq<SensorV> {
    carried_sensors(e, i) + added_sensors(e, i)
}

/// Index of the first sensor with the given number.
fn find_sensor(v: &Vec<Sensor>, n: u32) -> (r: Option<usize>)
    ensures
        match r {
            Some(j) => j < v@.len() && v@[j as int]@.number == n && forall|k: int|
                0 <= k < j ==> v@[k]@.number != n,
            None => !sensor_in(sensors_view(*v), n),
        },
{
    let mut j: usize = 0;
    while j < v.len()
        invariant
            j <= v.len(),
            forall|k: int| 0 <= k < j ==> v@[k]@.number != n,
        decreases v.len() - j,
    {
        if v[j].number == n {
            return Some(j);
        }
        j = j + 1;
    }
    proof {
        assert(forall|k: int|
            0 <= k < sensors_view(*v).len() ==> sensors_view(*v)[k].number == v@[k]@.number);
    }
    None
}

fn merged_sensor_exec(e: &Sensor, i: &Sensor) -> (r: Sensor)
    ensures
        r@ == merged_sensor(e@, i@),
{
    Sensor {
        id: e.id,
        module_id: e.module_id,
        number: e.number,
        flags: i.flags,
        key: i.key.clone(),
        calibrated_uom: i.calibrated_uom.clone(),
        uncalibrated_uom: i.uncalibrated_uom.clone(),
        value: i.value,
        previous_value: e.previous_value,
        removed: e.removed,
    }
}

/// Merge two sensor lists by sensor number. Rows on both sides keep the
/// existing identity and take the incoming observation; rows only on the
/// existing side are tombstoned; rows only on the incoming side are new.
pub fn merge_sensors(existing: Vec<Sensor>, incoming: Vec<Sensor>) -> (r: Vec<Sensor>)
    ensures
        sensors_view(r) == merge_sensors_spec(sensors_view(existing), sensors_view(incoming)),
{
    let ghost ev = sensors_view(existing);
    let ghost iv = sensors_view(incoming);
    let mut out: Vec<Sensor> = Vec::new();

    let mut idx: usize = 0;
    while idx < existing.len()
        invariant
            idx <= existing.len(),
            ev == sensors_view(existing),
            iv == sensors_view(incoming),
            sensors_view(out) =~= carried_sensors(ev, iv).take(idx as int),
        decreases existing.len() - idx,
    {
        let e = &existing[idx];
        proof {
            assert(ev[idx as int] == e@);
        }
        match find_sensor(&incoming, e.number) {
            Some(j) => {
                proof {
                    assert(iv[j as int] == incoming@[j as int]@);
                    assert(forall|k: int| 0 <= k < j ==> iv[k].number != e@.number);
                    lemma_first_sensor_at(iv, e@.number, j as int);
                }
                let m = merged_sensor_exec(e, &incoming[j]);
                out.push(m);
            },
            None => {
                let mut t = e.clone();
                t.removed = true;
                proof {
                    assert(t@ == tombstoned_sensor(e@));
                }
                out.push(t);
            },
        }
        proof {
            assert(carried_sensors(ev, iv).take(idx as int + 1) =~= carried_sensors(
                ev,
                iv,
            ).take(idx as int).push(carried_sensors(ev, iv)[idx as int]));
        }
        idx = idx + 1;
    }
    proof {
        assert(carried_sensors(ev, iv).take(ev.len() as int) =~= carried_sensors(ev, iv));
    }

    let mut jdx: usize = 0;
    while jdx < incoming.len()
        invariant
            jdx <= incoming.len(),
            ev == sensors_view(existing),
            iv == sensors_view(incoming),
            sensors_view(out) =~= carried_sensors(ev, iv) + added_sensors(ev, iv.take(jdx as int)),
        decreases incoming.len() - jdx,
    {
        let i = &incoming[jdx];
        proof {
            assert(iv[jdx as int] == i@);
            assert(iv.take(jdx as int + 1).drop_last() =~= iv.take(jdx as int));
            assert(iv.take(jdx as int + 1).last() == iv[jdx as int]);
        }
        match find_sensor(&existing, i.number) {
            Some(j) => {
                proof {
                    assert(ev[j as int] == existing@[j as int]@);
                    assert(sensor_in(ev, i@.number));
                    assert(added_sensors(ev, iv.take(jdx as int + 1)) =~= added_sensors(
                        ev,
                        iv.take(jdx as int),
                    ));
                }
            },
            None => {
                let ghost pre = sensors_view(out);
                out.push(i.clone());
                proof {
                    assert(sensors_view(out) =~= pre.push(iv[jdx as int]));
                    assert(added_sensors(ev, iv.take(jdx as int + 1)) =~= added_sensors(
                        ev,
                        iv.take(jdx as int),
                    ) + seq![iv[jdx as int]]);
                    assert(sensors_view(out) =~= carried_sensors(ev, iv) + added_sensors(
                        ev,
                        iv.take(jdx as int + 1),
                    ));
                }
            },
        }
        jdx = jdx + 1;
    }
    proof {
        assert(iv.take(iv.len() as int) =~= iv);
        assert(sensors_view(out) =~= merge_sensors_spec(ev, iv));
    }
    out
}

// ---------------------------------------------------------------------------
// Modules.
// ---------------------------------------------------------------------------

/// Some module in `s` carries the hardware id `key`.
pub open spec fn module_in(s: Seq<ModuleV>, key: Seq<char>) -> bool {
    exists|k: int| 0 <= k < s.len() && s[k].hardware_id == key
}

/// The first module in `s` with hardware id `key`.
pub open spec fn first_module(s: Seq<ModuleV>, key: Seq<char>) -> ModuleV
    decreases s.len(),
{
    if s.len() == 0 {
        arbitrary()
    } else if s[0].hardware_id == key {
        s[0]
    } else {
        first_module(s.drop_first(), key)
    }
}

proof fn lemma_first_module_at(s: Seq<ModuleV>, key: Seq<char>, j: int)
    requires
        0 <= j < s.len(),
        s[j].hardware_id == key,
        forall|k: int| 0 <= k < j ==> s[k].hardware_id != key,
    ensures
        first_module(s, key) == s[j],
    decreases j,
{
    if j > 0 {
        lemma_first_module_at(s.drop_first(), key, j - 1);
    }
}

/// A module present on both sides: identity stays with the existing row,
/// the observed fields come from the incoming one, the tombstone is lifted,
/// and the sensors merge recursively.
pub open spec fn merged_module(e: ModuleV, i: ModuleV) -> ModuleV {
    ModuleV {
        position: i.position,
        flags: i.flags,
        configuration: i.configuration,
        key: i.key,
        path: i.path,
        sensors: merge_sensors_spec(e.sensors, i.sensors),
        removed: false,
        ..e
    }
}

/// A module that disappeared: kept, with `removed` set.
pub open spec fn tombstoned_module(e: ModuleV) -> ModuleV {
    ModuleV { removed: true, ..e }
}

/// The existing modules, each merged with its incoming counterpart or
/// tombstoned when none is there.
pub open spec fn carried_modules(e: Seq<ModuleV>, i: Seq<ModuleV>) -> Seq<ModuleV> {
    Seq::new(
        e.len(),
        |k: int|
            if module_in(i, e[k].hardware_id) {
                merged_module(e[k], first_module(i, e[k].hardware_id))
            } else {
                tombstoned_module(e[k])
            },
    )
}

/// The incoming modules whose hardware ids are new, in incoming order.
pub open spec fn added_modules(e: Seq<ModuleV>, i: Seq<ModuleV>) -> Seq<ModuleV>
    decreases i.len(),
{
    if i.len() == 0 {
        Seq::empty()
    } else {
        added_modules(e, i.drop_last()) + if module_in(e, i.last().hardware_id) {
            Seq::empty()
        } else {
            seq![i.last()]
        }
    }
}

/// The merged modules before sorting: carried rows, then new rows.
pub open spec fn combine_modules(e: Seq<ModuleV>, i: Seq<ModuleV>) -> Seq<ModuleV> {
    carried_modules(e, i) + added_modules(e, i)
}

/// Insertion of `m` behind every element `leq` it.
pub open spec fn insert_sorted(s: Seq<ModuleV>, m: ModuleV) -> Seq<ModuleV>
    decreases s.len(),
{
    if s.len() == 0 {
        seq![m]
    } else if module_leq(s[0], m) {
        seq![s[0]] + insert_sorted(s.drop_first(), m)
    } else {
        seq![m] + s
    }
}

/// Insertion sort of a module sequence under `module_leq`.
pub open spec fn sort_modules(s: Seq<ModuleV>) -> Seq<ModuleV>
    decreases s.len(),
{
    if s.len() == 0 {
        Seq::empty()
    } else {
        insert_sorted(sort_modules(s.drop_last()), s.last())
    }
}

/// What merging two module lists returns.
pub open spec fn merge_modules_spec(e: Seq<ModuleV>, i: Seq<ModuleV>) -> Seq<ModuleV> {
    sort_modules(combine_modules(e, i))
}

proof fn lemma_insert_sorted_at(s: Seq<ModuleV>, m: ModuleV, p: int)
    requires
        0 <= p <= s.len(),
        forall|k: int| 0 <= k < p ==> module_leq(s[k], m),
        p < s.len() ==> !module_leq(s[p], m),
    ensures
        insert_sorted(s, m) =~= s.insert(p, m),
    decreases s.len(),
{
    if p == 0 {
        if s.len() == 0 {
            assert(insert_sorted(s, m) =~= s.insert(0, m));
        } else {
            assert(!module_leq(s[0], m));
            assert(insert_sorted(s, m) =~= s.insert(0, m));
        }
    } else {
        assert(module_leq(s[0], m));
        assert(forall|k: int|
            0 <= k < p - 1 ==> s.drop_first()[k] == s[k + 1] && module_leq(#[trigger] s.drop_first()[k], m));
        lemma_insert_sorted_at(s.drop_first(), m, p - 1);
        assert(insert_sorted(s, m) =~= seq![s[0]] + s.drop_first().insert(p - 1, m));
        assert(seq![s[0]] + s.drop_first().insert(p - 1, m) =~= s.insert(p, m));
    }
}

/// Index of the first module with the given hardware id.
fn find_module(v: &Vec<Module>, hardware_id: &String) -> (r: Option<usize>)
    ensures
        match r {
            Some(j) => j < v@.len() && v@[j as int]@.hardware_id == hardware_id@ && forall|k: int|
                0 <= k < j ==> v@[k]@.hardware_id != hardware_id@,
            None => !module_in(modules_view(*v), hardware_id@),
        },
{
    let mut j: usize = 0;
    while j < v.len()
        invariant
            j <= v.len(),
            forall|k: int| 0 <= k < j ==> v@[k]@.hardware_id != hardware_id@,
        decreases v.len() - j,
    {
        if v[j].hardware_id == *hardware_id {
            return Some(j);
        }
        j = j + 1;
    }
    proof {
        assert(forall|k: int|
            0 <= k < modules_view(*v).len() ==> modules_view(*v)[k].hardware_id == v@[k]@.hardware_id);
    }
    None
}

fn merged_module_exec(e: &Module, i: &Module) -> (r: Module)
    ensures
        r@ == merged_module(e@, i@),
{
    let r = Module {
        id: e.id,
        station_id: e.station_id,
        hardware_id: e.hardware_id.clone(),
        header: e.header,
        flags: i.flags,
        position: i.position,
        key: i.key.clone(),
        path: i.path.clone(),
        configuration: match &i.configuration {
            Some(c) => Some(crate::model::clone_bytes(c)),
            None => None,
        },
        removed: false,
        sensors: merge_sensors(
            crate::model::clone_sensors(&e.sensors),
            crate::model::clone_sensors(&i.sensors),
        ),
    };
    proof {
        assert(r@ =~= merged_module(e@, i@));
    }
    r
}

/// Insert a module into a vector so that insertion order follows
/// `insert_sorted`.
fn insert_module_sorted(v: Vec<Module>, m: Module) -> (r: Vec<Module>)
    ensures
        modules_view(r) == insert_sorted(modules_view(v), m@),
{
    let ghost mv = m@;
    let ghost before = modules_view(v);
    let mut p: usize = 0;
    let mut stop = false;
    while !stop && p < v.len()
        invariant
            p <= v.len(),
            before == modules_view(v),
            mv == m@,
            forall|k: int| 0 <= k < p ==> module_leq(before[k], mv),
            stop ==> p < v.len() && !module_leq(before[p as int], mv),
        decreases v.len() - p + (if stop { 0int } else { 1int }),
    {
        proof {
            assert(before[p as int] == v@[p as int]@);
        }
        if module_leq_exec(&v[p], &m) {
            p = p + 1;
        } else {
            stop = true;
        }
    }
    proof {
        lemma_insert_sorted_at(before, mv, p as int);
    }
    let mut r = v;
    r.insert(p, m);
    proof {
        assert(modules_view(r) =~= before.insert(p as int, mv));
    }
    r
}

/// Insertion sort of a module vector under `module_leq`.
fn sort_modules_exec(v: Vec<Module>) -> (r: Vec<Module>)
    ensures
        modules_view(r) == sort_modules(modules_view(v)),
{
    let ghost vv = modules_view(v);
    let mut out: Vec<Module> = Vec::new();
    let mut j: usize = 0;
    while j < v.len()
        invariant
            j <= v.len(),
            vv == modules_view(v),
            modules_view(out) =~= sort_modules(vv.take(j as int)),
        decreases v.len() - j,
    {
        proof {
            assert(vv.take(j as int + 1).drop_last() =~= vv.take(j as int));
            assert(vv.take(j as int + 1).last() == vv[j as int]);
            assert(vv[j as int] == v@[j as int]@);
        }
        out = insert_module_sorted(out, v[j].clone());
        j = j + 1;
    }
    proof {
        assert(vv.take(vv.len() as int) =~= vv);
    }
    out
}

/// Merge two module lists by hardware id, then sort by `(position, key)`.
/// Rows on both sides keep the existing identity, take the incoming
/// observation and lose any tombstone; rows only on the existing side are
/// tombstoned; rows only on the incoming side are new.
pub fn merge_modules(existing: Vec<Module>, incoming: Vec<Module>) -> (r: Vec<Module>)
    ensures
        modules_view(r) == merge_modules_spec(modules_view(existing), modules_view(incoming)),
{
    let ghost ev = modules_view(existing);
    let ghost iv = modules_view(incoming);
    let mut combined: Vec<Module> = Vec::new();

    let mut idx: usize = 0;
    while idx < existing.len()
        invariant
            idx <= existing.len(),
            ev == modules_view(existing),
            iv == modules_view(incoming),
            modules_view(combined) =~= carried_modules(ev, iv).take(idx as int),
        decreases existing.len() - idx,
    {
        let e = &existing[idx];
        proof {
            assert(ev[idx as int] == e@);
        }
        match find_module(&incoming, &e.hardware_id) {
            Some(j) => {
                proof {
                    assert(iv[j as int] == incoming@[j as int]@);
                    assert(forall|k: int| 0 <= k < j ==> iv[k].hardware_id != e@.hardware_id);
                    lemma_first_module_at(iv, e@.hardware_id, j as int);
                }
                let m = merged_module_exec(e, &incoming[j]);
                combined.push(m);
            },
            None => {
                let mut t = e.clone();
                t.removed = true;
                proof {
                    assert(t@ =~= tombstoned_module(e@));
                }
                combined.push(t);
            },
        }
        proof {
            assert(carried_modules(ev, iv).take(idx as int + 1) =~= carried_modules(
                ev,
                iv,
            ).take(idx as int).push(carried_modules(ev, iv)[idx as int]));
        }
        idx = idx + 1;
    }
    proof {
        assert(carried_modules(ev, iv).take(ev.len() as int) =~= carried_modules(ev, iv));
    }

    let mut jdx: usize = 0;
    while jdx < incoming.len()
        invariant
            jdx <= incoming.len(),
            ev == modules_view(existing),
            iv == modules_view(incoming),
            modules_view(combined) =~= carried_modules(ev, iv) + added_modules(
                ev,
                iv.take(jdx as int),
            ),
        decreases incoming.len() - jdx,
    {
        let i = &incoming[jdx];
        proof {
            assert(iv[jdx as int] == i@);
            assert(iv.take(jdx as int + 1).drop_last() =~= iv.take(jdx as int));
            assert(iv.take(jdx as int + 1).last() == iv[jdx as int]);
        }
        match find_module(&existing, &i.hardware_id) {
            Some(j) => {
                proof {
                    assert(ev[j as int] == existing@[j as int]@);
                    assert(module_in(ev, i@.hardware_id));
                    assert(added_modules(ev, iv.take(jdx as int + 1)) =~= added_modules(
                        ev,
                        iv.take(jdx as int),
                    ));
                }
            },
            None => {
                let ghost pre = modules_view(combined);
                combined.push(i.clone());
                proof {
                    assert(modules_view(combined) =~= pre.push(iv[jdx as int]));
                    assert(added_modules(ev, iv.take(jdx as int + 1)) =~= added_modules(
                        ev,
                        iv.take(jdx as int),
                    ) + seq![iv[jdx as int]]);
                    assert(modules_view(combined) =~= carried_modules(ev, iv) + added_modules(
                        ev,
                        iv.take(jdx as int + 1),
                    ));
                }
            },
        }
        jdx = jdx + 1;
    }
    proof {
        assert(iv.take(iv.len() as int) =~= iv);
        assert(modules_view(combined) =~= combine_modules(ev, iv));
    }

    sort_modules_exec(combined)
}

// ---------------------------------------------------------------------------
// Stations.
// ---------------------------------------------------------------------------

/// The view behind an optional station.
pub open spec fn station_opt_view(o: Option<Station>) -> Option<StationV> {
    match o {
        Some(s) => Some(s@),
        None => None,
    }
}

/// What merging returns: with no existing station the incoming one as it
/// is; otherwise identity from the existing row, observed fields from the
/// incoming one, `last_seen` set to `now`, the location kept when the
/// incoming tree lacks one, and the module trees merged.
pub open spec fn merge_spec(existing: Option<StationV>, incoming: StationV, now: i64) -> StationV {
    match existing {
        Some(e) => StationV {
            id: e.id,
            device_id: e.device_id,
            name: incoming.name,
            generation_id: incoming.generation_id,
            firmware: incoming.firmware,
            meta: incoming.meta,
            data: incoming.data,
            battery: incoming.battery,
            solar: incoming.solar,
            last_seen: now,
            modules: merge_modules_spec(e.modules, incoming.modules),
            status: incoming.status,
            last_seen_location: match incoming.last_seen_location {
                Some(l) => Some(l),
                None => e.last_seen_location,
            },
        },
        None => incoming,
    }
}

/// Merge with the moment of reconciliation given by the caller.
pub fn merge_at(existing: Option<Station>, incoming: Station, now: i64) -> (r: Station)
    ensures
        r@ == merge_spec(station_opt_view(existing), incoming@, now),
{
    match existing {
        None => incoming,
        Some(e) => {
            let r = Station {
                id: e.id,
                device_id: e.device_id,
                name: incoming.name,
                generation_id: incoming.generation_id,
                firmware: incoming.firmware,
                meta: incoming.meta,
                data: incoming.data,
                battery: incoming.battery,
                solar: incoming.solar,
                last_seen: now,
                modules: merge_modules(e.modules, incoming.modules),
                status: incoming.status,
                last_seen_location: match incoming.last_seen_location {
                    Some(l) => Some(l),
                    None => e.last_seen_location,
                },
            };
            proof {
                assert(r@ =~= merge_spec(station_opt_view(Some(e)), incoming@, now));
            }
            r
        },
    }
}

/// Merge at the present moment. Everything but the reconciliation time is
/// pinned by `merge_spec`; the time is whatever the clock answered, visible
/// in the result's own `last_seen` field.
pub fn merge(existing: Option<Station>, incoming: Station) -> (r: Station)
    ensures
        r@ == merge_spec(station_opt_view(existing), incoming@, r@.last_seen),
{
    let now = clock::now_micros();
    merge_at(existing, incoming, now)
}

// ---------------------------------------------------------------------------
// Laws of the merge policy.
// ---------------------------------------------------------------------------

/// No two sensors share a number.
pub open spec fn sensors_unique(s: Seq<SensorV>) -> bool {
    forall|k: int, l: int| 0 <= k < l < s.len() ==> s[k].number != s[l].number
}

/// No two modules share a hardware id.
pub open spec fn modules_unique(s: Seq<ModuleV>) -> bool {
    forall|k: int, l: int| 0 <= k < l < s.len() ==> s[k].hardware_id != s[l].hardware_id
}

/// A station tree as the merge itself would emit it: module keys unique,
/// modules ordered by `(position, key)`, nothing tombstoned, and sensor
/// numbers unique within each module.
pub open spec fn station_settled(s: StationV) -> bool {
    &&& modules_unique(s.modules)
    &&& forall|k: int, l: int| 0 <= k < l < s.modules.len() ==> module_leq(s.modules[k], s.modules[l])
    &&& forall|k: int| 0 <= k < s.modules.len() ==> !(#[trigger] s.modules[k]).removed
    &&& forall|k: int|
        0 <= k < s.modules.len() ==> sensors_unique((#[trigger] s.modules[k]).sensors)
}

proof fn lemma_added_sensors_none(e: Seq<SensorV>, i: Seq<SensorV>)
    requires
        forall|k: int| 0 <= k < i.len() ==> sensor_in(e, (#[trigger] i[k]).number),
    ensures
        added_sensors(e, i) =~= Seq::<SensorV>::empty(),
    decreases i.len(),
{
    if i.len() > 0 {
        assert(forall|k: int|
            0 <= k < i.drop_last().len() ==> sensor_in(e, (#[trigger] i.drop_last()[k]).number));
        lemma_added_sensors_none(e, i.drop_last());
        assert(sensor_in(e, i.last().number));
    }
}

/// Merging a sensor list with itself changes nothing.
pub proof fn lemma_merge_sensors_self(s: Seq<SensorV>)
    requires
        sensors_unique(s),
    ensures
        merge_sensors_spec(s, s) =~= s,
{
    assert forall|k: int| 0 <= k < s.len() implies carried_sensors(s, s)[k] == s[k] by {
        assert(sensor_in(s, s[k].number));
        lemma_first_sensor_at(s, s[k].number, k);
        assert(merged_sensor(s[k], s[k]) =~= s[k]);
    }
    assert forall|k: int| 0 <= k < s.len() implies sensor_in(s, (#[trigger] s[k]).number) by {}
    lemma_added_sensors_none(s, s);
    assert(merge_sensors_spec(s, s) =~= carried_sensors(s, s));
    assert(carried_sensors(s, s) =~= s);
}

proof fn lemma_added_modules_none(e: Seq<ModuleV>, i: Seq<ModuleV>)
    requires
        forall|k: int| 0 <= k < i.len() ==> module_in(e, (#[trigger] i[k]).hardware_id),
    ensures
        added_modules(e, i) =~= Seq::<ModuleV>::empty(),
    decreases i.len(),
{
    if i.len() > 0 {
        assert(forall|k: int|
            0 <= k < i.drop_last().len() ==> module_in(
                e,
                (#[trigger] i.drop_last()[k]).hardware_id,
            ));
        lemma_added_modules_none(e, i.drop_last());
        assert(module_in(e, i.last().hardware_id));
    }
}

proof fn lemma_insert_sorted_append(s: Seq<ModuleV>, m: ModuleV)
    requires
        forall|k: int| 0 <= k < s.len() ==> module_leq(#[trigger] s[k], m),
    ensures
        insert_sorted(s, m) =~= s + seq![m],
    decreases s.len(),
{
    if s.len() == 0 {
        assert(insert_sorted(s, m) =~= s + seq![m]);
    } else {
        assert(module_leq(s[0], m));
        assert(forall|k: int|
            0 <= k < s.drop_first().len() ==> module_leq(#[trigger] s.drop_first()[k], m));
        lemma_insert_sorted_append(s.drop_first(), m);
        assert(seq![s[0]] + (s.drop_first() + seq![m]) =~= s + seq![m]);
    }
}

/// Sorting an already ordered module list leaves it as it is.
pub proof fn lemma_sort_modules_of_sorted(s: Seq<ModuleV>)
    requires
        forall|k: int, l: int| 0 <= k < l < s.len() ==> module_leq(s[k], s[l]),
    ensures
        sort_modules(s) =~= s,
    decreases s.len(),
{
    if s.len() > 0 {
        lemma_sort_modules_of_sorted(s.drop_last());
        assert(forall|k: int|
            0 <= k < s.drop_last().len() ==> module_leq(#[trigger] s.drop_last()[k], s.last()));
        lemma_insert_sorted_append(s.drop_last(), s.last());
        assert(sort_modules(s) =~= s.drop_last() + seq![s.last()]);
        assert(s.drop_last() + seq![s.last()] =~= s);
    }
}

proof fn lemma_combine_modules_self(m: Seq<ModuleV>)
    requires
        modules_unique(m),
        forall|k: int| 0 <= k < m.len() ==> !(#[trigger] m[k]).removed,
        forall|k: int| 0 <= k < m.len() ==> sensors_unique((#[trigger] m[k]).sensors),
    ensures
        combine_modules(m, m) =~= m,
{
    assert forall|k: int| 0 <= k < m.len() implies carried_modules(m, m)[k] == m[k] by {
        assert(module_in(m, m[k].hardware_id));
        lemma_first_module_at(m, m[k].hardware_id, k);
        lemma_merge_sensors_self(m[k].sensors);
        assert(merged_module(m[k], m[k]) =~= m[k]);
    }
    assert(forall|k: int| 0 <= k < m.len() ==> module_in(m, (#[trigger] m[k]).hardware_id));
    lemma_added_modules_none(m, m);
    assert(combine_modules(m, m) =~= m);
}

/// Merging a station with itself only refreshes `last_seen`: identity,
/// fields, location and the whole module tree come back unchanged.
pub proof fn lemma_merge_idempotent(s: StationV, now: i64)
    requires
        station_settled(s),
    ensures
        merge_spec(Some(s), s, now) == (StationV { last_seen: now, ..s }),
{
    lemma_combine_modules_self(s.modules);
    lemma_sort_modules_of_sorted(s.modules);
    assert(merge_modules_spec(s.modules, s.modules) == s.modules);
    assert(merge_spec(Some(s), s, now) =~= StationV { last_seen: now, ..s });
}

proof fn lemma_insert_sorted_contains(s: Seq<ModuleV>, m: ModuleV, x: ModuleV)
    ensures
        insert_sorted(s, m).contains(x) <==> (s.contains(x) || x == m),
    decreases s.len(),
{
    if s.len() == 0 {
        assert(insert_sorted(s, m)[0] == m);
        if insert_sorted(s, m).contains(x) {
            let j = choose|j: int| 0 <= j < insert_sorted(s, m).len() && insert_sorted(s, m)[j] == x;
            assert(j == 0);
        }
    } else if module_leq(s[0], m) {
        lemma_insert_sorted_contains(s.drop_first(), m, x);
        let t = seq![s[0]] + insert_sorted(s.drop_first(), m);
        assert(insert_sorted(s, m) == t);
        if t.contains(x) {
            let j = choose|j: int| 0 <= j < t.len() && t[j] == x;
            if j == 0 {
                assert(s[0] == x);
                assert(s.contains(x));
            } else {
                assert(insert_sorted(s.drop_first(), m)[j - 1] == x);
                assert(insert_sorted(s.drop_first(), m).contains(x));
                if s.drop_first().contains(x) {
                    let l = choose|l: int|
                        0 <= l < s.drop_first().len() && s.drop_first()[l] == x;
                    assert(s[l + 1] == x);
                    assert(s.contains(x));
                }
            }
        }
        if s.contains(x) {
            let j = choose|j: int| 0 <= j < s.len() && s[j] == x;
            if j == 0 {
                assert(t[0] == x);
                assert(t.contains(x));
            } else {
                assert(s.drop_first()[j - 1] == x);
                assert(s.drop_first().contains(x));
                let l = choose|l: int|
                    0 <= l < insert_sorted(s.drop_first(), m).len() && insert_sorted(
                        s.drop_first(),
                        m,
                    )[l] == x;
                assert(t[l + 1] == x);
                assert(t.contains(x));
            }
        }
        if x == m {
            let l = choose|l: int|
                0 <= l < insert_sorted(s.drop_first(), m).len() && insert_sorted(
                    s.drop_first(),
                    m,
                )[l] == x;
            assert(t[l + 1] == x);
            assert(t.contains(x));
        }
    } else {
        let t = seq![m] + s;
        assert(insert_sorted(s, m) == t);
        if t.contains(x) {
            let j = choose|j: int| 0 <= j < t.len() && t[j] == x;
            if j == 0 {
            } else {
                assert(s[j - 1] == x);
                assert(s.contains(x));
            }
        }
        if s.contains(x) {
            let j = choose|j: int| 0 <= j < s.len() && s[j] == x;
            assert(t[j + 1] == x);
            assert(t.contains(x));
        }
        if x == m {
            assert(t[0] == x);
            assert(t.contains(x));
        }
    }
}

proof fn lemma_sort_modules_contains(s: Seq<ModuleV>, x: ModuleV)
    ensures
        sort_modules(s).contains(x) <==> s.contains(x),
    decreases s.len(),
{
    if s.len() == 0 {
        if s.contains(x) {
            let j = choose|j: int| 0 <= j < s.len() && s[j] == x;
        }
    } else {
        lemma_sort_modules_contains(s.drop_last(), x);
        lemma_insert_sorted_contains(sort_modules(s.drop_last()), s.last(), x);
        if s.contains(x) {
            let j = choose|j: int| 0 <= j < s.len() && s[j] == x;
            if j < s.len() - 1 {
                assert(s.drop_last()[j] == x);
                assert(s.drop_last().contains(x));
            } else {
                assert(s.last() == x);
            }
        }
        if sort_modules(s).contains(x) {
            if s.drop_last().contains(x) {
                let j = choose|j: int| 0 <= j < s.drop_last().len() && s.drop_last()[j] == x;
                assert(s[j] == x);
                assert(s.contains(x));
            } else {
                assert(x == s.last());
                assert(s[s.len() - 1] == x);
                assert(s.contains(x));
            }
        }
    }
}

/// A sensor row id drawn from one of the two sides of a module merge.
pub open spec fn sensor_id_from(id: Option<i64>, e: Seq<ModuleV>, i: Seq<ModuleV>) -> bool {
    ||| exists|j: int, l: int|
        #![trigger e[j].sensors[l]]
        0 <= j < e.len() && 0 <= l < e[j].sensors.len() && id == e[j].sensors[l].id
    ||| exists|j: int, l: int|
        #![trigger i[j].sensors[l]]
        0 <= j < i.len() && 0 <= l < i[j].sensors.len() && id == i[j].sensors[l].id
}

/// A merged module's identity comes from one side or the other: its row id
/// is some existing module's or some incoming module's, and so is each of
/// its sensors' row ids.
pub open spec fn module_ids_from(m: ModuleV, e: Seq<ModuleV>, i: Seq<ModuleV>) -> bool {
    &&& ((exists|j: int| 0 <= j < e.len() && m.id == (#[trigger] e[j]).id) || (exists|j: int|
        0 <= j < i.len() && m.id == (#[trigger] i[j]).id))
    &&& forall|l: int|
        0 <= l < m.sensors.len() ==> sensor_id_from((#[trigger] m.sensors[l]).id, e, i)
}

proof fn lemma_first_module_elem(s: Seq<ModuleV>, key: Seq<char>)
    requires
        module_in(s, key),
    ensures
        exists|j: int| 0 <= j < s.len() && s[j] == first_module(s, key),
    decreases s.len(),
{
    if s[0].hardware_id == key {
        assert(s[0] == first_module(s, key));
    } else {
        let w = choose|w: int| 0 <= w < s.len() && s[w].hardware_id == key;
        assert(s.drop_first()[w - 1] == s[w]);
        assert(module_in(s.drop_first(), key));
        lemma_first_module_elem(s.drop_first(), key);
        let j = choose|j: int|
            0 <= j < s.drop_first().len() && s.drop_first()[j] == first_module(
                s.drop_first(),
                key,
            );
        assert(s[j + 1] == first_module(s, key));
    }
}

proof fn lemma_added_sensors_elements(e: Seq<SensorV>, i: Seq<SensorV>)
    ensures
        forall|k: int|
            0 <= k < added_sensors(e, i).len() ==> exists|j: int|
                0 <= j < i.len() && #[trigger] added_sensors(e, i)[k] == i[j],
    decreases i.len(),
{
    if i.len() > 0 {
        lemma_added_sensors_elements(e, i.drop_last());
        assert forall|k: int| 0 <= k < added_sensors(e, i).len() implies exists|j: int|
            0 <= j < i.len() && #[trigger] added_sensors(e, i)[k] == i[j] by {
            let prefix = added_sensors(e, i.drop_last());
            if k < prefix.len() {
                assert(added_sensors(e, i)[k] == prefix[k]);
                let j = choose|j: int| 0 <= j < i.drop_last().len() && prefix[k] == i.drop_last()[j];
                assert(i[j] == prefix[k]);
            } else {
                assert(added_sensors(e, i)[k] == i.last());
                assert(i[i.len() - 1] == i.last());
            }
        }
    }
}

proof fn lemma_added_modules_elements(e: Seq<ModuleV>, i: Seq<ModuleV>)
    ensures
        forall|k: int|
            0 <= k < added_modules(e, i).len() ==> exists|j: int|
                0 <= j < i.len() && #[trigger] added_modules(e, i)[k] == i[j],
    decreases i.len(),
{
    if i.len() > 0 {
        lemma_added_modules_elements(e, i.drop_last());
        assert forall|k: int| 0 <= k < added_modules(e, i).len() implies exists|j: int|
            0 <= j < i.len() && #[trigger] added_modules(e, i)[k] == i[j] by {
            let prefix = added_modules(e, i.drop_last());
            if k < prefix.len() {
                assert(added_modules(e, i)[k] == prefix[k]);
                let j = choose|j: int| 0 <= j < i.drop_last().len() && prefix[k] == i.drop_last()[j];
                assert(i[j] == prefix[k]);
            } else {
                assert(added_modules(e, i)[k] == i.last());
                assert(i[i.len() - 1] == i.last());
            }
        }
    }
}

proof fn lemma_merge_sensors_sources(es: Seq<SensorV>, is_: Seq<SensorV>)
    ensures
        forall|k: int|
            0 <= k < merge_sensors_spec(es, is_).len() ==> ((exists|l: int|
                0 <= l < es.len() && (#[trigger] merge_sensors_spec(es, is_)[k]).id == (
                #[trigger] es[l]).id) || (exists|l: int|
                0 <= l < is_.len() && merge_sensors_spec(es, is_)[k].id == (#[trigger] is_[l]).id)),
{
    lemma_added_sensors_elements(es, is_);
    assert forall|k: int| 0 <= k < merge_sensors_spec(es, is_).len() implies ((exists|l: int|
        0 <= l < es.len() && (#[trigger] merge_sensors_spec(es, is_)[k]).id == (
    #[trigger] es[l]).id) || (exists|l: int|
        0 <= l < is_.len() && merge_sensors_spec(es, is_)[k].id == (#[trigger] is_[l]).id)) by {
        let carried = carried_sensors(es, is_);
        if k < carried.len() {
            assert(merge_sensors_spec(es, is_)[k] == carried[k]);
            assert(carried[k].id == es[k].id);
        } else {
            let a = added_sensors(es, is_)[k - carried.len()];
            assert(merge_sensors_spec(es, is_)[k] == a);
            let j = choose|j: int| 0 <= j < is_.len() && a == is_[j];
            assert(a.id == is_[j].id);
        }
    }
}

/// Every module the merge returns draws its row id, and each of its
/// sensors' row ids, from the existing side or from the incoming side.
pub proof fn lemma_merge_modules_sources(e: Seq<ModuleV>, i: Seq<ModuleV>)
    ensures
        forall|k: int|
            0 <= k < merge_modules_spec(e, i).len() ==> module_ids_from(
                #[trigger] merge_modules_spec(e, i)[k],
                e,
                i,
            ),
{
    let combined = combine_modules(e, i);
    lemma_added_modules_elements(e, i);
    assert forall|k: int| 0 <= k < combined.len() implies module_ids_from(
        #[trigger] combined[k],
        e,
        i,
    ) by {
        let carried = carried_modules(e, i);
        if k < carried.len() {
            let m = carried[k];
            assert(combined[k] == m);
            if module_in(i, e[k].hardware_id) {
                let fm = first_module(i, e[k].hardware_id);
                assert(m == merged_module(e[k], fm));
                assert(m.id == e[k].id);
                lemma_first_module_elem(i, e[k].hardware_id);
                let jw = choose|jw: int| 0 <= jw < i.len() && i[jw] == fm;
                lemma_merge_sensors_sources(e[k].sensors, fm.sensors);
                assert forall|l: int|
                    0 <= l < m.sensors.len() implies sensor_id_from(
                    (#[trigger] m.sensors[l]).id,
                    e,
                    i,
                ) by {
                    if exists|l2: int|
                        0 <= l2 < e[k].sensors.len() && m.sensors[l].id == (
                        #[trigger] e[k].sensors[l2]).id {
                        let l2 = choose|l2: int|
                            0 <= l2 < e[k].sensors.len() && m.sensors[l].id == (
                            #[trigger] e[k].sensors[l2]).id;
                        assert(0 <= k < e.len() && 0 <= l2 < e[k].sensors.len() && m.sensors[l].id
                            == e[k].sensors[l2].id);
                    } else {
                        let l2 = choose|l2: int|
                            0 <= l2 < fm.sensors.len() && m.sensors[l].id == (
                            #[trigger] fm.sensors[l2]).id;
                        assert(0 <= jw < i.len() && 0 <= l2 < i[jw].sensors.len() && m.sensors[l].id
                            == i[jw].sensors[l2].id);
                    }
                }
            } else {
                assert(m == tombstoned_module(e[k]));
                assert(m.id == e[k].id);
                assert(forall|l: int|
                    0 <= l < m.sensors.len() ==> (#[trigger] m.sensors[l]) == e[k].sensors[l]);
            }
        } else {
            let a = added_modules(e, i)[k - carried.len()];
            assert(combined[k] == a);
            let j = choose|j: int| 0 <= j < i.len() && a == i[j];
            assert(a.id == i[j].id);
            assert(forall|l: int|
                0 <= l < a.sensors.len() ==> (#[trigger] a.sensors[l]) == i[j].sensors[l]);
        }
    }
    assert forall|k: int| 0 <= k < merge_modules_spec(e, i).len() implies module_ids_from(
        #[trigger] merge_modules_spec(e, i)[k],
        e,
        i,
    ) by {
        assert(merge_modules_spec(e, i).contains(merge_modules_spec(e, i)[k]));
        lemma_sort_modules_contains(combined, merge_modules_spec(e, i)[k]);
        assert(combined.contains(merge_modules_spec(e, i)[k]));
        let w = choose|w: int| 0 <= w < combined.len() && combined[w] == merge_modules_spec(e, i)[k];
    }
}

/// A module that the incoming tree no longer carries survives the merge as
/// a tombstone: the very row, with `removed` set and its id kept.
pub proof fn lemma_merge_keeps_tombstone(e: Seq<ModuleV>, i: Seq<ModuleV>, k: int)
    requires
        0 <= k < e.len(),
        !module_in(i, e[k].hardware_id),
    ensures
        merge_modules_spec(e, i).contains(tombstoned_module(e[k])),
{
    assert(carried_modules(e, i)[k] == tombstoned_module(e[k]));
    assert(combine_modules(e, i)[k] == tombstoned_module(e[k]));
    assert(combine_modules(e, i).contains(tombstoned_module(e[k])));
    lemma_sort_modules_contains(combine_modules(e, i), tombstoned_module(e[k]));
}

/// Reintroducing a module key revives the tombstoned row: the merged tree
/// holds a module with the same id and hardware id, `removed` clear, and the
/// fields of the incoming observation.
pub proof fn lemma_merge_revives_tombstone(e: Seq<ModuleV>, i: Seq<ModuleV>, k: int)
    requires
        0 <= k < e.len(),
        module_in(i, e[k].hardware_id),
    ensures
        merge_modules_spec(e, i).contains(
            merged_module(e[k], first_module(i, e[k].hardware_id)),
        ),
        merged_module(e[k], first_module(i, e[k].hardware_id)).id == e[k].id,
        merged_module(e[k], first_module(i, e[k].hardware_id)).hardware_id == e[k].hardware_id,
        !merged_module(e[k], first_module(i, e[k].hardware_id)).removed,
{
    let m = merged_module(e[k], first_module(i, e[k].hardware_id));
    assert(carried_modules(e, i)[k] == m);
    assert(combine_modules(e, i)[k] == m);
    assert(combine_modules(e, i).contains(m));
    lemma_sort_modules_contains(combine_modules(e, i), m);
}

} // verus!
