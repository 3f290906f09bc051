//! The record sink: numbered record batches arrive out of order over a
//! lossy transport and are reconciled, per `(device, sync session)` key,
//! into chunk files and finally one contiguous archive with a sidecar
//! manifest. A batch consecutive with the last one appends to the open
//! chunk; a gap opens a new chunk named after its first record number; a
//! chunk name already taken drops the batch. Flushing walks the chunks in
//! head order, skips what an earlier chunk already covered, stops at a
//! destructive overlap, and records the achieved range in the manifest.
//!
//! The sink holds the chunk store in memory; a host mirrors chunk appends,
//! archives and manifests to disk from the values these operations return.

use vstd::prelude::*;
use vstd::string::StringExecFns;

use crate::clock;
use crate::model::DeviceId;
use crate::model::clone_bytes;
use crate::protos::FileMeta;
use crate::protos::FileMetaV;
use crate::text::dec_str;
use crate::text::u64_to_string;

verus! {

/// One record as received: its number on the station and its raw bytes.
#[derive(Debug)]
pub struct NumberedRecord {
    pub number: u64,
    pub record: Vec<u8>,
}

pub struct NumberedRecordV {
    pub number: u64,
    pub record: Seq<u8>,
}

impl View for NumberedRecord {
    type V = NumberedRecordV;

    open spec fn view(&self) -> NumberedRecordV {
        NumberedRecordV { number: self.number, record: self.record@ }
    }
}

/// One batch of records for a `(device, sync session)` key.
#[derive(Debug)]
pub struct ReceivedRecords {
    pub sync_id: String,
    pub device_id: DeviceId,
    pub records: Vec<NumberedRecord>,
}

pub struct ReceivedRecordsV {
    pub sync_id: Seq<char>,
    pub device_id: Seq<char>,
    pub records: Seq<NumberedRecordV>,
}

impl View for ReceivedRecords {
    type V = ReceivedRecordsV;

    open spec fn view(&self) -> ReceivedRecordsV {
        ReceivedRecordsV {
            sync_id: self.sync_id@,
            device_id: self.device_id@,
            records: Seq::new(self.records@.len(), |i: int| self.records@[i]@),
        }
    }
}

impl ReceivedRecords {
    /// The inclusive span from the first record's number to the last's,
    /// absent when the batch is empty.
    pub fn range(&self) -> (r: Option<(u64, u64)>)
        ensures
            r == records_range(self@.records),
    {
        if self.records.len() == 0 {
            None
        } else {
            Some((self.records[0].number, self.records[self.records.len() - 1].number))
        }
    }
}

/// The inclusive span `[first.number, last.number]` of a batch.
pub open spec fn records_range(rs: Seq<NumberedRecordV>) -> Option<(u64, u64)> {
    if rs.len() == 0 {
        None
    } else {
        Some((rs[0].number, rs.last().number))
    }
}

/// The raw bytes of a batch, in order.
pub open spec fn payloads(rs: Seq<NumberedRecordV>) -> Seq<Seq<u8>> {
    rs.map_values(|r: NumberedRecordV| r.record)
}

/// Station identity as the sync protocol reports it, used for the manifest.
#[derive(Debug)]
pub struct Identity {
    pub device_id: DeviceId,
    pub generation_id: String,
    pub name: String,
}

/// What a flush achieved: the first record number of the archive and how
/// many records it holds.
#[derive(Clone, Copy, Debug, PartialEq, Eq, Structural)]
pub struct Flushed {
    pub head_record: u64,
    pub total_records: u64,
}

/// One on-disk chunk: its name (the number of its first record at creation
/// time) and the records in it.
#[derive(Debug)]
pub struct ChunkFile {
    pub head: u64,
    pub records: Vec<Vec<u8>>,
}

#[verifier::ext_equal]
pub struct ChunkV {
    pub head: u64,
    pub records: Seq<Seq<u8>>,
}

impl View for ChunkFile {
    type V = ChunkV;

    open spec fn view(&self) -> ChunkV {
        ChunkV { head: self.head, records: Seq::new(self.records@.len(), |i: int| self.records@[i]@) }
    }
}

/// The chunk directory of one `(device, sync session)` key.
#[derive(Debug)]
pub struct SyncDir {
    pub device_id: DeviceId,
    pub sync_id: String,
    pub chunks: Vec<ChunkFile>,
}

#[verifier::ext_equal]
pub struct DirV {
    pub device_id: Seq<char>,
    pub sync_id: Seq<char>,
    pub chunks: Seq<ChunkV>,
}

impl View for SyncDir {
    type V = DirV;

    open spec fn view(&self) -> DirV {
        DirV {
            device_id: self.device_id@,
            sync_id: self.sync_id@,
            chunks: Seq::new(self.chunks@.len(), |i: int| self.chunks@[i]@),
        }
    }
}

/// A merged archive and its manifest.
#[derive(Debug)]
pub struct ArchiveFile {
    pub device_id: DeviceId,
    pub sync_id: String,
    pub records: Vec<Vec<u8>>,
    pub meta: FileMeta,
}

#[verifier::ext_equal]
pub struct ArchiveV {
    pub device_id: Seq<char>,
    pub sync_id: Seq<char>,
    pub records: Seq<Seq<u8>>,
    pub meta: FileMetaV,
}

impl View for ArchiveFile {
    type V = ArchiveV;

    open spec fn view(&self) -> ArchiveV {
        ArchiveV {
            device_id: self.device_id@,
            sync_id: self.sync_id@,
            records: Seq::new(self.records@.len(), |i: int| self.records@[i]@),
            meta: self.meta@,
        }
    }
}

/// What the sink remembers of the last chunk appended to for one key: the
/// chunk's name and the range covered so far.
#[derive(Clone, Copy, Debug)]
pub struct Previous {
    pub head: u64,
    pub start: u64,
    pub end: u64,
}

/// The per-key tracking entry.
#[derive(Debug)]
pub struct PrevEntry {
    pub device_id: DeviceId,
    pub sync_id: String,
    pub prev: Previous,
}

#[verifier::ext_equal]
pub struct PrevV {
    pub device_id: Seq<char>,
    pub sync_id: Seq<char>,
    pub prev: Previous,
}

impl View for PrevEntry {
    type V = PrevV;

    open spec fn view(&self) -> PrevV {
        PrevV { device_id: self.device_id@, sync_id: self.sync_id@, prev: self.prev }
    }
}

/// An archive ready for handoff to an uploader.
#[derive(Debug)]
pub struct RecordSinkArchive {
    pub device_id: String,
    pub generation_id: String,
    pub path: String,
    pub meta: FileMeta,
}

/// Errors of the sink.
#[derive(Debug, PartialEq, Eq, Structural, Clone, Copy)]
pub enum SinkError {
    /// A batch with no records has no range to file it under.
    EmptyBatch,
    /// A flush of a sync session that never received a record.
    NoSuchSync,
    /// A record number too large for the manifest's signed range.
    HeadOverflow,
    /// An upload mark for a manifest path that is not there.
    NoSuchArchive,
    /// A delete for a device that has no files.
    NoSuchDevice,
}

/// The record sink.
pub struct FilesRecordSink {
    pub base_path: String,
    pub dirs: Vec<SyncDir>,
    pub archives: Vec<ArchiveFile>,
    pub previous: Vec<PrevEntry>,
}

#[verifier::ext_equal]
pub struct SinkV {
    pub base_path: Seq<char>,
    pub dirs: Seq<DirV>,
    pub archives: Seq<ArchiveV>,
    pub previous: Seq<PrevV>,
}

impl View for FilesRecordSink {
    type V = SinkV;

    open spec fn view(&self) -> SinkV {
        SinkV {
            base_path: self.base_path@,
            dirs: Seq::new(self.dirs@.len(), |i: int| self.dirs@[i]@),
            archives: Seq::new(self.archives@.len(), |i: int| self.archives@[i]@),
            previous: Seq::new(self.previous@.len(), |i: int| self.previous@[i]@),
        }
    }
}

// ---------------------------------------------------------------------------
// Finding keys.
// ---------------------------------------------------------------------------

/// The first tracking entry of a key, or -1.
pub open spec fn find_prev(ps: Seq<PrevV>, dev: Seq<char>, sync: Seq<char>) -> int
    decreases ps.len(),
{
    if ps.len() == 0 {
        -1
    } else if ps[0].device_id == dev && ps[0].sync_id == sync {
        0
    } else {
        let r = find_prev(ps.drop_first(), dev, sync);
        if r < 0 {
            -1
        } else {
            r + 1
        }
    }
}

/// The first chunk directory of a key, or -1.
pub open spec fn find_dir(ds: Seq<DirV>, dev: Seq<char>, sync: Seq<char>) -> int
    decreases ds.len(),
{
    if ds.len() == 0 {
        -1
    } else if ds[0].device_id == dev && ds[0].sync_id == sync {
        0
    } else {
        let r = find_dir(ds.drop_first(), dev, sync);
        if r < 0 {
            -1
        } else {
            r + 1
        }
    }
}

/// The first chunk with the given name, or -1.
pub open spec fn find_chunk(cs: Seq<ChunkV>, head: u64) -> int
    decreases cs.len(),
{
    if cs.len() == 0 {
        -1
    } else if cs[0].head == head {
        0
    } else {
        let r = find_chunk(cs.drop_first(), head);
        if r < 0 {
            -1
        } else {
            r + 1
        }
    }
}

proof fn lemma_find_prev_at(ps: Seq<PrevV>, dev: Seq<char>, sync: Seq<char>, j: int)
    requires
        0 <= j < ps.len(),
        ps[j].device_id == dev && ps[j].sync_id == sync,
        forall|k: int| 0 <= k < j ==> !((#[trigger] ps[k]).device_id == dev && ps[k].sync_id == sync),
    ensures
        find_prev(ps, dev, sync) == j,
    decreases j,
{
    if j > 0 {
        lemma_find_prev_at(ps.drop_first(), dev, sync, j - 1);
    }
}

proof fn lemma_find_prev_none(ps: Seq<PrevV>, dev: Seq<char>, sync: Seq<char>)
    requires
        forall|k: int|
            0 <= k < ps.len() ==> !((#[trigger] ps[k]).device_id == dev && ps[k].sync_id == sync),
    ensures
        find_prev(ps, dev, sync) == -1,
    decreases ps.len(),
{
    if ps.len() > 0 {
        lemma_find_prev_none(ps.drop_first(), dev, sync);
    }
}

proof fn lemma_find_dir_at(ds: Seq<DirV>, dev: Seq<char>, sync: Seq<char>, j: int)
    requires
        0 <= j < ds.len(),
        ds[j].device_id == dev && ds[j].sync_id == sync,
        forall|k: int| 0 <= k < j ==> !((#[trigger] ds[k]).device_id == dev && ds[k].sync_id == sync),
    ensures
        find_dir(ds, dev, sync) == j,
    decreases j,
{
    if j > 0 {
        lemma_find_dir_at(ds.drop_first(), dev, sync, j - 1);
    }
}

proof fn lemma_find_dir_none(ds: Seq<DirV>, dev: Seq<char>, sync: Seq<char>)
    requires
        forall|k: int|
            0 <= k < ds.len() ==> !((#[trigger] ds[k]).device_id == dev && ds[k].sync_id == sync),
    ensures
        find_dir(ds, dev, sync) == -1,
    decreases ds.len(),
{
    if ds.len() > 0 {
        lemma_find_dir_none(ds.drop_first(), dev, sync);
    }
}

proof fn lemma_find_chunk_at(cs: Seq<ChunkV>, head: u64, j: int)
    requires
        0 <= j < cs.len(),
        cs[j].head == head,
        forall|k: int| 0 <= k < j ==> (#[trigger] cs[k]).head != head,
    ensures
        find_chunk(cs, head) == j,
    decreases j,
{
    if j > 0 {
        lemma_find_chunk_at(cs.drop_first(), head, j - 1);
    }
}

proof fn lemma_find_chunk_none(cs: Seq<ChunkV>, head: u64)
    requires
        forall|k: int| 0 <= k < cs.len() ==> (#[trigger] cs[k]).head != head,
    ensures
        find_chunk(cs, head) == -1,
    decreases cs.len(),
{
    if cs.len() > 0 {
        lemma_find_chunk_none(cs.drop_first(), head);
    }
}

proof fn lemma_find_prev_props(ps: Seq<PrevV>, dev: Seq<char>, sync: Seq<char>)
    ensures
        find_prev(ps, dev, sync) >= 0 ==> 0 <= find_prev(ps, dev, sync) < ps.len()
            && ps[find_prev(ps, dev, sync)].device_id == dev && ps[find_prev(
            ps,
            dev,
            sync,
        )].sync_id == sync,
    decreases ps.len(),
{
    if ps.len() > 0 {
        lemma_find_prev_props(ps.drop_first(), dev, sync);
    }
}

proof fn lemma_find_dir_props(ds: Seq<DirV>, dev: Seq<char>, sync: Seq<char>)
    ensures
        find_dir(ds, dev, sync) >= 0 ==> 0 <= find_dir(ds, dev, sync) < ds.len()
            && ds[find_dir(ds, dev, sync)].device_id == dev && ds[find_dir(
            ds,
            dev,
            sync,
        )].sync_id == sync,
    decreases ds.len(),
{
    if ds.len() > 0 {
        lemma_find_dir_props(ds.drop_first(), dev, sync);
    }
}

proof fn lemma_find_chunk_props(cs: Seq<ChunkV>, head: u64)
    ensures
        find_chunk(cs, head) >= 0 ==> 0 <= find_chunk(cs, head) < cs.len() && cs[find_chunk(
            cs,
            head,
        )].head == head,
    decreases cs.len(),
{
    if cs.len() > 0 {
        lemma_find_chunk_props(cs.drop_first(), head);
    }
}

// ---------------------------------------------------------------------------
// Well-formedness and the write transition.
// ---------------------------------------------------------------------------

/// Well-formedness of the sink: every chunk directory holds at least one
/// chunk, and every tracking entry points at an existing chunk of an
/// existing directory of its key.
pub open spec fn sink_wf(s: SinkV) -> bool {
    &&& forall|k: int| 0 <= k < s.dirs.len() ==> (#[trigger] s.dirs[k]).chunks.len() >= 1
    &&& forall|k: int, l: int|
        0 <= k < s.dirs.len() && 0 <= l < s.dirs[k].chunks.len() ==> (#[trigger] s.dirs[k].chunks[l]).records.len() >= 1
    &&& forall|k: int|
        0 <= k < s.previous.len() ==> {
            let p = #[trigger] s.previous[k];
            let dj = find_dir(s.dirs, p.device_id, p.sync_id);
            &&& dj >= 0
            &&& find_chunk(s.dirs[dj].chunks, p.prev.head) >= 0
        }
}

/// The tracked range after a write: start of the chunk's first batch,
/// through the end of the batch just written.
pub open spec fn upsert_prev(
    ps: Seq<PrevV>,
    dev: Seq<char>,
    sync: Seq<char>,
    prev: Previous,
) -> Seq<PrevV> {
    let pj = find_prev(ps, dev, sync);
    if pj >= 0 {
        ps.update(pj, PrevV { device_id: dev, sync_id: sync, prev })
    } else {
        ps.push(PrevV { device_id: dev, sync_id: sync, prev })
    }
}

/// What one write does. An empty batch changes nothing (and is refused); a
/// batch consecutive with the tracked range appends to the tracked chunk; a
/// gap, or an untracked key, opens a chunk named after the batch's first
/// record number, unless that name is taken, in which case the batch is
/// dropped.
pub open spec fn write_spec(s: SinkV, r: ReceivedRecordsV) -> SinkV {
    if r.records.len() == 0 {
        s
    } else {
        let start = r.records[0].number;
        let end = r.records.last().number;
        let pj = find_prev(s.previous, r.device_id, r.sync_id);
        if pj >= 0 && s.previous[pj].prev.end < u64::MAX && start == s.previous[pj].prev.end + 1
            && find_dir(s.dirs, r.device_id, r.sync_id) >= 0 && find_chunk(
            s.dirs[find_dir(s.dirs, r.device_id, r.sync_id)].chunks,
            s.previous[pj].prev.head,
        ) >= 0 {
            let dj = find_dir(s.dirs, r.device_id, r.sync_id);
            let cj = find_chunk(s.dirs[dj].chunks, s.previous[pj].prev.head);
            let chunk = s.dirs[dj].chunks[cj];
            let dir = DirV {
                chunks: s.dirs[dj].chunks.update(
                    cj,
                    ChunkV { records: chunk.records + payloads(r.records), ..chunk },
                ),
                ..s.dirs[dj]
            };
            SinkV {
                dirs: s.dirs.update(dj, dir),
                previous: s.previous.update(
                    pj,
                    PrevV {
                        prev: Previous { end, ..s.previous[pj].prev },
                        ..s.previous[pj]
                    },
                ),
                ..s
            }
        } else {
            let dj = find_dir(s.dirs, r.device_id, r.sync_id);
            if dj < 0 {
                let dir = DirV {
                    device_id: r.device_id,
                    sync_id: r.sync_id,
                    chunks: seq![ChunkV { head: start, records: payloads(r.records) }],
                };
                SinkV {
                    dirs: s.dirs.push(dir),
                    previous: upsert_prev(
                        s.previous,
                        r.device_id,
                        r.sync_id,
                        Previous { head: start, start, end },
                    ),
                    ..s
                }
            } else if find_chunk(s.dirs[dj].chunks, start) >= 0 {
                s
            } else {
                let dir = DirV {
                    chunks: s.dirs[dj].chunks.push(
                        ChunkV { head: start, records: payloads(r.records) },
                    ),
                    ..s.dirs[dj]
                };
                SinkV {
                    dirs: s.dirs.update(dj, dir),
                    previous: upsert_prev(
                        s.previous,
                        r.device_id,
                        r.sync_id,
                        Previous { head: start, start, end },
                    ),
                    ..s
                }
            }
        }
    }
}

// ---------------------------------------------------------------------------
// The flush transition.
// ---------------------------------------------------------------------------

/// Chunk order at flush time: ascending by name.
pub open spec fn chunk_leq(a: ChunkV, b: ChunkV) -> bool {
    a.head <= b.head
}

/// Insertion of a chunk behind every chunk with a name not above its own.
pub open spec fn insert_chunk_sorted(s: Seq<ChunkV>, c: ChunkV) -> Seq<ChunkV>
    decreases s.len(),
{
    if s.len() == 0 {
        seq![c]
    } else if chunk_leq(s[0], c) {
        seq![s[0]] + insert_chunk_sorted(s.drop_first(), c)
    } else {
        seq![c] + s
    }
}

/// Insertion sort of chunks by name.
pub open spec fn sort_chunks(s: Seq<ChunkV>) -> Seq<ChunkV>
    decreases s.len(),
{
    if s.len() == 0 {
        Seq::empty()
    } else {
        insert_chunk_sorted(sort_chunks(s.drop_last()), s.last())
    }
}

proof fn lemma_insert_chunk_sorted_at(s: Seq<ChunkV>, c: ChunkV, p: int)
    requires
        0 <= p <= s.len(),
        forall|k: int| 0 <= k < p ==> chunk_leq(#[trigger] s[k], c),
        p < s.len() ==> !chunk_leq(s[p], c),
    ensures
        insert_chunk_sorted(s, c) =~= s.insert(p, c),
    decreases s.len(),
{
    if p == 0 {
        if s.len() == 0 {
            assert(insert_chunk_sorted(s, c) =~= s.insert(0, c));
        } else {
            assert(insert_chunk_sorted(s, c) =~= s.insert(0, c));
        }
    } else {
        assert(chunk_leq(s[0], c));
        assert(forall|k: int|
            0 <= k < p - 1 ==> s.drop_first()[k] == s[k + 1] && chunk_leq(
                #[trigger] s.drop_first()[k],
                c,
            ));
        lemma_insert_chunk_sorted_at(s.drop_first(), c, p - 1);
        assert(seq![s[0]] + s.drop_first().insert(p - 1, c) =~= s.insert(p, c));
    }
}

proof fn lemma_insert_chunk_sorted_props(s: Seq<ChunkV>, c: ChunkV)
    ensures
        insert_chunk_sorted(s, c).len() == s.len() + 1,
        (forall|k: int, l: int| 0 <= k < l < s.len() ==> chunk_leq(s[k], s[l])) ==> (forall|
            k: int,
            l: int,
        |
            0 <= k < l < insert_chunk_sorted(s, c).len() ==> chunk_leq(
                insert_chunk_sorted(s, c)[k],
                insert_chunk_sorted(s, c)[l],
            )),
        s.len() > 0 ==> insert_chunk_sorted(s, c)[0].head == if s[0].head <= c.head {
            s[0].head
        } else {
            c.head
        },
        s.len() == 0 ==> insert_chunk_sorted(s, c)[0] == c,
        forall|k: int|
            0 <= k < insert_chunk_sorted(s, c).len() ==> (s.contains(
                #[trigger] insert_chunk_sorted(s, c)[k],
            ) || insert_chunk_sorted(s, c)[k] == c),
    decreases s.len(),
{
    let t = insert_chunk_sorted(s, c);
    if s.len() == 0 {
    } else if chunk_leq(s[0], c) {
        lemma_insert_chunk_sorted_props(s.drop_first(), c);
        let t1 = insert_chunk_sorted(s.drop_first(), c);
        assert(t =~= seq![s[0]] + t1);
        if forall|k: int, l: int| 0 <= k < l < s.len() ==> chunk_leq(s[k], s[l]) {
            assert(forall|k: int, l: int|
                0 <= k < l < s.drop_first().len() ==> chunk_leq(
                    #[trigger] s.drop_first()[k],
                    #[trigger] s.drop_first()[l],
                ));
            assert forall|k: int, l: int| 0 <= k < l < t.len() implies chunk_leq(
                t[k],
                t[l],
            ) by {
                if k == 0 {
                    if t1.len() > 0 && s.drop_first().len() > 0 {
                    }
                    if s.drop_first().len() == 0 {
                        assert(t[l] == c);
                    } else {
                        assert(t[l] == t1[l - 1]);
                        if s.drop_first().contains(t1[l - 1]) {
                            let w = choose|w: int|
                                0 <= w < s.drop_first().len() && s.drop_first()[w] == t1[l - 1];
                            assert(s[w + 1] == t1[l - 1]);
                            assert(chunk_leq(s[0], s[w + 1]));
                        } else {
                            assert(t1[l - 1] == c);
                        }
                    }
                } else {
                    assert(t[k] == t1[k - 1]);
                    assert(t[l] == t1[l - 1]);
                }
            }
        }
        assert forall|k: int| 0 <= k < t.len() implies (s.contains(#[trigger] t[k]) || t[k]
            == c) by {
            if k == 0 {
                assert(s[0] == t[0]);
            } else {
                assert(t[k] == t1[k - 1]);
                if s.drop_first().contains(t1[k - 1]) {
                    let w = choose|w: int|
                        0 <= w < s.drop_first().len() && s.drop_first()[w] == t1[k - 1];
                    assert(s[w + 1] == t1[k - 1]);
                }
            }
        }
    } else {
        assert(t =~= seq![c] + s);
        assert forall|k: int| 0 <= k < t.len() implies (s.contains(#[trigger] t[k]) || t[k]
            == c) by {
            if k > 0 {
                assert(t[k] == s[k - 1]);
            }
        }
        if forall|k: int, l: int| 0 <= k < l < s.len() ==> chunk_leq(s[k], s[l]) {
            assert forall|k: int, l: int| 0 <= k < l < t.len() implies chunk_leq(
                t[k],
                t[l],
            ) by {
                if k == 0 {
                    assert(t[l] == s[l - 1]);
                    assert(!chunk_leq(s[0], c));
                    if l - 1 > 0 {
                        assert(chunk_leq(s[0], s[l - 1]));
                    }
                }
            }
        }
    }
}

/// Sorting keeps the chunk count, orders names ascending, leaves the first
/// chunk's name at the minimum, and invents no chunk.
proof fn lemma_sort_chunks_props(cs: Seq<ChunkV>)
    ensures
        sort_chunks(cs).len() == cs.len(),
        forall|k: int, l: int|
            0 <= k < l < cs.len() ==> chunk_leq(sort_chunks(cs)[k], sort_chunks(cs)[l]),
        forall|k: int| 0 <= k < cs.len() ==> sort_chunks(cs)[0].head <= (#[trigger] cs[k]).head,
        forall|k: int|
            0 <= k < cs.len() ==> cs.contains(#[trigger] sort_chunks(cs)[k]),
    decreases cs.len(),
{
    if cs.len() > 0 {
        lemma_sort_chunks_props(cs.drop_last());
        let s1 = sort_chunks(cs.drop_last());
        lemma_insert_chunk_sorted_props(s1, cs.last());
        let t = sort_chunks(cs);
        assert forall|k: int| 0 <= k < cs.len() implies t[0].head <= (#[trigger] cs[k]).head by {
            if s1.len() == 0 {
                assert(cs.len() == 1);
                assert(cs[k] == cs.last());
            } else {
                if k < cs.len() - 1 {
                    assert(cs.drop_last()[k] == cs[k]);
                    assert(s1[0].head <= cs.drop_last()[k].head);
                } else {
                    assert(cs[k] == cs.last());
                }
            }
        }
        assert forall|k: int| 0 <= k < cs.len() implies cs.contains(#[trigger] t[k]) by {
            if s1.contains(t[k]) {
                let w = choose|w: int| 0 <= w < s1.len() && s1[w] == t[k];
                assert(cs.drop_last().contains(s1[w]));
                let v = choose|v: int|
                    0 <= v < cs.drop_last().len() && cs.drop_last()[v] == s1[w];
                assert(cs[v] == t[k]);
            } else {
                assert(t[k] == cs.last());
                assert(cs[cs.len() - 1] == cs.last());
            }
        }
    }
}

/// The records a flush emits, walking sorted chunks and keeping a running
/// count of records already written: a chunk starting past the written
/// range halts the merge; otherwise the records the written range already
/// covers are skipped and the rest are emitted.
pub open spec fn join_rec(chunks: Seq<ChunkV>, head0: int, acc: Seq<Seq<u8>>) -> Seq<Seq<u8>>
    decreases chunks.len(),
{
    if chunks.len() == 0 {
        acc
    } else if chunks[0].head > head0 + acc.len() {
        acc
    } else {
        let skip = head0 + acc.len() - chunks[0].head;
        let emitted = if skip >= chunks[0].records.len() {
            Seq::<Seq<u8>>::empty()
        } else {
            chunks[0].records.skip(skip)
        };
        join_rec(chunks.drop_first(), head0, acc + emitted)
    }
}

/// The headers a manifest carries: the station identity, the inclusive
/// record range as `"<head>,<tail>"`, and the data type mark.
pub open spec fn flush_headers(
    dev_text: Seq<char>,
    gen: Seq<char>,
    name: Seq<char>,
    head0: u64,
    tail: u64,
) -> Seq<(Seq<char>, Seq<char>)> {
    seq![
        ("Fk-DeviceId"@, dev_text),
        ("Fk-Generation"@, gen),
        ("Fk-DeviceName"@, name),
        ("Fk-Blocks"@, dec_str(head0) + seq![','] + dec_str(tail)),
        ("Fk-Type"@, "data"@),
    ]
}

/// The manifest a flush writes.
pub open spec fn flush_meta(
    dev: Seq<char>,
    sync: Seq<char>,
    gen: Seq<char>,
    name: Seq<char>,
    head0: u64,
    tail: u64,
) -> FileMetaV {
    FileMetaV {
        sync_id: sync,
        device_id: dev,
        generation_id: Some(gen),
        head: head0 as i64,
        tail: tail as i64,
        data_name: sync + ".fkpb"@,
        headers: flush_headers(dev, gen, name, head0, tail),
        uploaded: None,
    }
}

/// The first archive of a key, or -1.
pub open spec fn find_archive(arcs: Seq<ArchiveV>, dev: Seq<char>, sync: Seq<char>) -> int
    decreases arcs.len(),
{
    if arcs.len() == 0 {
        -1
    } else if arcs[0].device_id == dev && arcs[0].sync_id == sync {
        0
    } else {
        let r = find_archive(arcs.drop_first(), dev, sync);
        if r < 0 {
            -1
        } else {
            r + 1
        }
    }
}

proof fn lemma_find_archive_at(arcs: Seq<ArchiveV>, dev: Seq<char>, sync: Seq<char>, j: int)
    requires
        0 <= j < arcs.len(),
        arcs[j].device_id == dev && arcs[j].sync_id == sync,
        forall|k: int|
            0 <= k < j ==> !((#[trigger] arcs[k]).device_id == dev && arcs[k].sync_id == sync),
    ensures
        find_archive(arcs, dev, sync) == j,
    decreases j,
{
    if j > 0 {
        lemma_find_archive_at(arcs.drop_first(), dev, sync, j - 1);
    }
}

proof fn lemma_find_archive_none(arcs: Seq<ArchiveV>, dev: Seq<char>, sync: Seq<char>)
    requires
        forall|k: int|
            0 <= k < arcs.len() ==> !((#[trigger] arcs[k]).device_id == dev && arcs[k].sync_id
                == sync),
    ensures
        find_archive(arcs, dev, sync) == -1,
    decreases arcs.len(),
{
    if arcs.len() > 0 {
        lemma_find_archive_none(arcs.drop_first(), dev, sync);
    }
}

/// A freshly flushed archive replaces the one of its key, or joins the
/// list.
pub open spec fn upsert_archive(arcs: Seq<ArchiveV>, a: ArchiveV) -> Seq<ArchiveV> {
    let j = find_archive(arcs, a.device_id, a.sync_id);
    if j >= 0 {
        arcs.update(j, a)
    } else {
        arcs.push(a)
    }
}

/// Whether a flush of this key succeeds: its directory exists and holds
/// records, the merge emits at least one record, and the achieved range
/// fits the manifest's signed fields.
pub open spec fn flush_ok(s: SinkV, dev: Seq<char>, sync: Seq<char>) -> bool {
    let dj = find_dir(s.dirs, dev, sync);
    &&& dj >= 0
    &&& s.dirs[dj].chunks.len() >= 1
    &&& ({
        let sorted = sort_chunks(s.dirs[dj].chunks);
        let head0 = sorted[0].head;
        let total = join_rec(sorted, head0 as int, Seq::empty()).len();
        &&& total >= 1
        &&& head0 + total <= i64::MAX + 1
    })
}

/// What a successful flush reports.
pub open spec fn flush_result(s: SinkV, dev: Seq<char>, sync: Seq<char>) -> Flushed {
    let dj = find_dir(s.dirs, dev, sync);
    let sorted = sort_chunks(s.dirs[dj].chunks);
    let head0 = sorted[0].head;
    let total = join_rec(sorted, head0 as int, Seq::empty()).len();
    Flushed { head_record: head0, total_records: total as u64 }
}

/// The sink after a successful flush: the merged archive and its manifest
/// stored under the key; chunks stay as they are.
pub open spec fn flush_spec(
    s: SinkV,
    dev: Seq<char>,
    sync: Seq<char>,
    gen: Seq<char>,
    name: Seq<char>,
) -> SinkV {
    let dj = find_dir(s.dirs, dev, sync);
    let sorted = sort_chunks(s.dirs[dj].chunks);
    let head0 = sorted[0].head;
    let recs = join_rec(sorted, head0 as int, Seq::empty());
    let tail = (head0 + recs.len() - 1) as u64;
    SinkV {
        archives: upsert_archive(
            s.archives,
            ArchiveV {
                device_id: dev,
                sync_id: sync,
                records: recs,
                meta: flush_meta(dev, sync, gen, name, head0, tail),
            },
        ),
        ..s
    }
}

/// The path of a manifest file under the sink's root.
pub open spec fn archive_path(base: Seq<char>, dev: Seq<char>, sync: Seq<char>) -> Seq<char> {
    base + "/"@ + dev + "/"@ + sync + ".fkpb.json"@
}

// ---------------------------------------------------------------------------
// The operations.
// ---------------------------------------------------------------------------

/// Copy of a record list, element for element.
fn clone_payloads(v: &Vec<Vec<u8>>) -> (r: Vec<Vec<u8>>)
    ensures
        Seq::new(r@.len(), |i: int| r@[i]@) == Seq::new(v@.len(), |i: int| v@[i]@),
{
    let mut r: Vec<Vec<u8>> = Vec::new();
    let mut i: usize = 0;
    while i < v.len()
        invariant
            i <= v.len(),
            r@.len() == i,
            forall|k: int| 0 <= k < i ==> r@[k]@ == v@[k]@,
        decreases v.len() - i,
    {
        r.push(clone_bytes(&v[i]));
        i = i + 1;
    }
    proof {
        assert(Seq::new(r@.len(), |i: int| r@[i]@) =~= Seq::new(v@.len(), |i: int| v@[i]@));
    }
    r
}

/// The batch's raw bytes, copied out in order.
fn collect_payloads(records: &Vec<NumberedRecord>) -> (r: Vec<Vec<u8>>)
    ensures
        Seq::new(r@.len(), |i: int| r@[i]@) == payloads(
            Seq::new(records@.len(), |i: int| records@[i]@),
        ),
{
    let mut r: Vec<Vec<u8>> = Vec::new();
    let mut i: usize = 0;
    while i < records.len()
        invariant
            i <= records.len(),
            r@.len() == i,
            forall|k: int| 0 <= k < i ==> r@[k]@ == records@[k]@.record,
        decreases records.len() - i,
    {
        r.push(clone_bytes(&records[i].record));
        i = i + 1;
    }
    proof {
        assert(Seq::new(r@.len(), |i: int| r@[i]@) =~= payloads(
            Seq::new(records@.len(), |i: int| records@[i]@),
        ));
    }
    r
}

impl Clone for ChunkFile {
    fn clone(&self) -> (r: ChunkFile)
        ensures
            r@ == self@,
    {
        let r = ChunkFile { head: self.head, records: clone_payloads(&self.records) };
        proof {
            assert(r@ =~= self@);
        }
        r
    }
}

impl FilesRecordSink {
    /// Well-formedness of this sink; every operation preserves it.
    pub open spec fn wf(&self) -> bool {
        sink_wf(self@)
    }

    /// A sink with nothing received yet, rooted at the given path.
    pub fn new(base_path: &str) -> (r: FilesRecordSink)
        ensures
            r@ == (SinkV {
                base_path: base_path@,
                dirs: Seq::empty(),
                archives: Seq::empty(),
                previous: Seq::empty(),
            }),
            r.wf(),
    {
        let r = FilesRecordSink {
            base_path: base_path.to_owned(),
            dirs: Vec::new(),
            archives: Vec::new(),
            previous: Vec::new(),
        };
        proof {
            assert(r@ =~= (SinkV {
                base_path: base_path@,
                dirs: Seq::empty(),
                archives: Seq::empty(),
                previous: Seq::empty(),
            }));
        }
        r
    }

    /// The first tracking entry of a key.
    fn find_prev_exec(&self, dev: &DeviceId, sync: &String) -> (r: Option<usize>)
        ensures
            match r {
                Some(j) => j == find_prev(self@.previous, dev@, sync@) && j < self@.previous.len(),
                None => find_prev(self@.previous, dev@, sync@) == -1,
            },
    {
        let ghost rows = self@.previous;
        let mut j: usize = 0;
        while j < self.previous.len()
            invariant
                j <= self.previous.len(),
                rows == self@.previous,
                forall|k: int|
                    0 <= k < j ==> !((#[trigger] rows[k]).device_id == dev@ && rows[k].sync_id
                        == sync@),
            decreases self.previous.len() - j,
        {
            proof {
                assert(rows[j as int] == self.previous@[j as int]@);
            }
            if self.previous[j].device_id == *dev && self.previous[j].sync_id == *sync {
                proof {
                    lemma_find_prev_at(rows, dev@, sync@, j as int);
                }
                return Some(j);
            }
            j = j + 1;
        }
        proof {
            lemma_find_prev_none(rows, dev@, sync@);
        }
        None
    }

    /// The first chunk directory of a key.
    fn find_dir_exec(&self, dev: &DeviceId, sync: &String) -> (r: Option<usize>)
        ensures
            match r {
                Some(j) => j == find_dir(self@.dirs, dev@, sync@) && j < self@.dirs.len(),
                None => find_dir(self@.dirs, dev@, sync@) == -1,
            },
    {
        let ghost rows = self@.dirs;
        let mut j: usize = 0;
        while j < self.dirs.len()
            invariant
                j <= self.dirs.len(),
                rows == self@.dirs,
                forall|k: int|
                    0 <= k < j ==> !((#[trigger] rows[k]).device_id == dev@ && rows[k].sync_id
                        == sync@),
            decreases self.dirs.len() - j,
        {
            proof {
                assert(rows[j as int] == self.dirs@[j as int]@);
            }
            if self.dirs[j].device_id == *dev && self.dirs[j].sync_id == *sync {
                proof {
                    lemma_find_dir_at(rows, dev@, sync@, j as int);
                }
                return Some(j);
            }
            j = j + 1;
        }
        proof {
            lemma_find_dir_none(rows, dev@, sync@);
        }
        None
    }

    /// The first chunk with the given name inside one directory.
    fn find_chunk_exec(chunks: &Vec<ChunkFile>, head: u64) -> (r: Option<usize>)
        ensures
            match r {
                Some(j) => j == find_chunk(Seq::new(chunks@.len(), |i: int| chunks@[i]@), head)
                    && j < chunks@.len(),
                None => find_chunk(Seq::new(chunks@.len(), |i: int| chunks@[i]@), head) == -1,
            },
    {
        let ghost rows = Seq::new(chunks@.len(), |i: int| chunks@[i]@);
        let mut j: usize = 0;
        while j < chunks.len()
            invariant
                j <= chunks.len(),
                rows == Seq::new(chunks@.len(), |i: int| chunks@[i]@),
                forall|k: int| 0 <= k < j ==> (#[trigger] rows[k]).head != head,
            decreases chunks.len() - j,
        {
            proof {
                assert(rows[j as int] == chunks@[j as int]@);
            }
            if chunks[j].head == head {
                proof {
                    lemma_find_chunk_at(rows, head, j as int);
                }
                return Some(j);
            }
            j = j + 1;
        }
        proof {
            lemma_find_chunk_none(rows, head);
        }
        None
    }

    /// Track the range just written for a key.
    fn upsert_prev_exec(&mut self, dev: &DeviceId, sync: &String, prev: Previous)
        ensures
            final(self)@ == (SinkV {
                previous: upsert_prev(old(self)@.previous, dev@, sync@, prev),
                ..old(self)@
            }),
    {
        let ghost rows = self@.previous;
        match self.find_prev_exec(dev, sync) {
            Some(pj) => {
                let entry = PrevEntry {
                    device_id: dev.clone(),
                    sync_id: sync.clone(),
                    prev,
                };
                self.previous[pj] = entry;
                proof {
                    let target = upsert_prev(rows, dev@, sync@, prev);
                    assert(self@.previous[pj as int] == target[pj as int]);
                    assert forall|k: int| 0 <= k < rows.len() && k != pj implies self@.previous[k]
                        == target[k] by {
                        assert(self.previous@[k] == old(self).previous@[k]);
                    }
                    assert(self@.previous =~= target);
                    assert(self@ =~= (SinkV {
                        previous: upsert_prev(old(self)@.previous, dev@, sync@, prev),
                        ..old(self)@
                    }));
                }
            },
            None => {
                let entry = PrevEntry {
                    device_id: dev.clone(),
                    sync_id: sync.clone(),
                    prev,
                };
                let ghost pre = self@.previous;
                self.previous.push(entry);
                proof {
                    assert(self@.previous =~= pre.push(
                        PrevV { device_id: dev@, sync_id: sync@, prev },
                    ));
                    assert(self@ =~= (SinkV {
                        previous: upsert_prev(old(self)@.previous, dev@, sync@, prev),
                        ..old(self)@
                    }));
                }
            },
        }
    }

    /// Ingest one batch. A batch consecutive with the tracked range appends
    /// to the tracked chunk; a gap, or a key seen for the first time, opens
    /// a chunk named after the batch's first record number; a batch whose
    /// chunk name is already taken is dropped. Only an empty batch fails.
    pub fn write(&mut self, records: &ReceivedRecords) -> (r: Result<(), SinkError>)
        ensures
            final(self)@ == write_spec(old(self)@, records@),
            (r is Ok) <==> records@.records.len() > 0,
            (r is Err ==> r == Err::<(), SinkError>(SinkError::EmptyBatch)),
    {
        if records.records.len() == 0 {
            return Err(SinkError::EmptyBatch);
        }
        let start = records.records[0].number;
        let end = records.records[records.records.len() - 1].number;
        proof {
            assert(records@.records[0] == records.records@[0]@);
            assert(records@.records.last() == records.records@[records.records@.len() - 1]@);
        }
        let ghost s0 = self@;
        let pj_opt = self.find_prev_exec(&records.device_id, &records.sync_id);
        let consecutive = match pj_opt {
            Some(pj) => {
                proof {
                    assert(self@.previous[pj as int] == self.previous@[pj as int]@);
                }
                self.previous[pj].prev.end < u64::MAX && start == self.previous[pj].prev.end + 1
            },
            None => false,
        };
        if consecutive {
            let pj = match pj_opt {
                Some(pj) => pj,
                None => {
                    proof {
                        assert(false);
                    }
                    return Err(SinkError::EmptyBatch);
                },
            };
            let head = self.previous[pj].prev.head;
            let old_start = self.previous[pj].prev.start;
            let dj_opt = self.find_dir_exec(&records.device_id, &records.sync_id);
            if let Some(dj) = dj_opt {
                let cj_opt = Self::find_chunk_exec(&self.dirs[dj].chunks, head);
                proof {
                    assert(s0.dirs[dj as int] == self.dirs@[dj as int]@);
                }
                if let Some(cj) = cj_opt {
                    proof {
                        assert(s0.dirs[dj as int].chunks[cj as int]
                            == self.dirs@[dj as int].chunks@[cj as int]@);
                    }
                    // Append the batch's bytes to the tracked chunk: rebuild
                    // the chunk's record list, then put the grown chunk back.
                    let ghost chunk0 = s0.dirs[dj as int].chunks[cj as int];
                    let mut newrecs = clone_payloads(&self.dirs[dj].chunks[cj].records);
                    proof {
                        assert(Seq::new(newrecs@.len(), |k: int| newrecs@[k]@) =~= chunk0.records);
                        assert(payloads(records@.records.take(0)) =~= Seq::<Seq<u8>>::empty());
                        assert(Seq::new(newrecs@.len(), |k: int| newrecs@[k]@) =~= chunk0.records
                            + payloads(records@.records.take(0)));
                    }
                    let mut i: usize = 0;
                    while i < records.records.len()
                        invariant
                            i <= records.records.len(),
                            Seq::new(newrecs@.len(), |k: int| newrecs@[k]@) =~= chunk0.records
                                + payloads(records@.records.take(i as int)),
                        decreases records.records.len() - i,
                    {
                        proof {
                            assert(records@.records[i as int] == records.records@[i as int]@);
                        }
                        let ghost pre = Seq::new(newrecs@.len(), |k: int| newrecs@[k]@);
                        newrecs.push(clone_bytes(&records.records[i].record));
                        proof {
                            assert(Seq::new(newrecs@.len(), |k: int| newrecs@[k]@) =~= pre.push(
                                records@.records[i as int].record,
                            ));
                            assert(payloads(records@.records.take(i as int + 1)) =~= payloads(
                                records@.records.take(i as int),
                            ).push(records@.records[i as int].record));
                            assert(Seq::new(newrecs@.len(), |k: int| newrecs@[k]@)
                                =~= chunk0.records + payloads(records@.records.take(i as int + 1)));
                        }
                        i = i + 1;
                    }
                    proof {
                        assert(records@.records.take(records@.records.len() as int)
                            =~= records@.records);
                    }
                    let grown = ChunkFile { head, records: newrecs };
                    proof {
                        lemma_find_chunk_props(s0.dirs[dj as int].chunks, head);
                        assert(chunk0.head == head);
                        assert(grown@ =~= (ChunkV {
                            records: chunk0.records + payloads(records@.records),
                            ..chunk0
                        }));
                    }
                    // Rebuild the chunk list with the grown chunk in place.
                    let mut new_chunks: Vec<ChunkFile> = Vec::new();
                    let mut q: usize = 0;
                    while q < self.dirs[dj].chunks.len()
                        invariant
                            q <= self.dirs@[dj as int].chunks@.len(),
                            *self == *old(self),
                            dj < self.dirs@.len(),
                            s0 == old(self)@,
                            new_chunks@.len() == q,
                            forall|k: int|
                                0 <= k < q ==> (#[trigger] new_chunks@[k])@
                                    == s0.dirs[dj as int].chunks[k],
                        decreases self.dirs@[dj as int].chunks@.len() - q,
                    {
                        proof {
                            assert(s0.dirs[dj as int] == self.dirs@[dj as int]@);
                            assert(s0.dirs[dj as int].chunks[q as int]
                                == self.dirs@[dj as int].chunks@[q as int]@);
                        }
                        new_chunks.push(self.dirs[dj].chunks[q].clone());
                        q = q + 1;
                    }
                    proof {
                        assert(s0.dirs[dj as int] == self.dirs@[dj as int]@);
                    }
                    new_chunks[cj] = grown;
                    let dir = SyncDir {
                        device_id: records.device_id.clone(),
                        sync_id: records.sync_id.clone(),
                        chunks: new_chunks,
                    };
                    proof {
                        lemma_find_dir_props(s0.dirs, records@.device_id, records@.sync_id);
                        assert(Seq::new(dir.chunks@.len(), |k: int| dir.chunks@[k]@)
                            =~= s0.dirs[dj as int].chunks.update(
                            cj as int,
                            ChunkV {
                                records: chunk0.records + payloads(records@.records),
                                ..chunk0
                            },
                        ));
                        assert(dir@ =~= (DirV {
                            chunks: s0.dirs[dj as int].chunks.update(
                                cj as int,
                                ChunkV {
                                    records: chunk0.records + payloads(records@.records),
                                    ..chunk0
                                },
                            ),
                            ..s0.dirs[dj as int]
                        }));
                    }
                    self.dirs[dj] = dir;
                    let ghost dirs1 = self@.dirs;
                    proof {
                        assert(self@.dirs[dj as int] == self.dirs@[dj as int]@);
                        assert forall|k: int| 0 <= k < s0.dirs.len() && k != dj implies self@.dirs[k]
                            == s0.dirs[k] by {
                            assert(self.dirs@[k] == old(self).dirs@[k]);
                        }
                        assert(dirs1 =~= s0.dirs.update(
                            dj as int,
                            DirV {
                                chunks: s0.dirs[dj as int].chunks.update(
                                    cj as int,
                                    ChunkV {
                                        records: chunk0.records + payloads(records@.records),
                                        ..chunk0
                                    },
                                ),
                                ..s0.dirs[dj as int]
                            },
                        ));
                    }
                    let entry = PrevEntry {
                        device_id: records.device_id.clone(),
                        sync_id: records.sync_id.clone(),
                        prev: Previous { head, start: old_start, end },
                    };
                    self.previous[pj] = entry;
                    proof {
                        lemma_find_prev_props(s0.previous, records@.device_id, records@.sync_id);
                        assert(records@.records.take(records@.records.len() as int)
                            =~= records@.records);
                        let target = write_spec(s0, records@);
                        assert(self@.previous.len() == s0.previous.len());
                        assert(self@.previous[pj as int] == target.previous[pj as int]);
                        assert forall|k: int|
                            0 <= k < s0.previous.len() && k != pj implies self@.previous[k]
                            == target.previous[k] by {
                            assert(self.previous@[k] == old(self).previous@[k]);
                        }
                        assert(self@.previous =~= target.previous);
                        assert(self@.dirs == dirs1);
                        assert(dirs1 =~= target.dirs);
                        assert(self@ =~= target);
                    }
                    return Ok(());
                }
            }
        }
        // A gap, or a key without a tracked range: open a new chunk.
        match self.find_dir_exec(&records.device_id, &records.sync_id) {
            None => {
                let chunk = ChunkFile { head: start, records: collect_payloads(&records.records) };
                proof {
                    assert(chunk@ =~= (ChunkV { head: start, records: payloads(records@.records) }));
                }
                let mut chunks: Vec<ChunkFile> = Vec::new();
                chunks.push(chunk);
                proof {
                    assert(Seq::new(chunks@.len(), |k: int| chunks@[k]@) =~= seq![
                        ChunkV { head: start, records: payloads(records@.records) },
                    ]);
                }
                let dir = SyncDir {
                    device_id: records.device_id.clone(),
                    sync_id: records.sync_id.clone(),
                    chunks,
                };
                proof {
                    assert(dir@ =~= (DirV {
                        device_id: records@.device_id,
                        sync_id: records@.sync_id,
                        chunks: seq![ChunkV { head: start, records: payloads(records@.records) }],
                    }));
                }
                let ghost pre = self@;
                self.dirs.push(dir);
                proof {
                    assert(self@.dirs =~= pre.dirs.push(
                        DirV {
                            device_id: records@.device_id,
                            sync_id: records@.sync_id,
                            chunks: seq![
                                ChunkV { head: start, records: payloads(records@.records) },
                            ],
                        },
                    ));
                }
                self.upsert_prev_exec(
                    &records.device_id,
                    &records.sync_id,
                    Previous { head: start, start, end },
                );
                proof {
                    assert(self@ =~= write_spec(s0, records@));
                }
            },
            // The directory exists: a taken chunk name drops the batch.
            Some(dj) => {
                proof {
                    assert(s0.dirs[dj as int] == self.dirs@[dj as int]@);
                }
                match Self::find_chunk_exec(&self.dirs[dj].chunks, start) {
                    Some(_) => {
                        proof {
                            assert(self@ =~= write_spec(s0, records@));
                        }
                    },
                    None => {
                        let chunk = ChunkFile {
                            head: start,
                            records: collect_payloads(&records.records),
                        };
                        let ghost pre = self@;
                        self.dirs[dj].chunks.push(chunk);
                        proof {
                            assert(self@.dirs[dj as int].chunks =~= pre.dirs[dj as int].chunks.push(
                                ChunkV { head: start, records: payloads(records@.records) },
                            ));
                            assert(self@.dirs[dj as int] =~= (DirV {
                                chunks: pre.dirs[dj as int].chunks.push(
                                    ChunkV { head: start, records: payloads(records@.records) },
                                ),
                                ..pre.dirs[dj as int]
                            }));
                            assert(self@.dirs =~= pre.dirs.update(
                                dj as int,
                                DirV {
                                    chunks: pre.dirs[dj as int].chunks.push(
                                        ChunkV {
                                            head: start,
                                            records: payloads(records@.records),
                                        },
                                    ),
                                    ..pre.dirs[dj as int]
                                },
                            ));
                        }
                        self.upsert_prev_exec(
                            &records.device_id,
                            &records.sync_id,
                            Previous { head: start, start, end },
                        );
                        proof {
                            assert(self@ =~= write_spec(s0, records@));
                        }
                    },
                }
            },
        }
        Ok(())
    }

    /// Insertion sort of chunk files by name, ascending.
    fn sort_chunks_exec(v: Vec<ChunkFile>) -> (r: Vec<ChunkFile>)
        ensures
            Seq::new(r@.len(), |i: int| r@[i]@) == sort_chunks(Seq::new(v@.len(), |i: int| v@[i]@)),
    {
        let ghost vv = Seq::new(v@.len(), |i: int| v@[i]@);
        let mut out: Vec<ChunkFile> = Vec::new();
        let mut j: usize = 0;
        while j < v.len()
            invariant
                j <= v.len(),
                vv == Seq::new(v@.len(), |i: int| v@[i]@),
                Seq::new(out@.len(), |i: int| out@[i]@) =~= sort_chunks(vv.take(j as int)),
            decreases v.len() - j,
        {
            proof {
                assert(vv.take(j as int + 1).drop_last() =~= vv.take(j as int));
                assert(vv.take(j as int + 1).last() == vv[j as int]);
                assert(vv[j as int] == v@[j as int]@);
            }
            out = Self::insert_chunk_sorted_exec(out, v[j].clone());
            j = j + 1;
        }
        proof {
            assert(vv.take(vv.len() as int) =~= vv);
        }
        out
    }

    /// Insert a chunk so that insertion order follows `insert_chunk_sorted`.
    fn insert_chunk_sorted_exec(v: Vec<ChunkFile>, c: ChunkFile) -> (r: Vec<ChunkFile>)
        ensures
            Seq::new(r@.len(), |i: int| r@[i]@) == insert_chunk_sorted(
                Seq::new(v@.len(), |i: int| v@[i]@),
                c@,
            ),
    {
        let ghost cv = c@;
        let ghost before = Seq::new(v@.len(), |i: int| v@[i]@);
        let mut p: usize = 0;
        let mut done = false;
        while !done && p < v.len()
            invariant
                p <= v.len(),
                before == Seq::new(v@.len(), |i: int| v@[i]@),
                cv == c@,
                forall|k: int| 0 <= k < p ==> chunk_leq(before[k], cv),
                done ==> p < v.len() && !chunk_leq(before[p as int], cv),
            decreases v.len() - p + (if done { 0int } else { 1int }),
        {
            proof {
                assert(before[p as int] == v@[p as int]@);
            }
            if v[p].head <= c.head {
                p = p + 1;
            } else {
                done = true;
            }
        }
        proof {
            lemma_insert_chunk_sorted_at(before, cv, p as int);
        }
        let mut r = v;
        r.insert(p, c);
        proof {
            assert(Seq::new(r@.len(), |i: int| r@[i]@) =~= before.insert(p as int, cv));
        }
        r
    }

    /// The first archive of a key.
    fn find_archive_exec(&self, dev: &DeviceId, sync: &String) -> (r: Option<usize>)
        ensures
            match r {
                Some(j) => j == find_archive(self@.archives, dev@, sync@) && j
                    < self@.archives.len(),
                None => find_archive(self@.archives, dev@, sync@) == -1,
            },
    {
        let ghost rows = self@.archives;
        let mut j: usize = 0;
        while j < self.archives.len()
            invariant
                j <= self.archives.len(),
                rows == self@.archives,
                forall|k: int|
                    0 <= k < j ==> !((#[trigger] rows[k]).device_id == dev@ && rows[k].sync_id
                        == sync@),
            decreases self.archives.len() - j,
        {
            proof {
                assert(rows[j as int] == self.archives@[j as int]@);
            }
            if self.archives[j].device_id == *dev && self.archives[j].sync_id == *sync {
                proof {
                    lemma_find_archive_at(rows, dev@, sync@, j as int);
                }
                return Some(j);
            }
            j = j + 1;
        }
        proof {
            lemma_find_archive_none(rows, dev@, sync@);
        }
        None
    }

    /// Merge the chunks of one sync session into its archive and write the
    /// manifest beside it. The merged archive starts at the lowest chunk
    /// name and holds at least one record; chunks are kept as they are.
    pub fn flush(&mut self, sync_id: String, identity: Identity) -> (r: Result<Flushed, SinkError>)
        ensures
            (r is Ok) <==> flush_ok(old(self)@, identity.device_id@, sync_id@),
            (r matches Ok(f) ==> f == flush_result(old(self)@, identity.device_id@, sync_id@)
                && final(self)@ == flush_spec(
                old(self)@,
                identity.device_id@,
                sync_id@,
                identity.generation_id@,
                identity.name@,
            ) && f.total_records >= 1 && (forall|k: int|
                0 <= k < old(self)@.dirs[find_dir(
                    old(self)@.dirs,
                    identity.device_id@,
                    sync_id@,
                )].chunks.len() ==> f.head_record <= old(self)@.dirs[find_dir(
                    old(self)@.dirs,
                    identity.device_id@,
                    sync_id@,
                )].chunks[k].head)),
            (r is Err ==> final(self)@ == old(self)@),
            (r is Err ==> r == Err::<Flushed, SinkError>(SinkError::NoSuchSync) || r == Err::<
                Flushed,
                SinkError,
            >(SinkError::HeadOverflow)),
    {
        let ghost s0 = self@;
        let ghost dev = identity.device_id@;
        let ghost sync = sync_id@;
        let dj = match self.find_dir_exec(&identity.device_id, &sync_id) {
            Some(dj) => dj,
            None => {
                return Err(SinkError::NoSuchSync);
            },
        };
        proof {
            assert(s0.dirs[dj as int] == self.dirs@[dj as int]@);
        }
        if self.dirs[dj].chunks.len() == 0 {
            return Err(SinkError::NoSuchSync);
        }
        let mut chunk_copy: Vec<ChunkFile> = Vec::new();
        let mut q: usize = 0;
        while q < self.dirs[dj].chunks.len()
            invariant
                q <= self.dirs@[dj as int].chunks@.len(),
                *self == *old(self),
                s0 == old(self)@,
                dj < self.dirs@.len(),
                chunk_copy@.len() == q,
                forall|k: int|
                    0 <= k < q ==> (#[trigger] chunk_copy@[k])@ == s0.dirs[dj as int].chunks[k],
            decreases self.dirs@[dj as int].chunks@.len() - q,
        {
            proof {
                assert(s0.dirs[dj as int] == self.dirs@[dj as int]@);
                assert(s0.dirs[dj as int].chunks[q as int]
                    == self.dirs@[dj as int].chunks@[q as int]@);
            }
            chunk_copy.push(self.dirs[dj].chunks[q].clone());
            q = q + 1;
        }
        let ghost chunks0 = s0.dirs[dj as int].chunks;
        proof {
            assert(Seq::new(chunk_copy@.len(), |i: int| chunk_copy@[i]@) =~= chunks0);
            lemma_sort_chunks_props(chunks0);
        }
        let sorted = Self::sort_chunks_exec(chunk_copy);
        let ghost sortedv = sort_chunks(chunks0);
        proof {
            assert(Seq::new(sorted@.len(), |i: int| sorted@[i]@) == sortedv);
            assert(sortedv.len() == chunks0.len());
        }
        let head0 = sorted[0].head;
        proof {
            assert(sortedv[0] == sorted@[0]@);
            assert(head0 == sortedv[0].head);
        }

        // Walk the sorted chunks, keeping a running record count.
        let mut out: Vec<Vec<u8>> = Vec::new();
        let mut ci: usize = 0;
        let mut stop = false;
        proof {
            assert(Seq::new(out@.len(), |i: int| out@[i]@) =~= Seq::<Seq<u8>>::empty());
            assert(sortedv.skip(0) =~= sortedv);
        }
        while !stop && ci < sorted.len()
            invariant
                ci <= sorted.len(),
                sortedv == Seq::new(sorted@.len(), |i: int| sorted@[i]@),
                sortedv.len() > 0,
                head0 == sortedv[0].head,
                forall|k: int, l: int| 0 <= k < l < sortedv.len() ==> chunk_leq(sortedv[k], sortedv[l]),
                join_rec(sortedv.skip(ci as int), head0 as int, Seq::new(out@.len(), |i: int| out@[i]@))
                    == join_rec(sortedv, head0 as int, Seq::<Seq<u8>>::empty()),
                stop ==> join_rec(
                    sortedv.skip(ci as int),
                    head0 as int,
                    Seq::new(out@.len(), |i: int| out@[i]@),
                ) == Seq::new(out@.len(), |i: int| out@[i]@),
            decreases sorted.len() - ci + (if stop { 0int } else { 1int }),
        {
            let ghost acc0 = Seq::new(out@.len(), |i: int| out@[i]@);
            proof {
                assert(sortedv[ci as int] == sorted@[ci as int]@);
                assert(sortedv.skip(ci as int)[0] == sortedv[ci as int]);
                if ci > 0 {
                    assert(chunk_leq(sortedv[0], sortedv[ci as int]));
                }
            }
            let c = &sorted[ci];
            let written = out.len();
            let delta = c.head - head0;
            if delta > written as u64 {
                stop = true;
                proof {
                    assert(sortedv[ci as int].head > head0 as int + acc0.len());
                    assert(join_rec(sortedv.skip(ci as int), head0 as int, acc0) == acc0);
                }
            } else {
                let skip_n = written - (delta as usize);
                let ghost skip_i = head0 as int + acc0.len() - sortedv[ci as int].head;
                proof {
                    assert(skip_i == skip_n as int);
                }
                let mut t = skip_n;
                while t < c.records.len()
                    invariant
                        skip_n <= t,
                        t <= c.records@.len() || t == skip_n,
                        c@ == sortedv[ci as int],
                        ci < sortedv.len(),
                        skip_i == skip_n as int,
                        0 <= skip_i,
                        Seq::new(out@.len(), |i: int| out@[i]@) =~= acc0 + c@.records.skip(
                            skip_n as int,
                        ).take(t - skip_n as int),
                    decreases c.records@.len() - t,
                {
                    proof {
                        assert(c@.records[t as int] == c.records@[t as int]@);
                        assert(c@.records.skip(skip_n as int).take(t - skip_n as int + 1)
                            =~= c@.records.skip(skip_n as int).take(t - skip_n as int).push(
                            c@.records[t as int],
                        ));
                    }
                    let ghost pre = Seq::new(out@.len(), |i: int| out@[i]@);
                    out.push(clone_bytes(&c.records[t]));
                    proof {
                        assert(Seq::new(out@.len(), |i: int| out@[i]@) =~= pre.push(
                            c@.records[t as int],
                        ));
                    }
                    t = t + 1;
                }
                proof {
                    let accn = Seq::new(out@.len(), |i: int| out@[i]@);
                    if skip_n >= c.records@.len() {
                        assert(c@.records.skip(skip_n as int).take(0) =~= Seq::<Seq<u8>>::empty());
                        assert(accn =~= acc0);
                        assert(skip_i >= c@.records.len());
                        assert(accn =~= acc0 + Seq::<Seq<u8>>::empty());
                    } else {
                        assert(c@.records.skip(skip_n as int).take(
                            c.records@.len() - skip_n as int,
                        ) =~= c@.records.skip(skip_i));
                        assert(accn =~= acc0 + c@.records.skip(skip_i));
                    }
                    assert(join_rec(sortedv.skip(ci as int), head0 as int, acc0) == join_rec(
                        sortedv.skip(ci as int).drop_first(),
                        head0 as int,
                        accn,
                    ));
                    assert(sortedv.skip(ci as int).drop_first() =~= sortedv.skip(ci as int + 1));
                }
                ci = ci + 1;
            }
        }
        proof {
            if !stop {
                assert(sortedv.skip(sortedv.len() as int) =~= Seq::<ChunkV>::empty());
            }
            assert(Seq::new(out@.len(), |i: int| out@[i]@) == join_rec(
                sortedv,
                head0 as int,
                Seq::<Seq<u8>>::empty(),
            ));
        }

        let total = out.len();
        if total == 0 {
            proof {
                assert(!flush_ok(s0, dev, sync));
            }
            return Err(SinkError::NoSuchSync);
        }
        let total_u = total as u64;
        if total_u - 1 > (i64::MAX as u64) || head0 > (i64::MAX as u64) - (total_u - 1) {
            proof {
                assert(head0 + total > i64::MAX + 1);
                assert(!flush_ok(s0, dev, sync));
            }
            return Err(SinkError::HeadOverflow);
        }
        let tail = head0 + (total_u - 1);
        proof {
            assert(flush_ok(s0, dev, sync));
        }

        // The manifest.
        let mut blocks = u64_to_string(head0);
        blocks.append(",");
        let tail_text = u64_to_string(tail);
        blocks.append(tail_text.as_str());
        proof {
            reveal_strlit(",");
            assert(","@ =~= seq![',']);
            assert(blocks@ == dec_str(head0) + seq![','] + dec_str(tail));
        }
        let mut data_name = sync_id.clone();
        data_name.append(".fkpb");
        let mut headers: Vec<(String, String)> = Vec::new();
        headers.push(("Fk-DeviceId".to_owned(), identity.device_id.0.clone()));
        headers.push(("Fk-Generation".to_owned(), identity.generation_id.clone()));
        headers.push(("Fk-DeviceName".to_owned(), identity.name.clone()));
        headers.push(("Fk-Blocks".to_owned(), blocks));
        headers.push(("Fk-Type".to_owned(), "data".to_owned()));
        let meta = FileMeta {
            sync_id: sync_id.clone(),
            device_id: identity.device_id.0.clone(),
            generation_id: Some(identity.generation_id.clone()),
            head: head0 as i64,
            tail: tail as i64,
            data_name,
            headers,
            uploaded: None,
        };
        proof {
            assert(meta@.headers =~= flush_headers(dev, identity.generation_id@, identity.name@, head0, tail));
            assert(meta@ =~= flush_meta(dev, sync, identity.generation_id@, identity.name@, head0, tail));
        }
        let archive = ArchiveFile {
            device_id: identity.device_id.clone(),
            sync_id: sync_id.clone(),
            records: out,
            meta,
        };
        let ghost av = ArchiveV {
            device_id: dev,
            sync_id: sync,
            records: join_rec(sortedv, head0 as int, Seq::<Seq<u8>>::empty()),
            meta: flush_meta(dev, sync, identity.generation_id@, identity.name@, head0, tail),
        };
        proof {
            assert(archive@ =~= av);
        }
        match self.find_archive_exec(&identity.device_id, &sync_id) {
            Some(aj) => {
                self.archives[aj] = archive;
                proof {
                    let target = upsert_archive(s0.archives, av);
                    assert(self@.archives[aj as int] == target[aj as int]);
                    assert forall|k: int| 0 <= k < s0.archives.len() && k != aj implies self@.archives[k]
                        == target[k] by {
                        assert(self.archives@[k] == old(self).archives@[k]);
                    }
                    assert(self@.archives =~= target);
                    assert(self@ =~= flush_spec(s0, dev, sync, identity.generation_id@, identity.name@));
                }
            },
            None => {
                let ghost pre = self@.archives;
                self.archives.push(archive);
                proof {
                    assert(self@.archives =~= pre.push(av));
                    assert(self@ =~= flush_spec(s0, dev, sync, identity.generation_id@, identity.name@));
                }
            },
        }
        proof {
            assert(Flushed { head_record: head0, total_records: total_u } == flush_result(
                s0,
                dev,
                sync,
            ));
        }
        Ok(Flushed { head_record: head0, total_records: total_u })
    }

    /// The manifest path of one archive.
    fn path_of(&self, dev: &DeviceId, sync: &String) -> (r: String)
        ensures
            r@ == archive_path(self@.base_path, dev@, sync@),
    {
        let mut p = self.base_path.clone();
        p.append("/");
        p.append(dev.0.as_str());
        p.append("/");
        p.append(sync.as_str());
        p.append(".fkpb.json");
        p
    }

    /// Every archive flushed so far, with its manifest and manifest path,
    /// ready for handoff to an uploader. In this store the data file of an
    /// archive always exists beside its manifest, so all are returned.
    pub fn query_archives(&self) -> (r: Result<Vec<RecordSinkArchive>, SinkError>)
        ensures
            r is Ok,
            (r matches Ok(v) ==> v@.len() == self@.archives.len() && (forall|k: int|
                0 <= k < v@.len() ==> {
                    let a = self@.archives[k];
                    &&& (#[trigger] v@[k]).device_id@ == a.meta.device_id
                    &&& v@[k].generation_id@ == (match a.meta.generation_id {
                        Some(g) => g,
                        None => "unknown"@,
                    })
                    &&& v@[k].path@ == archive_path(self@.base_path, a.device_id, a.sync_id)
                    &&& v@[k].meta@ == a.meta
                })),
    {
        let ghost rows = self@.archives;
        let mut out: Vec<RecordSinkArchive> = Vec::new();
        let mut j: usize = 0;
        while j < self.archives.len()
            invariant
                j <= self.archives.len(),
                rows == self@.archives,
                out@.len() == j,
                forall|k: int|
                    0 <= k < j ==> {
                        let a = rows[k];
                        &&& (#[trigger] out@[k]).device_id@ == a.meta.device_id
                        &&& out@[k].generation_id@ == (match a.meta.generation_id {
                            Some(g) => g,
                            None => "unknown"@,
                        })
                        &&& out@[k].path@ == archive_path(self@.base_path, a.device_id, a.sync_id)
                        &&& out@[k].meta@ == a.meta
                    },
            decreases self.archives.len() - j,
        {
            proof {
                assert(rows[j as int] == self.archives@[j as int]@);
            }
            let a = &self.archives[j];
            let generation_id = match &a.meta.generation_id {
                Some(g) => g.clone(),
                None => "unknown".to_owned(),
            };
            let entry = RecordSinkArchive {
                device_id: a.meta.device_id.clone(),
                generation_id,
                path: self.path_of(&a.device_id, &a.sync_id),
                meta: a.meta.clone(),
            };
            out.push(entry);
            j = j + 1;
        }
        Ok(out)
    }

    /// Mark the archive behind a manifest path as uploaded at the present
    /// moment; the moment is whatever the clock answered, visible in the
    /// stored manifest.
    pub fn uploaded(&mut self, archive: String) -> (r: Result<(), SinkError>)
        ensures
            (r is Ok) <==> (exists|k: int|
                0 <= k < old(self)@.archives.len() && archive_path(
                    old(self)@.base_path,
                    (#[trigger] old(self)@.archives[k]).device_id,
                    old(self)@.archives[k].sync_id,
                ) == archive@),
            (r is Ok ==> exists|k: int|
                #![trigger old(self)@.archives[k]]
                {
                    &&& 0 <= k < old(self)@.archives.len()
                    &&& archive_path(
                        old(self)@.base_path,
                        old(self)@.archives[k].device_id,
                        old(self)@.archives[k].sync_id,
                    ) == archive@
                    &&& final(self)@.archives[k].meta.uploaded is Some
                    &&& final(self)@ == (SinkV {
                        archives: old(self)@.archives.update(
                            k,
                            ArchiveV {
                                meta: FileMetaV {
                                    uploaded: final(self)@.archives[k].meta.uploaded,
                                    ..old(self)@.archives[k].meta
                                },
                                ..old(self)@.archives[k]
                            },
                        ),
                        ..old(self)@
                    })
                }),
            (r is Err ==> final(self)@ == old(self)@ && r == Err::<(), SinkError>(
                SinkError::NoSuchArchive,
            )),
    {
        let ghost rows = self@.archives;
        let mut j: usize = 0;
        while j < self.archives.len()
            invariant
                j <= self.archives.len(),
                rows == self@.archives,
                *self == *old(self),
                forall|k: int|
                    0 <= k < j ==> archive_path(
                        self@.base_path,
                        (#[trigger] rows[k]).device_id,
                        rows[k].sync_id,
                    ) != archive@,
            decreases self.archives.len() - j,
        {
            proof {
                assert(rows[j as int] == self.archives@[j as int]@);
            }
            let p = self.path_of(&self.archives[j].device_id, &self.archives[j].sync_id);
            if p == archive {
                let now = clock::now_micros();
                let mut meta = self.archives[j].meta.clone();
                meta.uploaded = Some(now);
                let updated = ArchiveFile {
                    device_id: self.archives[j].device_id.clone(),
                    sync_id: self.archives[j].sync_id.clone(),
                    records: clone_payloads(&self.archives[j].records),
                    meta,
                };
                proof {
                    assert(updated@ =~= (ArchiveV {
                        meta: FileMetaV { uploaded: Some(now), ..rows[j as int].meta },
                        ..rows[j as int]
                    }));
                }
                self.archives[j] = updated;
                proof {
                    let target = rows.update(
                        j as int,
                        ArchiveV {
                            meta: FileMetaV { uploaded: Some(now), ..rows[j as int].meta },
                            ..rows[j as int]
                        },
                    );
                    assert(self@.archives[j as int] == target[j as int]);
                    assert forall|k: int| 0 <= k < rows.len() && k != j implies self@.archives[k]
                        == target[k] by {
                        assert(self.archives@[k] == old(self).archives@[k]);
                    }
                    assert(self@.archives =~= target);
                    assert(self@ =~= (SinkV { archives: target, ..old(self)@ }));
                }
                return Ok(());
            }
            j = j + 1;
        }
        Err(SinkError::NoSuchArchive)
    }

    /// Drop every file of one device: its chunk directories and its
    /// archives, with the tracking entries that pointed into them. A device
    /// with no files is refused, as removing a directory not there would
    /// be.
    pub fn delete_device_files(&mut self, device_id: &DeviceId) -> (r: Result<(), SinkError>)
        ensures
            (r is Ok) <==> ((exists|k: int|
                0 <= k < old(self)@.dirs.len() && (#[trigger] old(self)@.dirs[k]).device_id
                    == device_id@) || (exists|k: int|
                0 <= k < old(self)@.archives.len() && (#[trigger] old(self)@.archives[k]).device_id
                    == device_id@)),
            (r is Ok ==> final(self)@ == (SinkV {
                dirs: dirs_without_device(old(self)@.dirs, device_id@),
                archives: archives_without_device(old(self)@.archives, device_id@),
                previous: prevs_without_device(old(self)@.previous, device_id@),
                ..old(self)@
            })),
            (r is Err ==> final(self)@ == old(self)@ && r == Err::<(), SinkError>(
                SinkError::NoSuchDevice,
            )),
    {
        let ghost s0 = self@;
        let mut present = false;
        let mut j: usize = 0;
        while j < self.dirs.len()
            invariant
                j <= self.dirs.len(),
                s0 == self@,
                present <==> (exists|k: int|
                    0 <= k < j && (#[trigger] s0.dirs[k]).device_id == device_id@),
            decreases self.dirs.len() - j,
        {
            proof {
                assert(s0.dirs[j as int] == self.dirs@[j as int]@);
            }
            if self.dirs[j].device_id == *device_id {
                present = true;
            }
            j = j + 1;
        }
        let mut j2: usize = 0;
        while j2 < self.archives.len()
            invariant
                j2 <= self.archives.len(),
                s0 == self@,
                present <==> ((exists|k: int|
                    0 <= k < s0.dirs.len() && (#[trigger] s0.dirs[k]).device_id == device_id@)
                    || (exists|k: int|
                    0 <= k < j2 && (#[trigger] s0.archives[k]).device_id == device_id@)),
            decreases self.archives.len() - j2,
        {
            proof {
                assert(s0.archives[j2 as int] == self.archives@[j2 as int]@);
            }
            if self.archives[j2].device_id == *device_id {
                present = true;
            }
            j2 = j2 + 1;
        }
        if !present {
            return Err(SinkError::NoSuchDevice);
        }

        let mut kept_dirs: Vec<SyncDir> = Vec::new();
        let mut k1: usize = 0;
        while k1 < self.dirs.len()
            invariant
                k1 <= self.dirs.len(),
                s0 == self@,
                Seq::new(kept_dirs@.len(), |i: int| kept_dirs@[i]@) =~= dirs_without_device(
                    s0.dirs.take(k1 as int),
                    device_id@,
                ),
            decreases self.dirs.len() - k1,
        {
            proof {
                assert(s0.dirs[k1 as int] == self.dirs@[k1 as int]@);
                assert(s0.dirs.take(k1 as int + 1).drop_last() =~= s0.dirs.take(k1 as int));
                assert(s0.dirs.take(k1 as int + 1).last() == s0.dirs[k1 as int]);
            }
            if !(self.dirs[k1].device_id == *device_id) {
                let ghost pre = Seq::new(kept_dirs@.len(), |i: int| kept_dirs@[i]@);
                let d = &self.dirs[k1];
                let copied = SyncDir {
                    device_id: d.device_id.clone(),
                    sync_id: d.sync_id.clone(),
                    chunks: {
                        let mut cs: Vec<ChunkFile> = Vec::new();
                        let mut q: usize = 0;
                        while q < d.chunks.len()
                            invariant
                                q <= d.chunks@.len(),
                                cs@.len() == q,
                                forall|w: int| 0 <= w < q ==> (#[trigger] cs@[w])@ == d.chunks@[w]@,
                            decreases d.chunks@.len() - q,
                        {
                            cs.push(d.chunks[q].clone());
                            q = q + 1;
                        }
                        cs
                    },
                };
                proof {
                    assert(copied@ =~= s0.dirs[k1 as int]);
                }
                kept_dirs.push(copied);
                proof {
                    assert(Seq::new(kept_dirs@.len(), |i: int| kept_dirs@[i]@) =~= pre.push(
                        s0.dirs[k1 as int],
                    ));
                }
            }
            k1 = k1 + 1;
        }
        proof {
            assert(s0.dirs.take(s0.dirs.len() as int) =~= s0.dirs);
        }

        let mut kept_archives: Vec<ArchiveFile> = Vec::new();
        let mut k2: usize = 0;
        while k2 < self.archives.len()
            invariant
                k2 <= self.archives.len(),
                s0 == self@,
                Seq::new(kept_archives@.len(), |i: int| kept_archives@[i]@)
                    =~= archives_without_device(s0.archives.take(k2 as int), device_id@),
            decreases self.archives.len() - k2,
        {
            proof {
                assert(s0.archives[k2 as int] == self.archives@[k2 as int]@);
                assert(s0.archives.take(k2 as int + 1).drop_last() =~= s0.archives.take(
                    k2 as int,
                ));
                assert(s0.archives.take(k2 as int + 1).last() == s0.archives[k2 as int]);
            }
            if !(self.archives[k2].device_id == *device_id) {
                let ghost pre = Seq::new(kept_archives@.len(), |i: int| kept_archives@[i]@);
                let a = &self.archives[k2];
                let copied = ArchiveFile {
                    device_id: a.device_id.clone(),
                    sync_id: a.sync_id.clone(),
                    records: clone_payloads(&a.records),
                    meta: a.meta.clone(),
                };
                proof {
                    assert(copied@ =~= s0.archives[k2 as int]);
                }
                kept_archives.push(copied);
                proof {
                    assert(Seq::new(kept_archives@.len(), |i: int| kept_archives@[i]@) =~= pre.push(
                        s0.archives[k2 as int],
                    ));
                }
            }
            k2 = k2 + 1;
        }
        proof {
            assert(s0.archives.take(s0.archives.len() as int) =~= s0.archives);
        }

        let mut kept_prevs: Vec<PrevEntry> = Vec::new();
        let mut k3: usize = 0;
        while k3 < self.previous.len()
            invariant
                k3 <= self.previous.len(),
                s0 == self@,
                Seq::new(kept_prevs@.len(), |i: int| kept_prevs@[i]@) =~= prevs_without_device(
                    s0.previous.take(k3 as int),
                    device_id@,
                ),
            decreases self.previous.len() - k3,
        {
            proof {
                assert(s0.previous[k3 as int] == self.previous@[k3 as int]@);
                assert(s0.previous.take(k3 as int + 1).drop_last() =~= s0.previous.take(
                    k3 as int,
                ));
                assert(s0.previous.take(k3 as int + 1).last() == s0.previous[k3 as int]);
            }
            if !(self.previous[k3].device_id == *device_id) {
                let ghost pre = Seq::new(kept_prevs@.len(), |i: int| kept_prevs@[i]@);
                let p = &self.previous[k3];
                let copied = PrevEntry {
                    device_id: p.device_id.clone(),
                    sync_id: p.sync_id.clone(),
                    prev: p.prev,
                };
                proof {
                    assert(copied@ =~= s0.previous[k3 as int]);
                }
                kept_prevs.push(copied);
                proof {
                    assert(Seq::new(kept_prevs@.len(), |i: int| kept_prevs@[i]@) =~= pre.push(
                        s0.previous[k3 as int],
                    ));
                }
            }
            k3 = k3 + 1;
        }
        proof {
            assert(s0.previous.take(s0.previous.len() as int) =~= s0.previous);
        }

        self.dirs = kept_dirs;
        self.archives = kept_archives;
        self.previous = kept_prevs;
        proof {
            assert(self@ =~= (SinkV {
                dirs: dirs_without_device(s0.dirs, device_id@),
                archives: archives_without_device(s0.archives, device_id@),
                previous: prevs_without_device(s0.previous, device_id@),
                ..s0
            }));
        }
        Ok(())
    }
}

/// The chunk directories that survive deleting one device's files.
pub open spec fn dirs_without_device(ds: Seq<DirV>, d: Seq<char>) -> Seq<DirV>
    decreases ds.len(),
{
    if ds.len() == 0 {
        Seq::empty()
    } else {
        dirs_without_device(ds.drop_last(), d) + if ds.last().device_id == d {
            Seq::empty()
        } else {
            seq![ds.last()]
        }
    }
}

/// The archives that survive deleting one device's files.
pub open spec fn archives_without_device(arcs: Seq<ArchiveV>, d: Seq<char>) -> Seq<ArchiveV>
    decreases arcs.len(),
{
    if arcs.len() == 0 {
        Seq::empty()
    } else {
        archives_without_device(arcs.drop_last(), d) + if arcs.last().device_id == d {
            Seq::empty()
        } else {
            seq![arcs.last()]
        }
    }
}

/// The tracking entries that survive deleting one device's files.
pub open spec fn prevs_without_device(ps: Seq<PrevV>, d: Seq<char>) -> Seq<PrevV>
    decreases ps.len(),
{
    if ps.len() == 0 {
        Seq::empty()
    } else {
        prevs_without_device(ps.drop_last(), d) + if ps.last().device_id == d {
            Seq::empty()
        } else {
            seq![ps.last()]
        }
    }
}

// ---------------------------------------------------------------------------
// Laws of the sink.
// ---------------------------------------------------------------------------

/// How many records one directory's chunks hold in all.
pub open spec fn chunk_sum(cs: Seq<ChunkV>) -> int
    decreases cs.len(),
{
    if cs.len() == 0 {
        0
    } else {
        cs[0].records.len() + chunk_sum(cs.drop_first())
    }
}

/// How many records are stored for one key.
pub open spec fn records_in_dir(s: SinkV, dev: Seq<char>, sync: Seq<char>) -> int {
    let dj = find_dir(s.dirs, dev, sync);
    if dj < 0 {
        0
    } else {
        chunk_sum(s.dirs[dj].chunks)
    }
}

/// A sequence of writes, oldest first.
pub open spec fn apply_writes(s: SinkV, batches: Seq<ReceivedRecordsV>) -> SinkV
    decreases batches.len(),
{
    if batches.len() == 0 {
        s
    } else {
        write_spec(apply_writes(s, batches.drop_last()), batches.last())
    }
}

/// How many records a sequence of batches carries in all.
pub open spec fn batch_sum(batches: Seq<ReceivedRecordsV>) -> int
    decreases batches.len(),
{
    if batches.len() == 0 {
        0
    } else {
        batch_sum(batches.drop_last()) + batches.last().records.len()
    }
}

proof fn lemma_chunk_sum_nonneg(cs: Seq<ChunkV>)
    ensures
        chunk_sum(cs) >= 0,
    decreases cs.len(),
{
    if cs.len() > 0 {
        lemma_chunk_sum_nonneg(cs.drop_first());
    }
}

proof fn lemma_chunk_sum_push(cs: Seq<ChunkV>, c: ChunkV)
    ensures
        chunk_sum(cs.push(c)) == chunk_sum(cs) + c.records.len(),
    decreases cs.len(),
{
    if cs.len() == 0 {
        assert(cs.push(c)[0] == c);
        assert(cs.push(c).drop_first() =~= Seq::<ChunkV>::empty());
        assert(chunk_sum(cs.push(c).drop_first()) == 0);
    } else {
        assert(cs.push(c)[0] == cs[0]);
        assert(cs.push(c).drop_first() =~= cs.drop_first().push(c));
        lemma_chunk_sum_push(cs.drop_first(), c);
        assert(chunk_sum(cs.push(c).drop_first()) == chunk_sum(cs.drop_first())
            + c.records.len());
    }
}

proof fn lemma_chunk_sum_update(cs: Seq<ChunkV>, j: int, c: ChunkV)
    requires
        0 <= j < cs.len(),
    ensures
        chunk_sum(cs.update(j, c)) == chunk_sum(cs) - cs[j].records.len() + c.records.len(),
    decreases cs.len(),
{
    if j == 0 {
        assert(cs.update(0, c).drop_first() =~= cs.drop_first());
    } else {
        assert(cs.update(j, c).drop_first() =~= cs.drop_first().update(j - 1, c));
        lemma_chunk_sum_update(cs.drop_first(), j - 1, c);
    }
}

proof fn lemma_find_dir_update_same_key(ds: Seq<DirV>, j: int, d2: DirV, dev: Seq<char>, sync: Seq<char>)
    requires
        0 <= j < ds.len(),
        d2.device_id == ds[j].device_id,
        d2.sync_id == ds[j].sync_id,
    ensures
        find_dir(ds.update(j, d2), dev, sync) == find_dir(ds, dev, sync),
    decreases ds.len(),
{
    if j == 0 {
        if !(ds[0].device_id == dev && ds[0].sync_id == sync) {
            assert(ds.update(0, d2).drop_first() =~= ds.drop_first());
        }
    } else {
        assert(ds.update(j, d2).drop_first() =~= ds.drop_first().update(j - 1, d2));
        lemma_find_dir_update_same_key(ds.drop_first(), j - 1, d2, dev, sync);
    }
}

proof fn lemma_find_dir_push_found(ds: Seq<DirV>, d2: DirV, dev: Seq<char>, sync: Seq<char>)
    ensures
        find_dir(ds, dev, sync) >= 0 ==> find_dir(ds.push(d2), dev, sync) == find_dir(
            ds,
            dev,
            sync,
        ),
        find_dir(ds, dev, sync) == -1 && d2.device_id == dev && d2.sync_id == sync ==> find_dir(
            ds.push(d2),
            dev,
            sync,
        ) == ds.len(),
        find_dir(ds, dev, sync) == -1 && !(d2.device_id == dev && d2.sync_id == sync)
            ==> find_dir(ds.push(d2), dev, sync) == -1,
    decreases ds.len(),
{
    if ds.len() == 0 {
        assert(ds.push(d2)[0] == d2);
        assert(ds.push(d2).drop_first() =~= Seq::<DirV>::empty());
        assert(find_dir(ds.push(d2).drop_first(), dev, sync) == -1);
    } else {
        assert(ds.push(d2)[0] == ds[0]);
        assert(ds.push(d2).drop_first() =~= ds.drop_first().push(d2));
        lemma_find_dir_push_found(ds.drop_first(), d2, dev, sync);
        if !(ds[0].device_id == dev && ds[0].sync_id == sync) {
            assert(find_dir(ds.push(d2), dev, sync) == {
                let q = find_dir(ds.push(d2).drop_first(), dev, sync);
                if q < 0 {
                    -1
                } else {
                    q + 1
                }
            });
        }
    }
}

/// One write grows the records stored for its key by at most the batch's
/// length, and leaves every other key's count alone.
proof fn lemma_write_spec_dir_bound(s: SinkV, r: ReceivedRecordsV)
    ensures
        records_in_dir(write_spec(s, r), r.device_id, r.sync_id) <= records_in_dir(
            s,
            r.device_id,
            r.sync_id,
        ) + r.records.len(),
{
    lemma_find_dir_props(s.dirs, r.device_id, r.sync_id);
    if r.records.len() == 0 {
    } else {
        let start = r.records[0].number;
        let pj = find_prev(s.previous, r.device_id, r.sync_id);
        let dj = find_dir(s.dirs, r.device_id, r.sync_id);
        if pj >= 0 && s.previous[pj].prev.end < u64::MAX && start == s.previous[pj].prev.end + 1
            && dj >= 0 && find_chunk(s.dirs[dj].chunks, s.previous[pj].prev.head) >= 0 {
            let cj = find_chunk(s.dirs[dj].chunks, s.previous[pj].prev.head);
            lemma_find_chunk_props(s.dirs[dj].chunks, s.previous[pj].prev.head);
            let chunk = s.dirs[dj].chunks[cj];
            let c2 = ChunkV { records: chunk.records + payloads(r.records), ..chunk };
            let d2 = DirV { chunks: s.dirs[dj].chunks.update(cj, c2), ..s.dirs[dj] };
            lemma_find_dir_update_same_key(s.dirs, dj, d2, r.device_id, r.sync_id);
            lemma_chunk_sum_update(s.dirs[dj].chunks, cj, c2);
            assert(write_spec(s, r).dirs == s.dirs.update(dj, d2));
            assert(find_dir(write_spec(s, r).dirs, r.device_id, r.sync_id) == dj);
            assert(write_spec(s, r).dirs[dj] == d2);
            assert(c2.records.len() == chunk.records.len() + r.records.len());
            assert(records_in_dir(write_spec(s, r), r.device_id, r.sync_id) == chunk_sum(
                s.dirs[dj].chunks,
            ) + r.records.len());
        } else if dj < 0 {
            let dir = DirV {
                device_id: r.device_id,
                sync_id: r.sync_id,
                chunks: seq![ChunkV { head: start, records: payloads(r.records) }],
            };
            lemma_find_dir_push_found(s.dirs, dir, r.device_id, r.sync_id);
            let cs = seq![ChunkV { head: start, records: payloads(r.records) }];
            assert(cs.drop_first() =~= Seq::<ChunkV>::empty());
            assert(chunk_sum(cs.drop_first()) == 0);
            assert(chunk_sum(cs) == r.records.len());
            assert(write_spec(s, r).dirs == s.dirs.push(dir));
            assert(find_dir(write_spec(s, r).dirs, r.device_id, r.sync_id) == s.dirs.len());
            assert(write_spec(s, r).dirs[s.dirs.len() as int] == dir);
            assert(records_in_dir(write_spec(s, r), r.device_id, r.sync_id) == r.records.len());
            assert(records_in_dir(s, r.device_id, r.sync_id) == 0);
        } else if find_chunk(s.dirs[dj].chunks, start) >= 0 {
            assert(write_spec(s, r) == s);
        } else {
            let c2 = ChunkV { head: start, records: payloads(r.records) };
            let d2 = DirV { chunks: s.dirs[dj].chunks.push(c2), ..s.dirs[dj] };
            lemma_find_dir_update_same_key(s.dirs, dj, d2, r.device_id, r.sync_id);
            lemma_chunk_sum_push(s.dirs[dj].chunks, c2);
            assert(write_spec(s, r).dirs == s.dirs.update(dj, d2));
            assert(find_dir(write_spec(s, r).dirs, r.device_id, r.sync_id) == dj);
            assert(records_in_dir(write_spec(s, r), r.device_id, r.sync_id) == chunk_sum(
                s.dirs[dj].chunks,
            ) + r.records.len());
        }
    }
}

/// A write for one key leaves every other key's records alone.
proof fn lemma_write_spec_other_key(s: SinkV, r: ReceivedRecordsV, dev: Seq<char>, sync: Seq<char>)
    requires
        !(r.device_id == dev && r.sync_id == sync),
    ensures
        records_in_dir(write_spec(s, r), dev, sync) == records_in_dir(s, dev, sync),
{
    if r.records.len() == 0 {
    } else {
        let start = r.records[0].number;
        let pj = find_prev(s.previous, r.device_id, r.sync_id);
        let dj = find_dir(s.dirs, r.device_id, r.sync_id);
        lemma_find_dir_props(s.dirs, r.device_id, r.sync_id);
        if pj >= 0 && s.previous[pj].prev.end < u64::MAX && start == s.previous[pj].prev.end + 1
            && dj >= 0 && find_chunk(s.dirs[dj].chunks, s.previous[pj].prev.head) >= 0 {
            let cj = find_chunk(s.dirs[dj].chunks, s.previous[pj].prev.head);
            let chunk = s.dirs[dj].chunks[cj];
            let c2 = ChunkV { records: chunk.records + payloads(r.records), ..chunk };
            let d2 = DirV { chunks: s.dirs[dj].chunks.update(cj, c2), ..s.dirs[dj] };
            lemma_find_dir_update_same_key(s.dirs, dj, d2, dev, sync);
            lemma_find_dir_props(s.dirs, dev, sync);
            if find_dir(s.dirs, dev, sync) >= 0 {
                assert(find_dir(s.dirs, dev, sync) != dj);
            }
        } else if dj < 0 {
            let dir = DirV {
                device_id: r.device_id,
                sync_id: r.sync_id,
                chunks: seq![ChunkV { head: start, records: payloads(r.records) }],
            };
            lemma_find_dir_push_found(s.dirs, dir, dev, sync);
            lemma_find_dir_props(s.dirs, dev, sync);
        } else if find_chunk(s.dirs[dj].chunks, start) >= 0 {
        } else {
            let c2 = ChunkV { head: start, records: payloads(r.records) };
            let d2 = DirV { chunks: s.dirs[dj].chunks.push(c2), ..s.dirs[dj] };
            lemma_find_dir_update_same_key(s.dirs, dj, d2, dev, sync);
            lemma_find_dir_props(s.dirs, dev, sync);
            if find_dir(s.dirs, dev, sync) >= 0 {
                assert(find_dir(s.dirs, dev, sync) != dj);
            }
        }
    }
}

proof fn lemma_apply_writes_bound(s: SinkV, batches: Seq<ReceivedRecordsV>, dev: Seq<char>, sync: Seq<char>)
    ensures
        records_in_dir(apply_writes(s, batches), dev, sync) <= records_in_dir(s, dev, sync)
            + batch_sum(batches),
    decreases batches.len(),
{
    if batches.len() > 0 {
        lemma_apply_writes_bound(s, batches.drop_last(), dev, sync);
        let s1 = apply_writes(s, batches.drop_last());
        let b = batches.last();
        if b.device_id == dev && b.sync_id == sync {
            lemma_write_spec_dir_bound(s1, b);
        } else {
            lemma_write_spec_other_key(s1, b, dev, sync);
            assert(b.records.len() >= 0);
        }
    }
}

proof fn lemma_join_rec_bound(chunks: Seq<ChunkV>, head0: int, acc: Seq<Seq<u8>>)
    ensures
        join_rec(chunks, head0, acc).len() <= acc.len() + chunk_sum(chunks),
    decreases chunks.len(),
{
    lemma_chunk_sum_nonneg(chunks);
    if chunks.len() > 0 {
        lemma_chunk_sum_nonneg(chunks.drop_first());
        if chunks[0].head > head0 + acc.len() {
        } else {
            let skip = head0 + acc.len() - chunks[0].head;
            let emitted = if skip >= chunks[0].records.len() {
                Seq::<Seq<u8>>::empty()
            } else {
                chunks[0].records.skip(skip)
            };
            lemma_join_rec_bound(chunks.drop_first(), head0, acc + emitted);
        }
    }
}

proof fn lemma_insert_chunk_sorted_sum(s: Seq<ChunkV>, c: ChunkV)
    ensures
        chunk_sum(insert_chunk_sorted(s, c)) == chunk_sum(s) + c.records.len(),
    decreases s.len(),
{
    if s.len() == 0 {
        assert(insert_chunk_sorted(s, c)[0] == c);
        assert(insert_chunk_sorted(s, c).drop_first() =~= Seq::<ChunkV>::empty());
        assert(chunk_sum(insert_chunk_sorted(s, c).drop_first()) == 0);
    } else if chunk_leq(s[0], c) {
        lemma_insert_chunk_sorted_sum(s.drop_first(), c);
        let t = seq![s[0]] + insert_chunk_sorted(s.drop_first(), c);
        assert(t[0] == s[0]);
        assert(t.drop_first() =~= insert_chunk_sorted(s.drop_first(), c));
        assert(chunk_sum(t) == t[0].records.len() + chunk_sum(t.drop_first()));
    } else {
        let t = seq![c] + s;
        assert(t[0] == c);
        assert(t.drop_first() =~= s);
        assert(chunk_sum(t) == t[0].records.len() + chunk_sum(t.drop_first()));
    }
}

proof fn lemma_sort_chunks_sum(cs: Seq<ChunkV>)
    ensures
        chunk_sum(sort_chunks(cs)) == chunk_sum(cs),
    decreases cs.len(),
{
    if cs.len() > 0 {
        lemma_sort_chunks_sum(cs.drop_last());
        lemma_insert_chunk_sorted_sum(sort_chunks(cs.drop_last()), cs.last());
        assert(cs.drop_last().push(cs.last()) =~= cs);
        lemma_chunk_sum_push(cs.drop_last(), cs.last());
    }
}

/// However a sequence of batches for one key arrives — out of order, with
/// gaps, with duplicates — the archive a flush merges never holds more
/// records than the batches carried.
pub proof fn lemma_flush_total_bounded(
    s0: SinkV,
    batches: Seq<ReceivedRecordsV>,
    dev: Seq<char>,
    sync: Seq<char>,
)
    requires
        records_in_dir(s0, dev, sync) == 0,
    ensures
        flush_ok(apply_writes(s0, batches), dev, sync) ==> flush_result(
            apply_writes(s0, batches),
            dev,
            sync,
        ).total_records <= batch_sum(batches),
{
    let s1 = apply_writes(s0, batches);
    if flush_ok(s1, dev, sync) {
        let dj = find_dir(s1.dirs, dev, sync);
        let sorted = sort_chunks(s1.dirs[dj].chunks);
        let head0 = sorted[0].head;
        lemma_join_rec_bound(sorted, head0 as int, Seq::empty());
        lemma_sort_chunks_sum(s1.dirs[dj].chunks);
        lemma_apply_writes_bound(s0, batches, dev, sync);
    }
}

/// Two batches for a fresh key whose ranges meet exactly leave a single
/// chunk file, named after the first batch's first record and holding both
/// batches' records in order.
pub proof fn lemma_consecutive_batches_one_chunk(
    s0: SinkV,
    a: ReceivedRecordsV,
    b: ReceivedRecordsV,
)
    requires
        a.device_id == b.device_id,
        a.sync_id == b.sync_id,
        a.records.len() > 0,
        b.records.len() > 0,
        a.records.last().number < u64::MAX,
        b.records[0].number == a.records.last().number + 1,
        find_prev(s0.previous, a.device_id, a.sync_id) == -1,
        find_dir(s0.dirs, a.device_id, a.sync_id) == -1,
    ensures
        ({
            let s2 = write_spec(write_spec(s0, a), b);
            let dj = find_dir(s2.dirs, a.device_id, a.sync_id);
            &&& dj >= 0
            &&& s2.dirs[dj].chunks.len() == 1
            &&& s2.dirs[dj].chunks[0].head == a.records[0].number
            &&& s2.dirs[dj].chunks[0].records == payloads(a.records) + payloads(b.records)
        }),
{
    let dev = a.device_id;
    let sync = a.sync_id;
    let s1 = write_spec(s0, a);
    let dir1 = DirV {
        device_id: dev,
        sync_id: sync,
        chunks: seq![ChunkV { head: a.records[0].number, records: payloads(a.records) }],
    };
    assert(s1.dirs == s0.dirs.push(dir1));
    assert(s1.previous == s0.previous.push(
        PrevV {
            device_id: dev,
            sync_id: sync,
            prev: Previous {
                head: a.records[0].number,
                start: a.records[0].number,
                end: a.records.last().number,
            },
        },
    ));
    lemma_find_dir_push_found(s0.dirs, dir1, dev, sync);
    assert(find_dir(s1.dirs, dev, sync) == s0.dirs.len());
    lemma_find_prev_props(s0.previous, dev, sync);
    assert(forall|k: int|
        0 <= k < s0.previous.len() ==> !((#[trigger] s0.previous[k]).device_id == dev
            && s0.previous[k].sync_id == sync)) by {
        if exists|k: int|
            0 <= k < s0.previous.len() && (#[trigger] s0.previous[k]).device_id == dev
                && s0.previous[k].sync_id == sync {
            let k = choose|k: int|
                0 <= k < s0.previous.len() && (#[trigger] s0.previous[k]).device_id == dev
                    && s0.previous[k].sync_id == sync;
            lemma_find_prev_first(s0.previous, dev, sync, k);
        }
    }
    lemma_find_prev_at(s1.previous, dev, sync, s0.previous.len() as int);
    let pj = find_prev(s1.previous, dev, sync);
    assert(pj == s0.previous.len());
    assert(s1.previous[pj].prev.end == a.records.last().number);
    let dj1 = find_dir(s1.dirs, dev, sync);
    assert(s1.dirs[dj1] == dir1);
    lemma_find_chunk_at(dir1.chunks, a.records[0].number, 0);
    let s2 = write_spec(s1, b);
    let c2 = ChunkV {
        head: a.records[0].number,
        records: payloads(a.records) + payloads(b.records),
    };
    assert(s2.dirs == s1.dirs.update(
        dj1,
        DirV { chunks: dir1.chunks.update(0, c2), ..dir1 },
    ));
    lemma_find_dir_update_same_key(s1.dirs, dj1, DirV { chunks: dir1.chunks.update(0, c2), ..dir1 }, dev, sync);
    assert(find_dir(s2.dirs, dev, sync) == dj1);
    assert(s2.dirs[dj1].chunks =~= seq![c2]);
}

proof fn lemma_find_prev_first(ps: Seq<PrevV>, dev: Seq<char>, sync: Seq<char>, k: int)
    requires
        0 <= k < ps.len(),
        ps[k].device_id == dev,
        ps[k].sync_id == sync,
    ensures
        find_prev(ps, dev, sync) >= 0,
    decreases k,
{
    if !(ps[0].device_id == dev && ps[0].sync_id == sync) {
        lemma_find_prev_first(ps.drop_first(), dev, sync, k - 1);
    }
}

proof fn lemma_find_prev_neg(ps: Seq<PrevV>, dev: Seq<char>, sync: Seq<char>)
    requires
        find_prev(ps, dev, sync) == -1,
    ensures
        forall|k: int|
            0 <= k < ps.len() ==> !((#[trigger] ps[k]).device_id == dev && ps[k].sync_id == sync),
    decreases ps.len(),
{
    if ps.len() > 0 {
        lemma_find_prev_neg(ps.drop_first(), dev, sync);
        assert forall|k: int|
            0 <= k < ps.len() implies !((#[trigger] ps[k]).device_id == dev && ps[k].sync_id
            == sync) by {
            if k > 0 {
                assert(ps.drop_first()[k - 1] == ps[k]);
            }
        }
    }
}

/// Two batches for a fresh key whose ranges do not meet leave two chunk
/// files, each named after its own batch's first record.
pub proof fn lemma_gap_batches_two_chunks(s0: SinkV, a: ReceivedRecordsV, b: ReceivedRecordsV)
    requires
        a.device_id == b.device_id,
        a.sync_id == b.sync_id,
        a.records.len() > 0,
        b.records.len() > 0,
        !(a.records.last().number < u64::MAX && b.records[0].number == a.records.last().number
            + 1),
        b.records[0].number != a.records[0].number,
        find_prev(s0.previous, a.device_id, a.sync_id) == -1,
        find_dir(s0.dirs, a.device_id, a.sync_id) == -1,
    ensures
        ({
            let s2 = write_spec(write_spec(s0, a), b);
            let dj = find_dir(s2.dirs, a.device_id, a.sync_id);
            &&& dj >= 0
            &&& s2.dirs[dj].chunks.len() == 2
            &&& s2.dirs[dj].chunks[0].head == a.records[0].number
            &&& s2.dirs[dj].chunks[0].records == payloads(a.records)
            &&& s2.dirs[dj].chunks[1].head == b.records[0].number
            &&& s2.dirs[dj].chunks[1].records == payloads(b.records)
        }),
{
    let dev = a.device_id;
    let sync = a.sync_id;
    let s1 = write_spec(s0, a);
    let dir1 = DirV {
        device_id: dev,
        sync_id: sync,
        chunks: seq![ChunkV { head: a.records[0].number, records: payloads(a.records) }],
    };
    assert(s1.dirs == s0.dirs.push(dir1));
    lemma_find_dir_push_found(s0.dirs, dir1, dev, sync);
    let dj1 = find_dir(s1.dirs, dev, sync);
    assert(dj1 == s0.dirs.len());
    assert(s1.dirs[dj1] == dir1);
    lemma_find_prev_neg(s0.previous, dev, sync);
    let entry1 = PrevV {
        device_id: dev,
        sync_id: sync,
        prev: Previous {
            head: a.records[0].number,
            start: a.records[0].number,
            end: a.records.last().number,
        },
    };
    assert(s1.previous == s0.previous.push(entry1));
    assert(s1.previous[s0.previous.len() as int] == entry1);
    lemma_find_prev_at(s1.previous, dev, sync, s0.previous.len() as int);
    let pj = find_prev(s1.previous, dev, sync);
    assert(s1.previous[pj].prev.end == a.records.last().number);
    assert(s1.previous[pj].prev.head == a.records[0].number);
    lemma_find_chunk_none(dir1.chunks, b.records[0].number);
    let s2 = write_spec(s1, b);
    let c2 = ChunkV { head: b.records[0].number, records: payloads(b.records) };
    assert(s2.dirs == s1.dirs.update(dj1, DirV { chunks: dir1.chunks.push(c2), ..dir1 }));
    lemma_find_dir_update_same_key(
        s1.dirs,
        dj1,
        DirV { chunks: dir1.chunks.push(c2), ..dir1 },
        dev,
        sync,
    );
    assert(find_dir(s2.dirs, dev, sync) == dj1);
    assert(s2.dirs[dj1].chunks =~= seq![
        ChunkV { head: a.records[0].number, records: payloads(a.records) },
        c2,
    ]);
}

} // verus!
