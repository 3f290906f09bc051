use rustfk::model::DeviceId;
use rustfk::sink::FilesRecordSink;
use rustfk::sink::Flushed;
use rustfk::sink::Identity;
use rustfk::sink::NumberedRecord;
use rustfk::sink::ReceivedRecords;
use rustfk::sink::SinkError;

struct Ids {
    sync_id: String,
    device_id: DeviceId,
}

impl Ids {
    fn new() -> Ids {
        Ids { sync_id: "sync_id".to_owned(), device_id: DeviceId("device".to_owned()) }
    }

    fn builder(&self) -> Builder {
        Builder {
            sync_id: self.sync_id.clone(),
            device_id: DeviceId(self.device_id.0.clone()),
            records: Vec::new(),
            number: 0,
        }
    }

    fn identity(&self) -> Identity {
        Identity {
            device_id: DeviceId(self.device_id.0.clone()),
            generation_id: "generation".to_owned(),
            name: "Station".to_owned(),
        }
    }
}

struct Builder {
    sync_id: String,
    device_id: DeviceId,
    records: Vec<NumberedRecord>,
    number: usize,
}

impl Builder {
    fn first(mut self, number: usize) -> Builder {
        self.number = number;
        self
    }

    fn gap(mut self, number: usize) -> Builder {
        self.number += number;
        self
    }

    fn records(mut self, number: usize) -> Builder {
        for n in 0..number {
            self.records.push(NumberedRecord {
                number: (n + self.number) as u64,
                record: vec![0u8; 256],
            });
        }
        self.number += number;
        self
    }

    fn build(self) -> ReceivedRecords {
        ReceivedRecords { sync_id: self.sync_id, device_id: self.device_id, records: self.records }
    }
}

fn new_sink() -> FilesRecordSink {
    FilesRecordSink::new("fk-tests-sync")
}

#[test]
pub fn test_writes_initial_records() {
    let mut sink = new_sink();

    let ids = Ids::new();
    sink.write(&ids.builder().records(1000).build()).unwrap();
    let flushed = sink.flush(ids.sync_id.clone(), ids.identity()).unwrap();

    assert_eq!(flushed, Flushed { head_record: 0, total_records: 1000 });
}

#[test]
pub fn test_writes_initial_records_with_gap() {
    let mut sink = new_sink();

    let ids = Ids::new();
    sink.write(&ids.builder().first(500).gap(10).records(490).build()).unwrap();
    let flushed = sink.flush(ids.sync_id.clone(), ids.identity()).unwrap();

    assert_eq!(flushed, Flushed { head_record: 510, total_records: 490 });
}

#[test]
pub fn test_writes_additional_records() {
    let mut sink = new_sink();

    let ids = Ids::new();
    sink.write(&ids.builder().records(1000).build()).unwrap();
    sink.write(&ids.builder().first(1000).records(1000).build()).unwrap();
    let flushed = sink.flush(ids.sync_id.clone(), ids.identity()).unwrap();

    assert_eq!(flushed, Flushed { head_record: 0, total_records: 2000 });
}

#[test]
pub fn test_writes_additional_records_with_gap() {
    let mut sink = new_sink();

    let ids = Ids::new();
    sink.write(&ids.builder().records(1000).build()).unwrap();
    sink.write(&ids.builder().first(1500).gap(10).records(490).build()).unwrap();
    let flushed = sink.flush(ids.sync_id.clone(), ids.identity()).unwrap();

    assert_eq!(flushed, Flushed { head_record: 0, total_records: 1000 });
}

#[test]
pub fn test_writes_additional_records_with_multiple_gaps_one_overlapping() {
    let mut sink = new_sink();

    let ids = Ids::new();
    sink.write(&ids.builder().records(1000).build()).unwrap();
    sink.write(&ids.builder().first(1100).records(100).build()).unwrap();
    sink.write(&ids.builder().first(1000).records(200).build()).unwrap();
    sink.write(&ids.builder().first(1500).records(500).build()).unwrap();
    let flushed = sink.flush(ids.sync_id.clone(), ids.identity()).unwrap();

    assert_eq!(flushed, Flushed { head_record: 0, total_records: 1200 });
}

#[test]
pub fn test_writes_additional_records_that_fill_earlier_gap() {
    let mut sink = new_sink();

    let ids = Ids::new();
    sink.write(&ids.builder().first(1000).gap(100).records(900).build()).unwrap();
    sink.write(&ids.builder().first(1000).records(100).build()).unwrap();
    let flushed = sink.flush(ids.sync_id.clone(), ids.identity()).unwrap();

    assert_eq!(flushed, Flushed { head_record: 1000, total_records: 1000 });
}

#[test]
pub fn test_receives_same_starting_record_twice() {
    let mut sink = new_sink();

    let ids = Ids::new();
    sink.write(&ids.builder().records(100).build()).unwrap();
    sink.write(&ids.builder().records(200).build()).unwrap();
    let flushed = sink.flush(ids.sync_id.clone(), ids.identity()).unwrap();

    assert_eq!(flushed, Flushed { head_record: 0, total_records: 100 });
}

#[test]
pub fn test_receives_duplicates() {
    let mut sink = new_sink();

    let ids = Ids::new();
    sink.write(&ids.builder().records(200).build()).unwrap();
    sink.write(&ids.builder().gap(50).records(20).build()).unwrap();
    let flushed = sink.flush(ids.sync_id.clone(), ids.identity()).unwrap();

    assert_eq!(flushed, Flushed { head_record: 0, total_records: 200 });
}

#[test]
fn test_empty_batch_is_refused() {
    let mut sink = new_sink();

    let ids = Ids::new();
    let empty = ids.builder().build();
    assert_eq!(sink.write(&empty), Err(SinkError::EmptyBatch));
}

#[test]
fn test_flush_of_unknown_sync_is_refused() {
    let mut sink = new_sink();

    let ids = Ids::new();
    let r = sink.flush(ids.sync_id.clone(), ids.identity());
    assert_eq!(r.err(), Some(SinkError::NoSuchSync));
}

#[test]
fn test_flush_writes_manifest_headers() {
    let mut sink = new_sink();

    let ids = Ids::new();
    sink.write(&ids.builder().records(1000).build()).unwrap();
    sink.flush(ids.sync_id.clone(), ids.identity()).unwrap();

    let archives = sink.query_archives().unwrap();
    assert_eq!(archives.len(), 1);
    let meta = &archives[0].meta;
    assert_eq!(meta.head, 0);
    assert_eq!(meta.tail, 999);
    assert_eq!(meta.data_name, "sync_id.fkpb");
    assert_eq!(meta.sync_id, "sync_id");
    assert_eq!(meta.device_id, "device");
    assert_eq!(meta.generation_id.as_deref(), Some("generation"));
    assert!(meta.uploaded.is_none());
    let blocks = meta
        .headers
        .iter()
        .find(|(k, _)| k == "Fk-Blocks")
        .map(|(_, v)| v.clone());
    assert_eq!(blocks.as_deref(), Some("0,999"));
    let kind = meta.headers.iter().find(|(k, _)| k == "Fk-Type").map(|(_, v)| v.clone());
    assert_eq!(kind.as_deref(), Some("data"));
    assert_eq!(archives[0].path, "fk-tests-sync/device/sync_id.fkpb.json");
}

#[test]
fn test_uploaded_marks_the_manifest() {
    let mut sink = new_sink();

    let ids = Ids::new();
    sink.write(&ids.builder().records(10).build()).unwrap();
    sink.flush(ids.sync_id.clone(), ids.identity()).unwrap();

    let archives = sink.query_archives().unwrap();
    sink.uploaded(archives[0].path.clone()).unwrap();

    let archives = sink.query_archives().unwrap();
    assert!(archives[0].meta.uploaded.is_some());

    assert_eq!(
        sink.uploaded("fk-tests-sync/other/sync.fkpb.json".to_owned()),
        Err(SinkError::NoSuchArchive)
    );
}

#[test]
fn test_delete_device_files() {
    let mut sink = new_sink();

    let ids = Ids::new();
    sink.write(&ids.builder().records(10).build()).unwrap();
    sink.flush(ids.sync_id.clone(), ids.identity()).unwrap();

    sink.delete_device_files(&ids.device_id).unwrap();
    assert_eq!(sink.query_archives().unwrap().len(), 0);

    assert_eq!(sink.delete_device_files(&ids.device_id), Err(SinkError::NoSuchDevice));
}

#[test]
fn test_flush_overflowing_record_numbers_is_refused() {
    let mut sink = new_sink();

    let ids = Ids::new();
    let mut batch = ids.builder().build();
    batch.records.push(NumberedRecord { number: u64::MAX - 1, record: vec![0u8; 8] });
    sink.write(&batch).unwrap();
    let r = sink.flush(ids.sync_id.clone(), ids.identity());
    assert_eq!(r.err(), Some(SinkError::HeadOverflow));
}

#[test]
fn test_range_of_a_batch() {
    let ids = Ids::new();
    let batch = ids.builder().first(5).records(10).build();
    assert_eq!(batch.range(), Some((5, 14)));
    let empty = ids.builder().build();
    assert_eq!(empty.range(), None);
}
