use rustfk::clock::now_micros;
use rustfk::clock::unix_time;
use rustfk::codec::Announce;
use rustfk::discovery::ap_discovered;
use rustfk::discovery::discovered_from_hello;
use rustfk::discovery::Discoveries;
use rustfk::discovery::HostPort;
use rustfk::model::DeviceId;
use rustfk::protos::InternalFlag;
use rustfk::protos::ModuleFlags;
use rustfk::query::upload_outcome;
use rustfk::query::BaseProgress;
use rustfk::query::SimpleSchedule;
use rustfk::query::UpgradeBody;
use rustfk::query::UpgradeError;
use rustfk::text::u64_to_string;
use rustfk::transport::UdpTransport;

#[test]
fn test_probe_cadence_slows_after_first_discovery() {
    let mut discoveries = Discoveries::new();
    assert_eq!(discoveries.probe_delay_secs(), 10);
    assert!(!discoveries.skip_probe());

    discoveries.found_udp();
    assert!(discoveries.any_found_udp());
    assert_eq!(discoveries.probe_delay_secs(), 300);
    assert!(discoveries.skip_probe());

    let mut probed = Discoveries::new();
    probed.found_connected();
    assert!(probed.any_found_connected());
    assert_eq!(probed.probe_delay_secs(), 300);
    assert!(!probed.skip_probe());
}

#[test]
fn test_hello_becomes_discovered() {
    let hello = Announce::Hello(DeviceId("010203".to_owned()), 80);
    let discovered = discovered_from_hello(&hello, 10, 0, 0, 5).unwrap();
    assert_eq!(discovered.device_id.0, "010203");
    assert_eq!(discovered.http_addr, Some(HostPort { a: 10, b: 0, c: 0, d: 5, port: 80 }));
    assert_eq!(discovered.udp_addr, Some(HostPort { a: 10, b: 0, c: 0, d: 5, port: 22144 }));
    assert_eq!(
        discovered.http_url().as_deref(),
        Some("http://10.0.0.5:80/fk/v1")
    );

    let bye = Announce::Bye(DeviceId("010203".to_owned()));
    assert!(discovered_from_hello(&bye, 10, 0, 0, 5).is_none());
}

#[test]
fn test_ap_probe_discovery_addresses() {
    let discovered = ap_discovered(&[0x0a, 0x0b]);
    assert_eq!(discovered.device_id.0, "0a0b");
    assert_eq!(discovered.http_addr, Some(HostPort { a: 192, b: 168, c: 2, d: 1, port: 80 }));
    assert_eq!(discovered.udp_addr, Some(HostPort { a: 192, b: 168, c: 2, d: 1, port: 22144 }));
}

#[test]
fn test_upgrade_error_from_body() {
    let body = UpgradeBody {
        sd_card: Some(true),
        incomplete: None,
        length: None,
        unlink: None,
        create: None,
        success: None,
        hash: None,
    };
    assert_eq!(body.upgrade_error(), UpgradeError::SdCardMissing);

    let body = UpgradeBody { sd_card: None, create: Some(true), ..empty_body() };
    assert_eq!(body.upgrade_error(), UpgradeError::SdCardIo);

    let body = UpgradeBody { unlink: Some(true), ..empty_body() };
    assert_eq!(body.upgrade_error(), UpgradeError::SdCardIo);

    let body = empty_body();
    assert_eq!(body.upgrade_error(), UpgradeError::Server);

    assert_eq!(upload_outcome(false, Some(&empty_body())), None);
    assert_eq!(upload_outcome(true, None), Some(UpgradeError::Server));
    let missing = UpgradeBody { sd_card: Some(true), ..empty_body() };
    assert_eq!(upload_outcome(true, Some(&missing)), Some(UpgradeError::SdCardMissing));
}

fn empty_body() -> UpgradeBody {
    UpgradeBody {
        sd_card: None,
        incomplete: None,
        length: None,
        unlink: None,
        create: None,
        success: None,
        hash: None,
    }
}

#[test]
fn test_simple_schedule_conversion() {
    assert_eq!(SimpleSchedule::try_from_interval(60), Ok(SimpleSchedule::Every(60)));
    assert_eq!(SimpleSchedule::try_from_interval(0).is_err(), true);
    assert_eq!(SimpleSchedule::Every(60).interval_secs(), 60);
}

#[test]
fn test_base_progress_counts_earlier_files() {
    let progress = BaseProgress(1000, 5000);
    let report = progress.uploaded(250);
    assert_eq!(report.bytes_uploaded, 1250);
    assert_eq!(report.total_bytes, 5000);
}

#[test]
fn test_module_flags_internal_bit() {
    assert!(ModuleFlags::new(1).internal());
    assert!(!ModuleFlags::new(2).internal());
    assert!(ModuleFlags::from_raw(3).internal());
}

#[test]
fn test_default_udp_port() {
    assert_eq!(UdpTransport::new().port, 22144);
    assert_eq!(rustfk::DEFAULT_UDP_SERVER_PORT, 22144);
}

#[test]
fn test_decimal_rendering() {
    assert_eq!(u64_to_string(0), "0");
    assert_eq!(u64_to_string(907), "907");
    assert_eq!(u64_to_string(u64::MAX), "18446744073709551615");
}

#[test]
fn test_clocks_answer() {
    // Nothing is promised of the values; the calls must simply answer.
    let _ = now_micros();
    assert!(unix_time().is_some());
}
