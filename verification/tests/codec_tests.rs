use rustfk::codec::emit_bytes_field;
use rustfk::codec::emit_delimited;
use rustfk::codec::emit_varint;
use rustfk::codec::emit_varint_field;
use rustfk::codec::encode_status_query;
use rustfk::codec::hex_encode;
use rustfk::codec::parse_varint;
use rustfk::codec::Announce;
use rustfk::reply::parse_http_reply;

fn identity_body(device: &[u8]) -> Vec<u8> {
    let mut body = Vec::new();
    emit_bytes_field(&mut body, 1, device);
    body
}

fn status_body(device: &[u8], logs: Option<&[u8]>) -> Vec<u8> {
    let mut body = Vec::new();
    let idb = identity_body(device);
    emit_bytes_field(&mut body, 1, idb.as_slice());
    if let Some(logs) = logs {
        emit_bytes_field(&mut body, 2, logs);
    }
    body
}

#[test]
pub fn test_parse_status() {
    let st = status_body(b"Early Impala 91", None);
    let mut rb = Vec::new();
    emit_bytes_field(&mut rb, 2, st.as_slice());
    let data = emit_delimited(rb.as_slice());

    let parsed = parse_http_reply(data.as_slice()).unwrap();
    let status = parsed.status.unwrap();
    assert_eq!(status.identity.unwrap().device, b"Early Impala 91".to_vec());
}

#[test]
pub fn test_parse_status_with_logs() {
    let logs = vec![b'.'; 32266];
    let st = status_body(b"Early Impala 91", Some(logs.as_slice()));
    let mut rb = Vec::new();
    emit_bytes_field(&mut rb, 2, st.as_slice());
    let data = emit_delimited(rb.as_slice());

    let parsed = parse_http_reply(data.as_slice()).unwrap();
    let status = parsed.status.unwrap();
    assert_eq!(status.identity.unwrap().device, b"Early Impala 91".to_vec());
    assert_eq!(status.logs.len(), 32266);
}

#[test]
pub fn test_parse_status_with_readings() {
    let st = status_body(b"Early Impala 91", None);
    let mut live = Vec::new();
    for position in 0..3u64 {
        let mut module = Vec::new();
        emit_varint_field(&mut module, 1, position);
        emit_bytes_field(&mut live, 1, module.as_slice());
    }
    let mut rb = Vec::new();
    emit_bytes_field(&mut rb, 2, st.as_slice());
    emit_bytes_field(&mut rb, 3, live.as_slice());
    let data = emit_delimited(rb.as_slice());

    let parsed = parse_http_reply(data.as_slice()).unwrap();
    let status = parsed.status.unwrap();
    assert_eq!(status.identity.unwrap().device, b"Early Impala 91".to_vec());
    let modules = &parsed.live_readings[0].modules;
    assert_eq!(modules.len(), 3);
}

#[test]
fn test_varint_round_trip() {
    for n in [0u64, 1, 127, 128, 300, 16384, u64::MAX] {
        let mut bytes = Vec::new();
        emit_varint(&mut bytes, n);
        let (v, next) = parse_varint(bytes.as_slice(), 0).unwrap();
        assert_eq!(v, n);
        assert_eq!(next, bytes.len());
    }
}

#[test]
fn test_hex_encode_is_lowercase_pairs() {
    assert_eq!(hex_encode(&[0x00, 0x1f, 0xab, 0xff]), "001fabff");
    assert_eq!(hex_encode(&[]), "");
}

#[test]
fn test_status_query_bytes() {
    let bytes = encode_status_query(1, 5);
    assert_eq!(bytes, vec![4u8, 8, 1, 16, 5]);

    let (time, stamped) = rustfk::codec::status_query_now();
    assert_eq!(stamped, encode_status_query(1, time));
}

fn hello_announce(device: &[u8], port: Option<u16>) -> Vec<u8> {
    let mut body = Vec::new();
    emit_bytes_field(&mut body, 1, device);
    if let Some(port) = port {
        emit_varint_field(&mut body, 4, port as u64);
    }
    // The announce starts with a plain length prefix.
    let mut data = Vec::new();
    emit_varint(&mut data, body.len() as u64);
    data.extend_from_slice(body.as_slice());
    data
}

#[test]
fn test_parse_announce_hello_with_port() {
    let data = hello_announce(&[0x01, 0x02, 0x03], Some(2380));
    match Announce::parse(data.as_slice()).unwrap() {
        Announce::Hello(id, port) => {
            assert_eq!(id.0, "010203");
            assert_eq!(port, 2380);
        },
        Announce::Bye(_) => panic!("expected a greeting"),
    }
}

#[test]
fn test_parse_announce_hello_default_port() {
    let data = hello_announce(&[0xab, 0xcd], None);
    match Announce::parse(data.as_slice()).unwrap() {
        Announce::Hello(id, port) => {
            assert_eq!(id.0, "abcd");
            assert_eq!(port, 80);
        },
        Announce::Bye(_) => panic!("expected a greeting"),
    }
}

#[test]
fn test_parse_announce_trailing_fields_mark_bye() {
    let mut data = hello_announce(&[0xab, 0xcd], Some(80));
    // A trailing varint field after the port marks a goodbye.
    emit_varint_field(&mut data, 7, 1);
    match Announce::parse(data.as_slice()).unwrap() {
        Announce::Hello(_, _) => panic!("expected a goodbye"),
        Announce::Bye(id) => {
            assert_eq!(id.0, "abcd");
        },
    }
}

#[test]
fn test_parse_announce_rejects_wrong_first_tag() {
    let mut body = Vec::new();
    emit_bytes_field(&mut body, 3, &[0x01]);
    let mut data = Vec::new();
    emit_varint(&mut data, body.len() as u64);
    data.extend_from_slice(body.as_slice());
    assert!(Announce::parse(data.as_slice()).is_none());
}

#[test]
fn test_announce_accessors() {
    let hello = Announce::parse(hello_announce(&[0x01], Some(81)).as_slice()).unwrap();
    assert_eq!(hello.device_id().0, "01");
    assert_eq!(hello.port(), Some(81));
}
