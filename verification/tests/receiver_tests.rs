use std::sync::Arc;

use arrow::array::{ArrayRef, Float32Array, Int64Array};

use tiplot::receiver::{Connection, DataMessage};
use tiplot::store::DataStore;

fn ipc_bytes(cols: Vec<(&str, ArrayRef)>) -> Vec<u8> {
    let fields: Vec<arrow::datatypes::Field> = cols
        .iter()
        .map(|(n, a)| arrow::datatypes::Field::new(*n, a.data_type().clone(), true))
        .collect();
    let schema = Arc::new(arrow::datatypes::Schema::new(fields));
    let arrays: Vec<ArrayRef> = cols.into_iter().map(|(_, a)| a).collect();
    let batch = arrow::record_batch::RecordBatch::try_new(schema.clone(), arrays).unwrap();
    let mut buf: Vec<u8> = Vec::new();
    {
        let mut w = arrow::ipc::writer::StreamWriter::try_new(&mut buf, &schema).unwrap();
        w.write(&batch).unwrap();
        w.finish().unwrap();
    }
    buf
}

fn metadata_json(table_count: usize, names: &[&str], min: i64, max: i64) -> Vec<u8> {
    let names_json: Vec<String> = names.iter().map(|n| format!("\"{}\"", n)).collect();
    format!(
        "{{\"parameters\":{{}},\"version_info\":{{}},\"table_count\":{},\"table_names\":[{}],\
         \"timeline_range\":{{\"min_timestamp\":{},\"max_timestamp\":{}}}}}",
        table_count,
        names_json.join(","),
        min,
        max
    )
    .into_bytes()
}

/// Drives one connection over a pre-recorded byte stream, reading exactly
/// what the machine asks for, as the socket driver does.
fn run(conn: &mut Connection, stream: &[u8]) -> Vec<DataMessage> {
    let mut events = Vec::new();
    let mut pos = 0usize;
    while !conn.finished() {
        let n = conn.needed();
        if pos + n > stream.len() {
            break;
        }
        let chunk = stream[pos..pos + n].to_vec();
        pos += n;
        events.extend(conn.feed(chunk));
    }
    events
}

fn full_stream() -> Vec<u8> {
    let payload = ipc_bytes(vec![
        ("timestamp", Arc::new(Int64Array::from(vec![0i64, 1_000_000])) as ArrayRef),
        ("v", Arc::new(Float32Array::from(vec![4.0f32, 8.0])) as ArrayRef),
    ]);
    let meta = metadata_json(1, &["imu"], 0, 2_000_000);
    let mut stream = Vec::new();
    stream.extend_from_slice(&(meta.len() as u32).to_le_bytes());
    stream.extend_from_slice(&meta);
    stream.extend_from_slice(&("imu".len() as u32).to_le_bytes());
    stream.extend_from_slice("imu".as_bytes());
    stream.extend_from_slice(&(payload.len() as u64).to_le_bytes());
    stream.extend_from_slice(&payload);
    stream
}

#[test]
fn valid_connection_emits_metadata_then_batches() {
    let mut conn = Connection::new();
    let events = run(&mut conn, &full_stream());
    assert!(conn.finished());
    assert_eq!(events.len(), 2);
    match &events[0] {
        DataMessage::Metadata(r) => {
            assert_eq!(r.min_timestamp, Some(0));
            assert_eq!(r.max_timestamp, Some(2_000_000));
        }
        _ => panic!("first event must be the metadata"),
    }
    match &events[1] {
        DataMessage::NewBatch(name, batch) => {
            assert_eq!(name, "imu");
            let mut store = DataStore::new();
            store.ingest(name.clone(), batch);
            let times: Vec<f32> = store
                .get_column("imu", "timestamp")
                .unwrap()
                .iter()
                .map(|w| f32::from_bits(*w))
                .collect();
            assert_eq!(times, vec![0.0, 1.0]);
        }
        _ => panic!("second event must be a batch"),
    }
}

#[test]
fn malformed_metadata_aborts_without_events() {
    let mut conn = Connection::new();
    let garbage = b"this is not json".to_vec();
    let mut stream = Vec::new();
    stream.extend_from_slice(&(garbage.len() as u32).to_le_bytes());
    stream.extend_from_slice(&garbage);
    let events = run(&mut conn, &stream);
    assert!(conn.finished());
    assert!(events.is_empty());
}

#[test]
fn connections_fail_independently() {
    // one connection sends a malformed metadata frame, another the full
    // protocol; the bad one aborts, the good one's events arrive in order
    let mut bad = Connection::new();
    let mut good = Connection::new();
    let mut bad_stream = Vec::new();
    bad_stream.extend_from_slice(&4u32.to_le_bytes());
    bad_stream.extend_from_slice(b"{{{{");
    let bad_events = run(&mut bad, &bad_stream);
    let good_events = run(&mut good, &full_stream());
    assert!(bad_events.is_empty());
    assert_eq!(good_events.len(), 2);
    assert!(matches!(good_events[0], DataMessage::Metadata(_)));
    assert!(matches!(good_events[1], DataMessage::NewBatch(_, _)));
}

#[test]
fn zero_tables_finish_after_metadata() {
    let meta = metadata_json(0, &[], 1, 2);
    let mut stream = Vec::new();
    stream.extend_from_slice(&(meta.len() as u32).to_le_bytes());
    stream.extend_from_slice(&meta);
    let mut conn = Connection::new();
    let events = run(&mut conn, &stream);
    assert_eq!(events.len(), 1);
    assert!(matches!(events[0], DataMessage::Metadata(_)));
    assert!(conn.finished());
}

#[test]
fn undecodable_table_is_skipped_and_the_next_arrives() {
    let meta = metadata_json(2, &["junk", "imu"], 0, 1);
    let payload = ipc_bytes(vec![(
        "v",
        Arc::new(Float32Array::from(vec![1.0f32])) as ArrayRef,
    )]);
    let junk = vec![0xABu8; 16];
    let mut stream = Vec::new();
    stream.extend_from_slice(&(meta.len() as u32).to_le_bytes());
    stream.extend_from_slice(&meta);
    for (name, body) in [("junk", &junk), ("imu", &payload)] {
        stream.extend_from_slice(&(name.len() as u32).to_le_bytes());
        stream.extend_from_slice(name.as_bytes());
        stream.extend_from_slice(&(body.len() as u64).to_le_bytes());
        stream.extend_from_slice(body);
    }
    let mut conn = Connection::new();
    let events = run(&mut conn, &stream);
    assert!(conn.finished());
    assert_eq!(events.len(), 2);
    assert!(matches!(events[0], DataMessage::Metadata(_)));
    match &events[1] {
        DataMessage::NewBatch(name, _) => assert_eq!(name, "imu"),
        _ => panic!("expected the second table's batch"),
    }
}

#[test]
fn metadata_with_null_bounds_parses() {
    let meta = b"{\"parameters\":{},\"version_info\":{},\"table_count\":0,\"table_names\":[],\
                  \"timeline_range\":{\"min_timestamp\":null,\"max_timestamp\":null}}"
        .to_vec();
    let mut stream = Vec::new();
    stream.extend_from_slice(&(meta.len() as u32).to_le_bytes());
    stream.extend_from_slice(&meta);
    let mut conn = Connection::new();
    let events = run(&mut conn, &stream);
    match &events[0] {
        DataMessage::Metadata(r) => {
            assert_eq!(r.min_timestamp, None);
            assert_eq!(r.max_timestamp, None);
        }
        _ => panic!("expected metadata"),
    }
}

#[test]
fn missing_required_fields_abort() {
    let meta = b"{\"table_count\":1}".to_vec();
    let mut stream = Vec::new();
    stream.extend_from_slice(&(meta.len() as u32).to_le_bytes());
    stream.extend_from_slice(&meta);
    let mut conn = Connection::new();
    let events = run(&mut conn, &stream);
    assert!(events.is_empty());
    assert!(conn.finished());
}
