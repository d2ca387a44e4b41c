use std::sync::Arc;

use arrow::array::{ArrayRef, Float32Array, Int64Array};

use tiplot::codec::{LoadError, SaveError};
use tiplot::columnar::decode_batches;
use tiplot::store::DataStore;

fn ipc_bytes(cols: Vec<(&str, ArrayRef)>) -> Vec<u8> {
    let fields: Vec<arrow::datatypes::Field> = cols
        .iter()
        .map(|(n, a)| arrow::datatypes::Field::new(*n, a.data_type().clone(), true))
        .collect();
    let schema = Arc::new(arrow::datatypes::Schema::new(fields));
    let arrays: Vec<ArrayRef> = cols.into_iter().map(|(_, a)| a).collect();
    let batch = arrow::record_batch::RecordBatch::try_new(schema.clone(), arrays).unwrap();
    let mut buf: Vec<u8> = Vec::new();
    {
        let mut w = arrow::ipc::writer::StreamWriter::try_new(&mut buf, &schema).unwrap();
        w.write(&batch).unwrap();
        w.finish().unwrap();
    }
    buf
}

fn one_batch(cols: Vec<(&str, ArrayRef)>) -> tiplot::columnar::Batch {
    let buf = ipc_bytes(cols);
    let (mut batches, clean) = decode_batches(&buf);
    assert!(clean);
    batches.remove(0)
}

fn populated_store() -> DataStore {
    let mut store = DataStore::new();
    let b = one_batch(vec![
        ("timestamp", Arc::new(Int64Array::from(vec![0i64, 1_000_000, 2_000_000])) as ArrayRef),
        ("gyro_x", Arc::new(Float32Array::from(vec![0.1f32, 0.2, 0.3])) as ArrayRef),
    ]);
    store.ingest("imu".to_string(), &b);
    let b = one_batch(vec![
        ("timestamp", Arc::new(Float32Array::from(vec![0.5f32, 1.5])) as ArrayRef),
        ("alt", Arc::new(Float32Array::from(vec![100.0f32, 101.5])) as ArrayRef),
    ]);
    store.ingest("baro".to_string(), &b);
    store
}

#[test]
fn save_then_load_round_trips_every_column() {
    let mut store = populated_store();
    store.start_time = 7.5f32.to_bits();
    let bytes = store.save_to_arrow().unwrap();

    let mut loaded = DataStore::new();
    let trailing = loaded.load_from_arrow(&bytes).unwrap();
    assert_eq!(trailing, 0);

    // every retained (topic, column) pair comes back bit for bit
    for topic in store.get_topics() {
        let mut cols = store.get_columns(&topic);
        cols.push("timestamp".to_string());
        for col in cols {
            assert_eq!(
                store.get_column(&topic, &col).unwrap(),
                loaded.get_column(&topic, &col).unwrap(),
                "mismatch in {}/{}",
                topic,
                col
            );
        }
    }
    // the only permitted difference: the start time reads as zero after a load
    assert_eq!(loaded.start_time, 0);
    assert_eq!(store.start_time, 7.5f32.to_bits());
}

#[test]
fn odd_float_words_survive_bit_for_bit() {
    let mut store = DataStore::new();
    let odd = vec![f32::NAN, f32::INFINITY, f32::NEG_INFINITY, -0.0, 1.0e-45];
    let b = one_batch(vec![(
        "x",
        Arc::new(Float32Array::from(odd.clone())) as ArrayRef,
    )]);
    store.ingest("edge".to_string(), &b);
    let bytes = store.save_to_arrow().unwrap();
    let mut loaded = DataStore::new();
    loaded.load_from_arrow(&bytes).unwrap();
    let before = store.get_column("edge", "x").unwrap();
    let after = loaded.get_column("edge", "x").unwrap();
    assert_eq!(before, after);
    assert!(f32::from_bits(after[0]).is_nan());
    assert_eq!(f32::from_bits(after[3]).to_bits(), (-0.0f32).to_bits());
}

#[test]
fn save_of_empty_store_is_refused() {
    let store = DataStore::new();
    assert_eq!(store.save_to_arrow().unwrap_err(), SaveError::NoData);
}

#[test]
fn topics_without_data_are_skipped() {
    let mut store = populated_store();
    // a topic whose only column has an unsupported type stays empty
    let b = one_batch(vec![(
        "when",
        Arc::new(arrow::array::Date32Array::from(vec![1i32])) as ArrayRef,
    )]);
    store.ingest("husk".to_string(), &b);
    let bytes = store.save_to_arrow().unwrap();
    let mut loaded = DataStore::new();
    loaded.load_from_arrow(&bytes).unwrap();
    assert!(loaded.get_column("husk", "when").is_none());
    assert!(loaded.get_column("imu", "gyro_x").is_some());
    assert_eq!(loaded.get_topics(), vec!["baro", "imu"]);
}

#[test]
fn ragged_topics_cannot_be_saved() {
    let mut store = DataStore::new();
    let b1 = one_batch(vec![
        ("timestamp", Arc::new(Float32Array::from(vec![0.0f32, 1.0])) as ArrayRef),
        ("x", Arc::new(Float32Array::from(vec![1.0f32, 2.0])) as ArrayRef),
    ]);
    let b2 = one_batch(vec![(
        "timestamp",
        Arc::new(Float32Array::from(vec![2.0f32])) as ArrayRef,
    )]);
    store.ingest("t".to_string(), &b1);
    store.ingest("t".to_string(), &b2);
    assert_eq!(store.save_to_arrow().unwrap_err(), SaveError::RaggedTopic);
}

#[test]
fn oversized_payload_length_is_rejected_with_context() {
    let store = populated_store();
    let mut bytes = store.save_to_arrow().unwrap();
    // the first frame starts at byte 8: 4 name-length bytes, the name, then
    // an 8-byte payload length; declare far more payload than the file holds
    let name_len = u32::from_le_bytes(bytes[8..12].try_into().unwrap()) as usize;
    let size_at = 12 + name_len;
    bytes[size_at..size_at + 8].copy_from_slice(&u64::MAX.to_le_bytes());
    let mut loaded = DataStore::new();
    // the error carries the topic, the declared size, the offset and the
    // file size, and the payload is never read
    match loaded.load_from_arrow(&bytes).unwrap_err() {
        LoadError::PayloadOutOfBounds { topic, declared, offset, file_size } => {
            assert_eq!(topic, "imu");
            assert_eq!(declared, u64::MAX);
            assert_eq!(offset, size_at + 8);
            assert_eq!(file_size, bytes.len());
        }
        other => panic!("wrong error: {:?}", other),
    }
    assert!(loaded.is_empty());
    assert_eq!(loaded.start_time, 0);
}

#[test]
fn truncated_images_are_rejected() {
    let store = populated_store();
    let bytes = store.save_to_arrow().unwrap();
    let mut loaded = DataStore::new();
    assert_eq!(
        loaded.load_from_arrow(&bytes[..4].to_vec()).unwrap_err(),
        LoadError::TruncatedHeader { file_size: 4 }
    );
    assert_eq!(
        loaded.load_from_arrow(&bytes[..9].to_vec()).unwrap_err(),
        LoadError::TruncatedTopic { offset: 8, file_size: 9 }
    );
    let cut = bytes.len() - 3;
    assert!(matches!(
        loaded.load_from_arrow(&bytes[..cut].to_vec()).unwrap_err(),
        LoadError::PayloadOutOfBounds { .. }
    ));
}

#[test]
fn garbage_payload_is_rejected() {
    let store = populated_store();
    let mut bytes = store.save_to_arrow().unwrap();
    // scramble the first payload byte stream in place
    let name_len = u32::from_le_bytes(bytes[8..12].try_into().unwrap()) as usize;
    let payload_at = 12 + name_len + 8;
    for b in bytes[payload_at..payload_at + 8].iter_mut() {
        *b = 0xAB;
    }
    let mut loaded = DataStore::new();
    match loaded.load_from_arrow(&bytes).unwrap_err() {
        LoadError::BadPayload { topic, offset } => {
            assert_eq!(topic, "imu");
            assert_eq!(offset, payload_at);
        }
        other => panic!("wrong error: {:?}", other),
    }
}

#[test]
fn load_keeps_only_float_columns_of_foreign_payloads() {
    // a hand-framed image whose payload mixes a 64-bit integer column with a
    // 32-bit float column: only the float column lands
    let payload = ipc_bytes(vec![
        ("a", Arc::new(Int64Array::from(vec![1i64, 2])) as ArrayRef),
        ("b", Arc::new(Float32Array::from(vec![1.5f32, 2.5])) as ArrayRef),
    ]);
    let mut bytes: Vec<u8> = Vec::new();
    bytes.extend_from_slice(&1u32.to_le_bytes());
    bytes.extend_from_slice(&0u32.to_le_bytes());
    bytes.extend_from_slice(&("mix".len() as u32).to_le_bytes());
    bytes.extend_from_slice("mix".as_bytes());
    bytes.extend_from_slice(&(payload.len() as u64).to_le_bytes());
    bytes.extend_from_slice(&payload);
    let mut loaded = DataStore::new();
    assert_eq!(loaded.load_from_arrow(&bytes).unwrap(), 0);
    assert!(loaded.get_column("mix", "a").is_none());
    let b: Vec<f32> = loaded
        .get_column("mix", "b")
        .unwrap()
        .iter()
        .map(|w| f32::from_bits(*w))
        .collect();
    assert_eq!(b, vec![1.5, 2.5]);
}

#[test]
fn trailing_bytes_are_reported_not_fatal() {
    let store = populated_store();
    let mut bytes = store.save_to_arrow().unwrap();
    bytes.extend_from_slice(&[1, 2, 3, 4, 5]);
    let mut loaded = DataStore::new();
    assert_eq!(loaded.load_from_arrow(&bytes).unwrap(), 5);
    assert_eq!(
        loaded.get_column("imu", "gyro_x").unwrap(),
        store.get_column("imu", "gyro_x").unwrap()
    );
}

#[test]
fn load_replaces_previous_contents() {
    let donor = populated_store();
    let bytes = donor.save_to_arrow().unwrap();
    let mut store = DataStore::new();
    let b = one_batch(vec![("x", Arc::new(Float32Array::from(vec![9.0f32])) as ArrayRef)]);
    store.ingest("old".to_string(), &b);
    store.load_from_arrow(&bytes).unwrap();
    assert!(store.get_column("old", "x").is_none());
    assert!(store.get_column("imu", "timestamp").is_some());
}
