use std::sync::Arc;

use arrow::array::{
    Array, ArrayRef, BooleanArray, Date32Array, Float32Array, Float64Array, Int8Array, Int16Array,
    Int32Array, Int64Array, StringArray, UInt8Array, UInt16Array, UInt32Array, UInt64Array,
};
use arrow::datatypes::{Field, Schema};
use arrow::record_batch::RecordBatch;

use tiplot::columnar::{decode_batches, Batch};
use tiplot::interp::{InterpResult, InterpolationMode};
use tiplot::receiver::TimelineRange;
use tiplot::store::{DataStore, F32_NAN_WORD};

fn ipc_bytes(cols: Vec<(&str, ArrayRef)>) -> Vec<u8> {
    let fields: Vec<Field> = cols
        .iter()
        .map(|(n, a)| Field::new(*n, a.data_type().clone(), true))
        .collect();
    let schema = Arc::new(Schema::new(fields));
    let arrays: Vec<ArrayRef> = cols.into_iter().map(|(_, a)| a).collect();
    let batch = RecordBatch::try_new(schema.clone(), arrays).unwrap();
    let mut buf: Vec<u8> = Vec::new();
    {
        let mut w = arrow::ipc::writer::StreamWriter::try_new(&mut buf, &schema).unwrap();
        w.write(&batch).unwrap();
        w.finish().unwrap();
    }
    buf
}

fn one_batch(cols: Vec<(&str, ArrayRef)>) -> Batch {
    let bytes = ipc_bytes(cols);
    let (mut batches, clean) = decode_batches(&bytes);
    assert!(clean);
    assert_eq!(batches.len(), 1);
    batches.remove(0)
}

fn floats(store: &DataStore, topic: &str, col: &str) -> Vec<f32> {
    store
        .get_column(topic, col)
        .unwrap()
        .iter()
        .map(|w| f32::from_bits(*w))
        .collect()
}

#[test]
fn ingest_normalizes_integer_timestamps() {
    let mut store = DataStore::new();
    let batch = one_batch(vec![
        ("timestamp", Arc::new(Int64Array::from(vec![0i64, 1_000_000, 2_000_000])) as ArrayRef),
        ("gyro_x", Arc::new(Float32Array::from(vec![0.1f32, 0.2, 0.3])) as ArrayRef),
    ]);
    store.ingest("imu".to_string(), &batch);
    assert_eq!(floats(&store, "imu", "timestamp"), vec![0.0, 1.0, 2.0]);
    assert_eq!(floats(&store, "imu", "gyro_x"), vec![0.1, 0.2, 0.3]);

    // the query at t = 0.5 blends the first two gyro samples
    let r = store.query_value("imu", "gyro_x", 0.5f32.to_bits(), InterpolationMode::Linear);
    match r {
        InterpResult::Bracket { lo, hi } => {
            assert_eq!((lo, hi), (0, 1));
            let v = 0.1f32 + (0.5 - 0.0) / (1.0 - 0.0) * (0.2f32 - 0.1f32);
            assert!((v - 0.15).abs() < 1e-6);
        }
        _ => panic!("expected a bracket"),
    }
}

#[test]
fn start_time_shifts_timestamps() {
    let mut store = DataStore::new();
    store.observe_metadata(&TimelineRange {
        min_timestamp: Some(5_000_000),
        max_timestamp: Some(9_000_000),
    });
    assert_eq!(f32::from_bits(store.start_time), 5.0);
    let batch = one_batch(vec![(
        "timestamp",
        Arc::new(Int64Array::from(vec![5_000_000i64, 6_500_000])) as ArrayRef,
    )]);
    store.ingest("a".to_string(), &batch);
    assert_eq!(floats(&store, "a", "timestamp"), vec![0.0, 1.5]);
}

#[test]
fn start_time_freezes_after_first_metadata() {
    let mut store = DataStore::new();
    store.observe_metadata(&TimelineRange {
        min_timestamp: Some(5_000_000),
        max_timestamp: Some(9_000_000),
    });
    store.observe_metadata(&TimelineRange {
        min_timestamp: Some(7_000_000),
        max_timestamp: Some(9_000_000),
    });
    assert_eq!(f32::from_bits(store.start_time), 5.0);
    // a lower bound alone is enough to set it; an absent one never does
    let mut other = DataStore::new();
    other.observe_metadata(&TimelineRange { min_timestamp: None, max_timestamp: Some(9) });
    assert_eq!(other.start_time, 0);
    other.observe_metadata(&TimelineRange { min_timestamp: Some(1_000_000), max_timestamp: None });
    assert_eq!(f32::from_bits(other.start_time), 1.0);
}

#[test]
fn coercions_cover_the_column_kinds() {
    let mut store = DataStore::new();
    let batch = one_batch(vec![
        ("i", Arc::new(Int32Array::from(vec![42i32, -7])) as ArrayRef),
        ("u", Arc::new(UInt8Array::from(vec![3u8, 255])) as ArrayRef),
        ("b", Arc::new(BooleanArray::from(vec![true, false])) as ArrayRef),
        ("d", Arc::new(Float64Array::from(vec![2.5f64, -0.25])) as ArrayRef),
        ("big", Arc::new(UInt64Array::from(vec![1u64 << 40, 1])) as ArrayRef),
    ]);
    let dropped = store.ingest("t".to_string(), &batch);
    assert!(dropped.is_empty());
    assert_eq!(floats(&store, "t", "i"), vec![42.0, -7.0]);
    assert_eq!(floats(&store, "t", "u"), vec![3.0, 255.0]);
    assert_eq!(floats(&store, "t", "b"), vec![1.0, 0.0]);
    assert_eq!(floats(&store, "t", "d"), vec![2.5, -0.25]);
    assert_eq!(floats(&store, "t", "big"), vec![(1u64 << 40) as f32, 1.0]);
}

#[test]
fn unsigned_timestamps_normalize_like_signed_ones() {
    let mut store = DataStore::new();
    store.observe_metadata(&TimelineRange {
        min_timestamp: Some(2_000_000),
        max_timestamp: Some(4_000_000),
    });
    let batch = one_batch(vec![(
        "timestamp",
        Arc::new(UInt64Array::from(vec![2_000_000u64, 3_500_000])) as ArrayRef,
    )]);
    store.ingest("u".to_string(), &batch);
    // divide and subtract in 64-bit precision, then narrow once
    let expected: Vec<f32> = vec![
        (2_000_000u64 as f64 / 1e6 - 2.0) as f32,
        (3_500_000u64 as f64 / 1e6 - 2.0) as f32,
    ];
    assert_eq!(floats(&store, "u", "timestamp"), expected);
    assert_eq!(floats(&store, "u", "timestamp"), vec![0.0, 1.5]);
}

#[test]
fn narrow_integer_widths_coerce() {
    let mut store = DataStore::new();
    let batch = one_batch(vec![
        ("a", Arc::new(Int8Array::from(vec![-8i8, 7])) as ArrayRef),
        ("b", Arc::new(Int16Array::from(vec![-300i16, 300])) as ArrayRef),
        ("c", Arc::new(UInt16Array::from(vec![9u16, 65535])) as ArrayRef),
        ("d", Arc::new(UInt32Array::from(vec![1u32, 4_000_000_000])) as ArrayRef),
        ("e", Arc::new(Int64Array::from(vec![-5i64, 5])) as ArrayRef),
    ]);
    store.ingest("t".to_string(), &batch);
    assert_eq!(floats(&store, "t", "a"), vec![-8.0, 7.0]);
    assert_eq!(floats(&store, "t", "b"), vec![-300.0, 300.0]);
    assert_eq!(floats(&store, "t", "c"), vec![9.0, 65535.0]);
    assert_eq!(floats(&store, "t", "d"), vec![1.0, 4_000_000_000u32 as f32]);
    assert_eq!(floats(&store, "t", "e"), vec![-5.0, 5.0]);
}

#[test]
fn text_columns_hash_deterministically() {
    let mut store = DataStore::new();
    let batch = one_batch(vec![(
        "mode",
        Arc::new(StringArray::from(vec![Some("auto"), Some("manual"), Some("auto"), None]))
            as ArrayRef,
    )]);
    store.ingest("t".to_string(), &batch);
    let words = store.get_column("t", "mode").unwrap();
    assert_eq!(words.len(), 4);
    // equal strings map to equal numbers within one run
    assert_eq!(words[0], words[2]);
    let v = f32::from_bits(words[0]);
    assert!((0.0..1000.0).contains(&v));
    // absent text reads as NaN
    assert_eq!(words[3], F32_NAN_WORD);
    assert!(f32::from_bits(words[3]).is_nan());
}

#[test]
fn unsupported_types_leave_an_empty_column_and_are_reported() {
    let mut store = DataStore::new();
    let batch = one_batch(vec![
        ("when", Arc::new(Date32Array::from(vec![1i32, 2])) as ArrayRef),
        ("x", Arc::new(Float32Array::from(vec![1.5f32, 2.5])) as ArrayRef),
    ]);
    let dropped = store.ingest("t".to_string(), &batch);
    // the unhandled column exists but holds nothing, is named as dropped,
    // and the rest landed
    assert_eq!(dropped, vec!["when"]);
    assert_eq!(store.get_column("t", "when").unwrap().len(), 0);
    assert_eq!(floats(&store, "t", "x"), vec![1.5, 2.5]);
}

#[test]
fn batches_append_to_existing_columns() {
    let mut store = DataStore::new();
    let b1 = one_batch(vec![("x", Arc::new(Float32Array::from(vec![1.0f32])) as ArrayRef)]);
    let b2 = one_batch(vec![("x", Arc::new(Float32Array::from(vec![2.0f32, 3.0])) as ArrayRef)]);
    store.ingest("t".to_string(), &b1);
    store.ingest("t".to_string(), &b2);
    assert_eq!(floats(&store, "t", "x"), vec![1.0, 2.0, 3.0]);
}

#[test]
fn get_topics_is_sorted() {
    let mut store = DataStore::new();
    for name in ["zeta", "alpha", "mid"] {
        let b = one_batch(vec![("x", Arc::new(Float32Array::from(vec![1.0f32])) as ArrayRef)]);
        store.ingest(name.to_string(), &b);
    }
    assert_eq!(store.get_topics(), vec!["alpha", "mid", "zeta"]);
}

#[test]
fn get_columns_uses_natural_order_and_drops_timestamp() {
    let mut store = DataStore::new();
    let b = one_batch(vec![
        ("a10", Arc::new(Float32Array::from(vec![1.0f32])) as ArrayRef),
        ("timestamp", Arc::new(Float32Array::from(vec![0.0f32])) as ArrayRef),
        ("a2", Arc::new(Float32Array::from(vec![1.0f32])) as ArrayRef),
        ("b", Arc::new(Float32Array::from(vec![1.0f32])) as ArrayRef),
    ]);
    store.ingest("t".to_string(), &b);
    assert_eq!(store.get_columns("t"), vec!["a2", "a10", "b"]);
    assert_eq!(store.get_columns("missing").len(), 0);
}

#[test]
fn missing_lookups_read_as_nothing() {
    let store = DataStore::new();
    assert!(store.get_column("nope", "x").is_none());
    assert!(store.is_empty());
    assert_eq!(
        store.query_value("nope", "x", 0, InterpolationMode::Linear),
        InterpResult::NoValue
    );
}

#[test]
fn clear_empties_the_store() {
    let mut store = DataStore::new();
    let b = one_batch(vec![("x", Arc::new(Float32Array::from(vec![1.0f32])) as ArrayRef)]);
    store.ingest("t".to_string(), &b);
    store.observe_metadata(&TimelineRange { min_timestamp: Some(1), max_timestamp: Some(2) });
    assert!(!store.is_empty());
    store.clear();
    assert!(store.is_empty());
    assert_eq!(store.start_time, 0);
}
