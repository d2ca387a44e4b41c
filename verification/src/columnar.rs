//! Trusted boundary to the `arrow` columnar library.
//!
//! A decoded batch is an opaque [`arrow::record_batch::RecordBatch`]; the
//! uninterpreted function [`batch_columns`] names its contents as a sequence
//! of (column name, typed values) pairs, and small trusted wrappers expose the
//! accessors the verified code needs. The wrappers that produce new 32-bit
//! sample words (numeric casts, timestamp normalization, the hash-to-unit
//! reduction) name their results, since the floating-point arithmetic behind
//! them cannot be stated here; each result is a function of the arguments
//! alone.

use vstd::prelude::*;

use std::sync::Arc;

use arrow::array::{Array, Float32Array, Float64Array, Int64Array, UInt64Array};
use arrow::buffer::{Buffer, ScalarBuffer};
use arrow::compute::{cast, kernels::numeric};
use arrow::datatypes::DataType;
use arrow::ipc::reader::StreamReader;
use arrow::ipc::writer::StreamWriter;
use arrow::record_batch::RecordBatch;

verus! {

/// The typed contents of one decoded column, as mathematical sequences.
/// Floating-point columns are carried as their raw bit words.
pub enum ColumnData {
    F32(Seq<u32>),
    F64(Seq<u64>),
    I8(Seq<i8>),
    I16(Seq<i16>),
    I32(Seq<i32>),
    I64(Seq<i64>),
    U8(Seq<u8>),
    U16(Seq<u16>),
    U32(Seq<u32>),
    U64(Seq<u64>),
    Bool(Seq<bool>),
    Utf8(Seq<Option<Seq<char>>>),
    Other,
}

/// One decoded columnar batch, held opaquely. Verus refuses a declaration of
/// the underlying batch type itself (its impls mention the library's array
/// trait), so the batch sits in a hidden field and [`batch_columns`] names
/// what it holds.
#[verifier::external_body]
pub struct Batch {
    rb: RecordBatch,
}

/// The (column name, typed values) pairs held by a decoded batch, in schema
/// order.
pub uninterp spec fn batch_columns(b: Batch) -> Seq<(Seq<char>, ColumnData)>;

/// The byte encoding that the columnar library's stream writer produces for a
/// single batch of named 32-bit float columns, given as (name, sample words).
pub uninterp spec fn ipc_payload(cols: Seq<(Seq<char>, Seq<u32>)>) -> Seq<u8>;

/// The columns of each batch that the columnar stream reader decodes from a
/// byte stream, in stream order: the decoder's whole output, which depends on
/// the bytes alone. A stream that fails part-way contributes the batches
/// decoded before the failure.
pub uninterp spec fn ipc_contents(bytes: Seq<u8>) -> Seq<Seq<(Seq<char>, ColumnData)>>;

/// Whether the columnar stream reader parses the byte stream to its end
/// without an error; depends on the bytes alone.
pub uninterp spec fn ipc_clean(bytes: Seq<u8>) -> bool;

/// Relies on `RecordBatch::num_columns`: the number of columns in the batch.
#[verifier::external_body]
pub(crate) fn rb_num_columns(b: &Batch) -> (r: usize)
    ensures
        r == batch_columns(*b).len(),
{
    b.rb.num_columns()
}

/// Relies on `RecordBatch::schema` and `Field::name`: the name of column `i`.
#[verifier::external_body]
pub(crate) fn rb_col_name(b: &Batch, i: usize) -> (r: String)
    requires
        i < batch_columns(*b).len(),
    ensures
        r@ == batch_columns(*b)[i as int].0,
{
    b.rb.schema().field(i).name().clone()
}

/// Relies on the downcast to `Float32Array` and its raw `values` buffer:
/// succeeds exactly on 32-bit float columns, yielding their bit words.
#[verifier::external_body]
pub(crate) fn rb_col_f32(b: &Batch, i: usize) -> (r: Option<Vec<u32>>)
    requires
        i < batch_columns(*b).len(),
    ensures
        (match batch_columns(*b)[i as int].1 {
            ColumnData::F32(s) => r matches Some(v) && v@ == s,
            _ => r is None,
        }),
{
    let a = b.rb.column(i).as_any().downcast_ref::<Float32Array>()?;
    Some(a.values().iter().map(|v| v.to_bits()).collect())
}

/// Relies on the downcast to `Float64Array` and its raw `values` buffer:
/// succeeds exactly on 64-bit float columns, yielding their bit words.
#[verifier::external_body]
pub(crate) fn rb_col_f64(b: &Batch, i: usize) -> (r: Option<Vec<u64>>)
    requires
        i < batch_columns(*b).len(),
    ensures
        (match batch_columns(*b)[i as int].1 {
            ColumnData::F64(s) => r matches Some(v) && v@ == s,
            _ => r is None,
        }),
{
    let a = b.rb.column(i).as_any().downcast_ref::<Float64Array>()?;
    Some(a.values().iter().map(|v| v.to_bits()).collect())
}

/// Relies on the downcast to `Int8Array` and its raw `values` buffer.
#[verifier::external_body]
pub(crate) fn rb_col_i8(b: &Batch, i: usize) -> (r: Option<Vec<i8>>)
    requires
        i < batch_columns(*b).len(),
    ensures
        (match batch_columns(*b)[i as int].1 {
            ColumnData::I8(s) => r matches Some(v) && v@ == s,
            _ => r is None,
        }),
{
    let a = b.rb.column(i).as_any().downcast_ref::<arrow::array::Int8Array>()?;
    Some(a.values().to_vec())
}

/// Relies on the downcast to `Int16Array` and its raw `values` buffer.
#[verifier::external_body]
pub(crate) fn rb_col_i16(b: &Batch, i: usize) -> (r: Option<Vec<i16>>)
    requires
        i < batch_columns(*b).len(),
    ensures
        (match batch_columns(*b)[i as int].1 {
            ColumnData::I16(s) => r matches Some(v) && v@ == s,
            _ => r is None,
        }),
{
    let a = b.rb.column(i).as_any().downcast_ref::<arrow::array::Int16Array>()?;
    Some(a.values().to_vec())
}

/// Relies on the downcast to `Int32Array` and its raw `values` buffer.
#[verifier::external_body]
pub(crate) fn rb_col_i32(b: &Batch, i: usize) -> (r: Option<Vec<i32>>)
    requires
        i < batch_columns(*b).len(),
    ensures
        (match batch_columns(*b)[i as int].1 {
            ColumnData::I32(s) => r matches Some(v) && v@ == s,
            _ => r is None,
        }),
{
    let a = b.rb.column(i).as_any().downcast_ref::<arrow::array::Int32Array>()?;
    Some(a.values().to_vec())
}

/// Relies on the downcast to `Int64Array` and its raw `values` buffer.
#[verifier::external_body]
pub(crate) fn rb_col_i64(b: &Batch, i: usize) -> (r: Option<Vec<i64>>)
    requires
        i < batch_columns(*b).len(),
    ensures
        (match batch_columns(*b)[i as int].1 {
            ColumnData::I64(s) => r matches Some(v) && v@ == s,
            _ => r is None,
        }),
{
    let a = b.rb.column(i).as_any().downcast_ref::<arrow::array::Int64Array>()?;
    Some(a.values().to_vec())
}

/// Relies on the downcast to `UInt8Array` and its raw `values` buffer.
#[verifier::external_body]
pub(crate) fn rb_col_u8(b: &Batch, i: usize) -> (r: Option<Vec<u8>>)
    requires
        i < batch_columns(*b).len(),
    ensures
        (match batch_columns(*b)[i as int].1 {
            ColumnData::U8(s) => r matches Some(v) && v@ == s,
            _ => r is None,
        }),
{
    let a = b.rb.column(i).as_any().downcast_ref::<arrow::array::UInt8Array>()?;
    Some(a.values().to_vec())
}

/// Relies on the downcast to `UInt16Array` and its raw `values` buffer.
#[verifier::external_body]
pub(crate) fn rb_col_u16(b: &Batch, i: usize) -> (r: Option<Vec<u16>>)
    requires
        i < batch_columns(*b).len(),
    ensures
        (match batch_columns(*b)[i as int].1 {
            ColumnData::U16(s) => r matches Some(v) && v@ == s,
            _ => r is None,
        }),
{
    let a = b.rb.column(i).as_any().downcast_ref::<arrow::array::UInt16Array>()?;
    Some(a.values().to_vec())
}

/// Relies on the downcast to `UInt32Array` and its raw `values` buffer.
#[verifier::external_body]
pub(crate) fn rb_col_u32(b: &Batch, i: usize) -> (r: Option<Vec<u32>>)
    requires
        i < batch_columns(*b).len(),
    ensures
        (match batch_columns(*b)[i as int].1 {
            ColumnData::U32(s) => r matches Some(v) && v@ == s,
            _ => r is None,
        }),
{
    let a = b.rb.column(i).as_any().downcast_ref::<arrow::array::UInt32Array>()?;
    Some(a.values().to_vec())
}

/// Relies on the downcast to `UInt64Array` and its raw `values` buffer.
#[verifier::external_body]
pub(crate) fn rb_col_u64(b: &Batch, i: usize) -> (r: Option<Vec<u64>>)
    requires
        i < batch_columns(*b).len(),
    ensures
        (match batch_columns(*b)[i as int].1 {
            ColumnData::U64(s) => r matches Some(v) && v@ == s,
            _ => r is None,
        }),
{
    let a = b.rb.column(i).as_any().downcast_ref::<arrow::array::UInt64Array>()?;
    Some(a.values().to_vec())
}

/// Relies on the downcast to `BooleanArray` and its raw `values` bitmap.
#[verifier::external_body]
pub(crate) fn rb_col_bool(b: &Batch, i: usize) -> (r: Option<Vec<bool>>)
    requires
        i < batch_columns(*b).len(),
    ensures
        (match batch_columns(*b)[i as int].1 {
            ColumnData::Bool(s) => r matches Some(v) && v@ == s,
            _ => r is None,
        }),
{
    let a = b.rb.column(i).as_any().downcast_ref::<arrow::array::BooleanArray>()?;
    Some(a.values().iter().collect())
}

/// Relies on the downcast to `StringArray` and its iterator, which yields
/// `None` for null entries.
#[verifier::external_body]
pub(crate) fn rb_col_utf8(b: &Batch, i: usize) -> (r: Option<Vec<Option<String>>>)
    requires
        i < batch_columns(*b).len(),
    ensures
        (match batch_columns(*b)[i as int].1 {
            ColumnData::Utf8(s) => r matches Some(v) && v.deep_view() == s,
            _ => r is None,
        }),
{
    let a = b.rb.column(i).as_any().downcast_ref::<arrow::array::StringArray>()?;
    Some(a.iter().map(|o| o.map(|s| s.to_string())).collect())
}

/// The typed form of a list of float columns inside a decoded batch.
pub open spec fn f32_batch(cols: Seq<(Seq<char>, Seq<u32>)>) -> Seq<(Seq<char>, ColumnData)> {
    cols.map_values(|c: (Seq<char>, Seq<u32>)| (c.0, ColumnData::F32(c.1)))
}

/// Decodes a self-describing columnar stream: the batches that decoded, and
/// whether the whole stream decoded cleanly. Every batch a producer sends,
/// and every persisted topic payload, enters the store through this decoder.
pub fn decode_batches(bytes: &Vec<u8>) -> (r: (Vec<Batch>, bool))
    ensures
        r.1 == ipc_clean(bytes@),
        r.0@.len() == ipc_contents(bytes@).len(),
        forall|i: int|
            0 <= i < r.0@.len() ==> batch_columns(#[trigger] r.0@[i]) == ipc_contents(bytes@)[i],
        forall|cols: Seq<(Seq<char>, Seq<u32>)>|
            bytes@ == #[trigger] ipc_payload(cols) ==> r.1 && r.0@.len() == 1 && batch_columns(
                r.0@[0],
            ) == f32_batch(cols),
{
    ipc_decode(bytes)
}

/// Relies on the columnar stream reader: decodes the batches that the stream
/// writer encoded, reporting whether the stream parsed to its end. A stream
/// that fails part-way yields the batches decoded before the failure.
#[verifier::external_body]
fn ipc_decode(bytes: &Vec<u8>) -> (r: (Vec<Batch>, bool))
    ensures
        r.1 == ipc_clean(bytes@),
        r.0@.len() == ipc_contents(bytes@).len(),
        forall|i: int|
            0 <= i < r.0@.len() ==> batch_columns(#[trigger] r.0@[i]) == ipc_contents(bytes@)[i],
        forall|cols: Seq<(Seq<char>, Seq<u32>)>|
            bytes@ == #[trigger] ipc_payload(cols) ==> r.1 && r.0@.len() == 1 && batch_columns(
                r.0@[0],
            ) == f32_batch(cols),
{
    let r = StreamReader::try_new(std::io::Cursor::new(bytes.as_slice()), None);
    let reader = match r {
        Ok(rd) => rd,
        Err(_) => { return (Vec::new(), false); },
    };
    let mut out = Vec::new();
    for item in reader {
        match item {
            Ok(rb) => out.push(Batch { rb }),
            Err(_) => { return (out, false); },
        }
    }
    (out, true)
}

/// Relies on the columnar stream writer: encodes one batch of named 32-bit
/// float columns. The writer accepts exactly a non-empty set of equal-length
/// columns.
#[verifier::external_body]
pub(crate) fn ipc_encode(cols: &Vec<(String, Vec<u32>)>) -> (r: Option<Vec<u8>>)
    ensures
        r matches Some(b) ==> b@ == ipc_payload(name_word_pairs(cols@)),
        (cols@.len() > 0 && (forall|j: int|
            0 <= j < cols@.len() ==> (#[trigger] cols@[j].1)@.len() == cols@[0].1@.len())) <==> r
            is Some,
{
    let arrays = cols.iter().map(|c| {
        let buf = ScalarBuffer::new(Buffer::from_vec(c.1.clone()), 0, c.1.len());
        let a: Arc<dyn Array> = Arc::new(Float32Array::new(buf, None));
        (c.0.as_str(), a)
    });
    let batch = RecordBatch::try_from_iter(arrays).ok()?;
    let mut out: Vec<u8> = Vec::new();
    let mut w = StreamWriter::try_new(&mut out, &batch.schema()).ok()?;
    w.write(&batch).ok()?;
    w.finish().ok()?;
    drop(w);
    Some(out)
}

/// The views of a list of named sample columns.
pub open spec fn name_word_pairs(cols: Seq<(String, Vec<u32>)>) -> Seq<(Seq<char>, Seq<u32>)> {
    cols.map_values(|c: (String, Vec<u32>)| (c.0@, c.1@))
}

/// The 32-bit word that an `as`-cast of the given 64-bit signed value to a
/// 32-bit float produces.
pub uninterp spec fn f32_word_of_i64(v: i64) -> u32;

/// The 32-bit word that an `as`-cast of the given 64-bit unsigned value to a
/// 32-bit float produces.
pub uninterp spec fn f32_word_of_u64(v: u64) -> u32;

/// The 32-bit word that narrowing the 64-bit float encoded by `v` produces.
pub uninterp spec fn f32_word_of_f64(v: u64) -> u32;

/// The 32-bit word of `(v as f64 / 1e6 - t0 as f64) as f32`, where `t0` is
/// the word of a 32-bit float: microseconds to seconds, shifted to the start
/// time, computed in 64-bit precision and narrowed.
pub uninterp spec fn norm_word_i64(v: i64, t0: u32) -> u32;

/// The 32-bit word of `(v as f64 / 1e6 - t0 as f64) as f32`, where `t0` is
/// the word of a 32-bit float: the same microsecond-to-relative-second
/// formula as the signed path, computed in 64-bit precision and narrowed
/// once.
pub uninterp spec fn norm_word_u64(v: u64, t0: u32) -> u32;

/// The 32-bit word of `(h as f32) % 1000.0`: a 64-bit hash reduced into the
/// interval from 0 to 1000.
pub uninterp spec fn unit_word_of_hash(h: u64) -> u32;

/// Relies on the columnar cast kernel (64-bit signed integer to 32-bit
/// float), which converts with Rust `as`-cast semantics.
#[verifier::external_body]
pub(crate) fn bits_of_i64(v: i64) -> (r: u32)
    ensures
        r == f32_word_of_i64(v),
{
    let a = Int64Array::from(vec![v]);
    let c = cast(&a, &DataType::Float32).unwrap();
    let f = c.as_any().downcast_ref::<Float32Array>().unwrap();
    f.value(0).to_bits()
}

/// Relies on the columnar cast kernel (64-bit unsigned integer to 32-bit
/// float), which converts with Rust `as`-cast semantics.
#[verifier::external_body]
pub(crate) fn bits_of_u64(v: u64) -> (r: u32)
    ensures
        r == f32_word_of_u64(v),
{
    let a = UInt64Array::from(vec![v]);
    let c = cast(&a, &DataType::Float32).unwrap();
    let f = c.as_any().downcast_ref::<Float32Array>().unwrap();
    f.value(0).to_bits()
}

/// Relies on the columnar cast kernel (64-bit float to 32-bit float), which
/// narrows with Rust `as`-cast semantics.
#[verifier::external_body]
pub(crate) fn bits_of_f64(v: u64) -> (r: u32)
    ensures
        r == f32_word_of_f64(v),
{
    let a = Float64Array::new(ScalarBuffer::new(Buffer::from_vec(vec![v]), 0, 1), None);
    let c = cast(&a, &DataType::Float32).unwrap();
    let f = c.as_any().downcast_ref::<Float32Array>().unwrap();
    f.value(0).to_bits()
}

/// Relies on the columnar cast and arithmetic kernels: converts a signed
/// microsecond count to 64-bit float seconds, subtracts the start time in
/// 64-bit precision, and narrows to a 32-bit float.
#[verifier::external_body]
pub(crate) fn norm_bits_i64(v: i64, t0: u32) -> (r: u32)
    ensures
        r == norm_word_i64(v, t0),
{
    let vs = cast(&Int64Array::from(vec![v]), &DataType::Float64).unwrap();
    let m = cast(&Int64Array::from(vec![1_000_000i64]), &DataType::Float64).unwrap();
    let secs = numeric::div(&vs, &m).unwrap();
    let t0f = Float32Array::new(ScalarBuffer::new(Buffer::from_vec(vec![t0]), 0, 1), None);
    let t0d = cast(&t0f, &DataType::Float64).unwrap();
    let n = cast(&numeric::sub(&secs, &t0d).unwrap(), &DataType::Float32).unwrap();
    n.as_any().downcast_ref::<Float32Array>().unwrap().value(0).to_bits()
}

/// Relies on the columnar cast and arithmetic kernels: converts an unsigned
/// microsecond count to 64-bit float seconds, subtracts the start time in
/// 64-bit precision, and narrows to a 32-bit float.
#[verifier::external_body]
pub(crate) fn norm_bits_u64(v: u64, t0: u32) -> (r: u32)
    ensures
        r == norm_word_u64(v, t0),
{
    let vs = cast(&UInt64Array::from(vec![v]), &DataType::Float64).unwrap();
    let m = cast(&Int64Array::from(vec![1_000_000i64]), &DataType::Float64).unwrap();
    let secs = numeric::div(&vs, &m).unwrap();
    let t0f = Float32Array::new(ScalarBuffer::new(Buffer::from_vec(vec![t0]), 0, 1), None);
    let t0d = cast(&t0f, &DataType::Float64).unwrap();
    let n = cast(&numeric::sub(&secs, &t0d).unwrap(), &DataType::Float32).unwrap();
    n.as_any().downcast_ref::<Float32Array>().unwrap().value(0).to_bits()
}

/// Relies on the columnar cast and remainder kernels: casts the hash to a
/// 32-bit float and reduces it modulo 1000. The dividend is finite and
/// non-negative, so the remainder lies at or above zero and strictly below
/// one thousand (whose float word is 0x447A_0000), stated here over the
/// engine's total order on words.
#[verifier::external_body]
pub(crate) fn unit_bits_of_hash(h: u64) -> (r: u32)
    ensures
        r == unit_word_of_hash(h),
        !crate::interp::before(r, 0u32),
        crate::interp::before(r, 0x447A_0000u32),
{
    let hf = cast(&UInt64Array::from(vec![h]), &DataType::Float32).unwrap();
    let k = cast(&Int64Array::from(vec![1000i64]), &DataType::Float32).unwrap();
    let r = numeric::rem(&hf, &k).unwrap();
    r.as_any().downcast_ref::<Float32Array>().unwrap().value(0).to_bits()
}

} // verus!
