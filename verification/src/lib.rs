//! Verified core of a telemetry plotting pipeline: a wire-protocol receiver,
//! a type-coercing columnar store, a persistence codec, and an interpolation
//! query engine.
//!
//! Samples are 32-bit IEEE-754 values; the verified code carries them as their
//! raw bit patterns (`u32` words), so that everything except the floating-point
//! arithmetic itself is proved. The arithmetic that produces new sample words
//! (type coercion, timestamp normalization) is delegated to the columnar
//! library behind trusted wrappers.

pub mod codec;
pub mod columnar;
pub mod interp;
pub mod paths;
pub mod receiver;
pub mod store;
pub mod strutil;
pub mod vehicle;
