//! Decoding of frame-timing capture logs into typed records, and the
//! statistics computed over them.
//!
//! A capture log is CSV text with one row per rendered frame and one column
//! per measured signal. [`decoder::decode_capture`] turns it into
//! [`record::CaptureRecord`]s through the fixed [`schema`], reading each
//! cell with the sentinel [`codec`]; [`metrics`] reduces the records to
//! statistics.
pub mod codec;
pub mod decoder;
pub mod metrics;
pub mod numeric;
pub mod record;
pub mod schema;
pub mod text;

pub use codec::{Cell, ColumnKind, MalformedNumber, decode_cell, encode_cell};
pub use decoder::{DecodeError, decode_capture, decode_table};
pub use metrics::{MetricError, frame_time_samples};
pub use record::CaptureRecord;
pub use schema::{Column, schema};
