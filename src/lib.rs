//! A fixed-size, round-robin time-series store whose files follow the
//! Whisper layout: a header, then one circular archive per resolution,
//! finest first. A write lands in the finest archive that still covers its
//! age and cascades, aggregated, into the coarser ones.
//!
//! The library works on the bytes of a file image, for instance a memory
//! mapping, and holds sample values as IEEE-754 bit patterns. The caller
//! performs the floating-point parts of a cascade step: comparing the share
//! of populated finer slots with the x-files-factor, and averaging or
//! summing their values.
pub mod archive;
pub mod codec;
pub mod errors;
pub mod header;
pub mod named_point;
pub mod point;
pub mod retention_policy;
pub mod schema;
pub mod whisper_file;

pub use archive::{Archive, ArchiveIndex, BucketName, ARCHIVE_INFO_SIZE};
pub use errors::SchemaError;
pub use header::{AggregationType, Header, STATIC_HEADER_SIZE};
pub use named_point::NamedPoint;
pub use point::{Point, POINT_SIZE};
pub use retention_policy::RetentionPolicy;
pub use schema::Schema;
pub use whisper_file::{Candidates, WhisperFile, WriteState};
