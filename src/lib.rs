//! Batch orchestration for a log-collection worker: resolving pull requests
//! against a fixed catalog of log sources, planning the archive write for the
//! bytes a connector returned, and reducing per-request outcomes into the
//! list of message ids the transport must redeliver.

pub mod archive;
pub mod batch;
pub mod catalog;
