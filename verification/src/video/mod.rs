//! Video coding.
pub mod v1;
