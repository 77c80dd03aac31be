//! Container formats.
pub mod v1;
