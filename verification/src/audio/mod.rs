//! Audio codecs.
pub mod v1;
