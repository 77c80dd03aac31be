//! Resource ceilings.
use vstd::prelude::*;

verus! {

/// Defensive resource limits for parsing and decoding.
#[derive(Debug, Clone, Copy, PartialEq, Eq, Structural)]
pub struct Limits {
    /// Maximum luma-pixel count accepted by stateful video codec instances.
    pub max_frame_pixels: u64,
    /// Maximum packet payload accepted by the container parser.
    pub max_packet_bytes: usize,
    /// Maximum decompressed entropy stream.
    pub max_entropy_bytes: usize,
    /// Maximum bytes retained by an incremental container parser.
    pub max_stream_buffer_bytes: usize,
}

impl Default for Limits {
    fn default() -> (r: Self)
        ensures
            r == (Limits {
                max_frame_pixels: 67_108_864,
                max_packet_bytes: 134_217_728,
                max_entropy_bytes: 8_388_608,
                max_stream_buffer_bytes: 167_772_160,
            }),
    {
        Limits {
            max_frame_pixels: 8192 * 8192,
            max_packet_bytes: 128 * 1024 * 1024,
            max_entropy_bytes: 8 * 1024 * 1024,
            max_stream_buffer_bytes: 160 * 1024 * 1024,
        }
    }
}

} // verus!
