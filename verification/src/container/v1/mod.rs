//! The Avelune container, Draft Generation 1.
//!
//! The container is front-indexed, packetized, CRC-protected, and designed so epochs can be
//! fetched independently with byte ranges.
pub mod fault_laws;
pub mod flow;
pub mod fragments;
pub mod layout_laws;
pub mod output_laws;
pub mod parser;
pub mod refusal;
pub mod session;
pub mod session_laws;
pub mod syntax;
pub mod wire;

pub use crate::container::v1::parser::{
    decode_packet_view_with, EpochTracker, PacketView, SliceParser, StreamParser, StreamPushError,
};
pub use crate::container::v1::session::{ContainerStreamDecoder, DecodedOutput, StreamDecodeError};
pub use crate::container::v1::wire::{
    build_file, build_file_checked, crc32c, crc32c_with, decode_front, decode_header, decode_packet,
    encode_front, encode_header, encode_packet, encode_packet_checked, parse_file_prefix,
    validate_epoch_ranges,
};
use vstd::prelude::*;

verus! {

/// Eight-byte file magic: `AVELUNE` and a zero.
pub const FILE_MAGIC: [u8; 8] = [65, 86, 69, 76, 85, 78, 69, 0];

/// Front-index section magic: `AVFR`.
pub const FRONT_MAGIC: [u8; 4] = [65, 86, 70, 82];

/// Packet framing magic: `AVPK`.
pub const PACKET_MAGIC: [u8; 4] = [65, 86, 80, 75];

/// Fixed file-header length in bytes.
pub const FIXED_HEADER_LEN: usize = 32;

/// Fixed packet-header length in bytes.
pub const PACKET_HEADER_LEN: usize = 28;

/// Packet trailer length in bytes.
pub const PACKET_TRAILER_LEN: usize = 4;

/// Default defensive maximum packet size used by tools.
pub const DEFAULT_MAX_PACKET: usize = 134_217_728;

/// Default container timebase: microseconds per second.
pub const TIMEBASE: u32 = 1_000_000;

/// Errors returned while parsing or validating the container.
#[derive(Debug, Clone, Copy, PartialEq, Eq, Structural)]
pub enum ContainerError {
    UnexpectedEof,
    BadMagic,
    UnsupportedVersion(u16),
    BadHeader,
    HeaderChecksum,
    BadFront,
    FrontChecksum,
    UnknownPacketKind(u8),
    PacketTooLarge(u32),
    PacketHeaderChecksum,
    PayloadChecksum,
    TrailingData,
    /// The caller violated the incremental parser reserve/commit protocol.
    ParserState,
    /// A configured memory/resource ceiling would be exceeded.
    ResourceLimit,
    /// Epoch framing is malformed or does not match the requested indexed epoch.
    BadEpoch,
    /// A media packet references no declared stream or a stream of the wrong media kind.
    BadStream,
}

/// Stream media category.
#[derive(Debug, Clone, Copy, PartialEq, Eq, Structural)]
pub enum StreamKind {
    Video,
    Audio,
}

impl StreamKind {
    /// The byte that stands for the category.
    pub open spec fn byte(self) -> u8 {
        match self {
            StreamKind::Video => 1,
            StreamKind::Audio => 2,
        }
    }

    pub fn code(self) -> (r: u8)
        ensures
            r == self.byte(),
    {
        match self {
            StreamKind::Video => 1,
            StreamKind::Audio => 2,
        }
    }

    pub fn try_from(v: u8) -> (r: Result<Self, ContainerError>)
        ensures
            match r {
                Ok(kind) => v == kind.byte(),
                Err(e) => e == ContainerError::BadFront && v != 1 && v != 2,
            },
    {
        match v {
            1 => Ok(StreamKind::Video),
            2 => Ok(StreamKind::Audio),
            _ => Err(ContainerError::BadFront),
        }
    }
}

/// Packet semantic category.
#[derive(Debug, Clone, Copy, PartialEq, Eq, Structural)]
pub enum PacketKind {
    EpochStart,
    VideoFrame,
    AudioFrame,
    Metadata,
}

impl PacketKind {
    /// The byte that stands for the category.
    pub open spec fn byte(self) -> u8 {
        match self {
            PacketKind::EpochStart => 1,
            PacketKind::VideoFrame => 2,
            PacketKind::AudioFrame => 3,
            PacketKind::Metadata => 4,
        }
    }

    pub fn code(self) -> (r: u8)
        ensures
            r == self.byte(),
    {
        match self {
            PacketKind::EpochStart => 1,
            PacketKind::VideoFrame => 2,
            PacketKind::AudioFrame => 3,
            PacketKind::Metadata => 4,
        }
    }

    pub fn try_from(v: u8) -> (r: Result<Self, ContainerError>)
        ensures
            match r {
                Ok(kind) => v == kind.byte(),
                Err(e) => e == ContainerError::UnknownPacketKind(v) && (v == 0 || v > 4),
            },
    {
        match v {
            1 => Ok(PacketKind::EpochStart),
            2 => Ok(PacketKind::VideoFrame),
            3 => Ok(PacketKind::AudioFrame),
            4 => Ok(PacketKind::Metadata),
            _ => Err(ContainerError::UnknownPacketKind(v)),
        }
    }
}

/// Signaled YUV matrix coefficients.
#[derive(Debug, Clone, Copy, PartialEq, Eq, Structural)]
pub enum ColorMatrix {
    Unspecified,
    Bt601,
    Bt709,
    Bt2020Ncl,
}

impl ColorMatrix {
    pub open spec fn number(self) -> int {
        match self {
            ColorMatrix::Unspecified => 0,
            ColorMatrix::Bt601 => 1,
            ColorMatrix::Bt709 => 2,
            ColorMatrix::Bt2020Ncl => 3,
        }
    }

    pub fn code(self) -> (r: u32)
        ensures
            r == self.number(),
    {
        match self {
            ColorMatrix::Unspecified => 0,
            ColorMatrix::Bt601 => 1,
            ColorMatrix::Bt709 => 2,
            ColorMatrix::Bt2020Ncl => 3,
        }
    }

    fn of(v: u32) -> (r: Option<Self>)
        ensures
            match r {
                Some(value) => value.number() == v,
                None => v > 3,
            },
    {
        match v {
            0 => Some(ColorMatrix::Unspecified),
            1 => Some(ColorMatrix::Bt601),
            2 => Some(ColorMatrix::Bt709),
            3 => Some(ColorMatrix::Bt2020Ncl),
            _ => None,
        }
    }
}

/// Signaled transfer characteristic.
#[derive(Debug, Clone, Copy, PartialEq, Eq, Structural)]
pub enum ColorTransfer {
    Unspecified,
    Bt709,
    Srgb,
    Pq,
    Hlg,
}

impl ColorTransfer {
    pub open spec fn number(self) -> int {
        match self {
            ColorTransfer::Unspecified => 0,
            ColorTransfer::Bt709 => 1,
            ColorTransfer::Srgb => 2,
            ColorTransfer::Pq => 3,
            ColorTransfer::Hlg => 4,
        }
    }

    pub fn code(self) -> (r: u32)
        ensures
            r == self.number(),
    {
        match self {
            ColorTransfer::Unspecified => 0,
            ColorTransfer::Bt709 => 1,
            ColorTransfer::Srgb => 2,
            ColorTransfer::Pq => 3,
            ColorTransfer::Hlg => 4,
        }
    }

    fn of(v: u32) -> (r: Option<Self>)
        ensures
            match r {
                Some(value) => value.number() == v,
                None => v > 4,
            },
    {
        match v {
            0 => Some(ColorTransfer::Unspecified),
            1 => Some(ColorTransfer::Bt709),
            2 => Some(ColorTransfer::Srgb),
            3 => Some(ColorTransfer::Pq),
            4 => Some(ColorTransfer::Hlg),
            _ => None,
        }
    }
}

/// Signaled color primaries.
#[derive(Debug, Clone, Copy, PartialEq, Eq, Structural)]
pub enum ColorPrimaries {
    Unspecified,
    Bt601,
    Bt709,
    Bt2020,
}

impl ColorPrimaries {
    pub open spec fn number(self) -> int {
        match self {
            ColorPrimaries::Unspecified => 0,
            ColorPrimaries::Bt601 => 1,
            ColorPrimaries::Bt709 => 2,
            ColorPrimaries::Bt2020 => 3,
        }
    }

    pub fn code(self) -> (r: u32)
        ensures
            r == self.number(),
    {
        match self {
            ColorPrimaries::Unspecified => 0,
            ColorPrimaries::Bt601 => 1,
            ColorPrimaries::Bt709 => 2,
            ColorPrimaries::Bt2020 => 3,
        }
    }

    fn of(v: u32) -> (r: Option<Self>)
        ensures
            match r {
                Some(value) => value.number() == v,
                None => v > 3,
            },
    {
        match v {
            0 => Some(ColorPrimaries::Unspecified),
            1 => Some(ColorPrimaries::Bt601),
            2 => Some(ColorPrimaries::Bt709),
            3 => Some(ColorPrimaries::Bt2020),
            _ => None,
        }
    }
}

/// Chroma sample siting metadata.
#[derive(Debug, Clone, Copy, PartialEq, Eq, Structural)]
pub enum ChromaLocation {
    Unspecified,
    Left,
    Center,
}

impl ChromaLocation {
    pub open spec fn number(self) -> int {
        match self {
            ChromaLocation::Unspecified => 0,
            ChromaLocation::Left => 1,
            ChromaLocation::Center => 2,
        }
    }

    pub fn code(self) -> (r: u32)
        ensures
            r == self.number(),
    {
        match self {
            ChromaLocation::Unspecified => 0,
            ChromaLocation::Left => 1,
            ChromaLocation::Center => 2,
        }
    }

    fn of(v: u32) -> (r: Option<Self>)
        ensures
            match r {
                Some(value) => value.number() == v,
                None => v > 2,
            },
    {
        match v {
            0 => Some(ChromaLocation::Unspecified),
            1 => Some(ChromaLocation::Left),
            2 => Some(ChromaLocation::Center),
            _ => None,
        }
    }
}

/// Packed video color/range/chroma metadata stored in a stream descriptor.
#[derive(Debug, Clone, Copy, PartialEq, Eq, Structural)]
pub struct VideoMeta {
    /// YUV conversion matrix.
    pub matrix: ColorMatrix,
    /// Transfer characteristic.
    pub transfer: ColorTransfer,
    /// Color primaries.
    pub primaries: ColorPrimaries,
    /// Whether sample values use full rather than studio/limited range.
    pub full_range: bool,
    /// Chroma sample location.
    pub chroma: ChromaLocation,
}

impl Default for VideoMeta {
    fn default() -> (r: Self)
        ensures
            r.packed() == 0,
    {
        VideoMeta {
            matrix: ColorMatrix::Unspecified,
            transfer: ColorTransfer::Unspecified,
            primaries: ColorPrimaries::Unspecified,
            full_range: false,
            chroma: ChromaLocation::Unspecified,
        }
    }
}

/// Some metadata packs into this word.
pub open spec fn meta_ok(v: int) -> bool {
    exists|m: VideoMeta| #[trigger] m.packed() == v
}

impl VideoMeta {
    /// The word that stands for the metadata: four bits for the matrix, four for the transfer,
    /// four for the primaries, one for the range and three for the chroma location.
    pub open spec fn packed(self) -> int {
        self.matrix.number() + 16 * self.transfer.number() + 256 * self.primaries.number() + (
        if self.full_range {
            4096int
        } else {
            0
        }) + 8192 * self.chroma.number()
    }

    /// No two metadata values share a word.
    pub proof fn law_pack_injective(self, other: VideoMeta)
        requires
            self.packed() == other.packed(),
        ensures
            self == other,
    {
        let v = self.packed();
        assert(v % 16 == self.matrix.number());
        assert(v % 16 == other.matrix.number());
        assert((v / 16) % 16 == self.transfer.number());
        assert((v / 16) % 16 == other.transfer.number());
        assert((v / 256) % 16 == self.primaries.number());
        assert((v / 256) % 16 == other.primaries.number());
        assert(v / 8192 == self.chroma.number());
        assert(v / 8192 == other.chroma.number());
    }

    /// Packs this metadata into the stream-descriptor field.
    pub fn pack(self) -> (r: u32)
        ensures
            r == self.packed(),
    {
        self.matrix.code() + 16 * self.transfer.code() + 256 * self.primaries.code() + (
        if self.full_range {
            4096
        } else {
            0
        }) + 8192 * self.chroma.code()
    }

    /// The digits of a packed word.
    proof fn lemma_digits(self)
        ensures
            self.packed() % 16 == self.matrix.number(),
            (self.packed() / 16) % 16 == self.transfer.number(),
            (self.packed() / 256) % 16 == self.primaries.number(),
            (self.packed() / 8192) % 8 == self.chroma.number(),
            self.packed() / 65536 == 0,
    {
        let f: int = if self.full_range {
            1
        } else {
            0
        };
        let (m, t, p, c) = (
            self.matrix.number() as int,
            self.transfer.number() as int,
            self.primaries.number() as int,
            self.chroma.number() as int,
        );
        let v = self.packed() as int;
        assert(v == m + 16 * (t + 16 * (p + 16 * (f + 2 * c))));
        lemma_digits_of(v, m, t, p, f, c);
    }

    /// Unpacks and validates a metadata field.
    pub fn unpack(v: u32) -> (r: Result<Self, ContainerError>)
        ensures
            match r {
                Ok(m) => m.packed() == v,
                Err(e) => e == ContainerError::BadFront && !meta_ok(v as int),
            },
    {
        proof {
            lemma_word(v as int);
        }
        match (
            ColorMatrix::of(v % 16),
            ColorTransfer::of((v / 16) % 16),
            ColorPrimaries::of((v / 256) % 16),
            ChromaLocation::of((v / 8192) % 8),
        ) {
            (Some(matrix), Some(transfer), Some(primaries), Some(chroma)) => {
                if v / 65536 != 0 {
                    return Err(ContainerError::BadFront);
                }
                let full_range: bool = (v / 4096) % 2 == 1;
                Ok(VideoMeta { matrix, transfer, primaries, full_range, chroma })
            },
            _ => Err(ContainerError::BadFront),
        }
    }
}

/// The digits of a word made of small parts.
proof fn lemma_digits_of(v: int, m: int, t: int, p: int, f: int, c: int)
    requires
        0 <= m < 16,
        0 <= t < 16,
        0 <= p < 16,
        0 <= f < 2,
        0 <= c < 8,
        v == m + 16 * (t + 16 * (p + 16 * (f + 2 * c))),
    ensures
        v % 16 == m,
        (v / 16) % 16 == t,
        (v / 256) % 16 == p,
        (v / 8192) % 8 == c,
        v / 65536 == 0,
{
    let a = t + 16 * (p + 16 * (f + 2 * c));
    let b = p + 16 * (f + 2 * c);
    assert(v / 16 == a && v % 16 == m);
    assert(a / 16 == b && a % 16 == t);
    assert(v / 256 == b);
    assert(b % 16 == p);
    assert(v / 8192 == c);
}

/// A word is made of its digits, and those of packed metadata are small.
proof fn lemma_word(v: int)
    requires
        0 <= v,
    ensures
        v == v % 16 + 16 * ((v / 16) % 16) + 256 * ((v / 256) % 16) + 4096 * ((v / 4096) % 2) + 8192
            * ((v / 8192) % 8) + 65536 * (v / 65536),
        meta_ok(v) ==> v % 16 <= 3 && (v / 16) % 16 <= 4 && (v / 256) % 16 <= 3 && (v / 8192) % 8
            <= 2 && v / 65536 == 0,
{
    let (a, b, c, d, e) = (v / 16, v / 256, v / 4096, v / 8192, v / 65536);
    assert(v == 16 * a + v % 16);
    assert(b == a / 16 && a == 16 * b + a % 16);
    assert(c == b / 16 && b == 16 * c + b % 16);
    assert(d == c / 2 && c == 2 * d + c % 2);
    assert(e == d / 8 && d == 8 * e + d % 8);
    if meta_ok(v) {
        let m = choose|m: VideoMeta| #[trigger] m.packed() == v;
        m.lemma_digits();
    }
}

/// Front-index description of one logical media stream.
#[derive(Debug, Clone, Copy, PartialEq, Eq, Structural)]
pub struct StreamDesc {
    /// Stable stream identifier within the file.
    pub id: u16,
    /// Media category.
    pub kind: StreamKind,
    /// Codec-generation identifier.
    pub codec: u8,
    /// Timestamp units per second.
    pub timescale: u32,
    /// Codec-specific parameter 0.
    pub param0: u32,
    /// Codec-specific parameter 1.
    pub param1: u32,
    /// Stream flags.
    pub flags: u32,
    /// Codec/media metadata word.
    pub meta0: u32,
}

/// Byte-range and timeline entry for one independently fetchable epoch.
#[derive(Debug, Clone, Copy, PartialEq, Eq, Structural)]
pub struct EpochIndex {
    /// Epoch identifier.
    pub id: u32,
    /// Presentation timestamp.
    pub pts: u64,
    /// Absolute file byte offset.
    pub offset: u64,
    /// Byte length of the complete epoch.
    pub len: u64,
    /// Epoch timeline duration.
    pub duration: u32,
}

/// Parsed front index containing stream descriptors and epoch locations.
#[derive(Debug, PartialEq, Eq)]
pub struct Front {
    /// Stream descriptors.
    pub streams: Vec<StreamDesc>,
    /// Indexed independently fetchable epochs.
    pub epochs: Vec<EpochIndex>,
}

impl Front {
    pub open spec fn model(&self) -> syntax::FrontModel {
        syntax::FrontModel { streams: self.streams@, epochs: self.epochs@ }
    }
}

impl Clone for Front {
    fn clone(&self) -> (r: Self)
        ensures
            r.model() == self.model(),
    {
        let r: Front = Front { streams: self.streams.clone(), epochs: self.epochs.clone() };
        assert(r.streams@ =~= self.streams@);
        assert(r.epochs@ =~= self.epochs@);
        r
    }
}

/// One decoded container packet.
#[derive(Debug, PartialEq, Eq)]
pub struct Packet {
    /// Packet category.
    pub kind: PacketKind,
    /// Packet flags.
    pub flags: u8,
    /// Target logical stream.
    pub stream_id: u16,
    /// Presentation timestamp.
    pub pts: u64,
    /// Packet duration.
    pub duration: u32,
    /// Codec/metadata payload bytes.
    pub payload: Vec<u8>,
}

impl Packet {
    pub open spec fn model(&self) -> syntax::PacketModel {
        syntax::PacketModel {
            kind: self.kind,
            flags: self.flags,
            stream_id: self.stream_id,
            pts: self.pts,
            duration: self.duration,
            payload: self.payload@,
        }
    }
}

impl Clone for Packet {
    fn clone(&self) -> (r: Self)
        ensures
            r.model() == self.model(),
    {
        let payload: Vec<u8> = self.payload.clone();
        assert(payload@ =~= self.payload@);
        Packet {
            kind: self.kind,
            flags: self.flags,
            stream_id: self.stream_id,
            pts: self.pts,
            duration: self.duration,
            payload,
        }
    }
}

/// Fixed file header fields.
#[derive(Debug, Clone, Copy, PartialEq, Eq, Structural)]
pub struct FileHeader {
    /// File-level flags.
    pub flags: u32,
    /// Number of stream descriptors in the front index.
    pub stream_count: u16,
    /// Serialized front-index length in bytes.
    pub front_len: u32,
}

} // verus!
